use tagmu::store::{next_id, ItemID, Store, StoreError, Tag, TagID};

fn all_ok<T>(v: Vec<Result<T, StoreError>>) -> Vec<T> {
    v.into_iter().map(|r| r.unwrap()).collect()
}

fn fresh() -> Store {
    Store::open_temporary().unwrap()
}

#[test]
fn scenario_first_item_and_tag() {
    let mut s = fresh();
    let a = s.id().unwrap();
    assert_eq!(a, 1);
    s.tag_string(ItemID(a), "Jazz").unwrap();
    assert_eq!(s.get_tag_id("Jazz").unwrap(), Some(TagID(2)));
    assert_eq!(all_ok(s.get_tag_item_ids(TagID(2)).unwrap()), vec![ItemID(1)]);
}

#[test]
fn scenario_second_item_reuses_tag() {
    let mut s = fresh();
    let a = s.id().unwrap();
    s.tag_string(ItemID(a), "Jazz").unwrap();
    let b = s.id().unwrap();
    assert_eq!(b, 3);
    s.tag_string(ItemID(b), "Jazz").unwrap();
    assert_eq!(s.get_tag_id("Jazz").unwrap(), Some(TagID(2)));
    assert_eq!(all_ok(s.get_tag_item_ids(TagID(2)).unwrap()), vec![ItemID(1), ItemID(3)]);
    // no new catalog entry: the next id follows directly
    assert_eq!(s.id().unwrap(), 4);
}

#[test]
fn scenario_remove_tag_orphans_index() {
    let mut s = fresh();
    let a = s.id().unwrap();
    s.tag_string(ItemID(a), "Jazz").unwrap();
    let b = s.id().unwrap();
    s.tag_string(ItemID(b), "Jazz").unwrap();
    s.remove_tag(TagID(2)).unwrap();
    assert_eq!(s.get_tag_id("Jazz").unwrap(), None);
    let r = s.get_item_tags(ItemID(1)).unwrap();
    assert_eq!(r.len(), 1);
    assert!(matches!(r[0], Err(StoreError::InternalError {})));
    // the index itself still holds the orphaned pair
    assert_eq!(all_ok(s.get_item_tag_ids(ItemID(1)).unwrap()), vec![TagID(2)]);
}

#[test]
fn scenario_remove_unknown_tag() {
    let mut s = fresh();
    let r = s.remove_tag(TagID(999));
    assert!(matches!(r, Err(StoreError::NotFound { key: 999 })));
}

#[test]
fn tag_then_untag_round_trip() {
    let mut s = fresh();
    let item = ItemID(s.id().unwrap());
    s.tag_string(item, "Rock").unwrap();
    let t = s.get_tag_id("Rock").unwrap().unwrap();
    assert!(all_ok(s.get_item_tag_ids(item).unwrap()).contains(&t));
    assert!(all_ok(s.get_tag_item_ids(t).unwrap()).contains(&item));
    s.untag(item, t).unwrap();
    assert!(all_ok(s.get_item_tag_ids(item).unwrap()).is_empty());
    assert!(all_ok(s.get_tag_item_ids(t).unwrap()).is_empty());
}

#[test]
fn untag_absent_pair_is_no_op() {
    let mut s = fresh();
    s.untag(ItemID(7), TagID(8)).unwrap();
    assert!(all_ok(s.get_item_tag_ids(ItemID(7)).unwrap()).is_empty());
}

#[test]
fn catalog_is_a_bijection() {
    let mut s = fresh();
    let item = ItemID(s.id().unwrap());
    s.tag_string(item, "Blues").unwrap();
    s.tag_string(item, "blues").unwrap();
    let upper = s.get_tag_id("Blues").unwrap().unwrap();
    let lower = s.get_tag_id("blues").unwrap().unwrap();
    assert_ne!(upper, lower);
    let tags = all_ok(s.get_item_tags(item).unwrap());
    assert_eq!(
        tags,
        vec![
            Tag { id: upper, name: "Blues".to_string() },
            Tag { id: lower, name: "blues".to_string() }
        ]
    );
}

#[test]
fn symmetry_between_indexes() {
    let mut s = fresh();
    let a = ItemID(s.id().unwrap());
    let b = ItemID(s.id().unwrap());
    s.tag_string(a, "x").unwrap();
    s.tag_string(b, "y").unwrap();
    let x = s.get_tag_id("x").unwrap().unwrap();
    let y = s.get_tag_id("y").unwrap().unwrap();
    for item in [a, b] {
        for t in [x, y] {
            let forward = all_ok(s.get_tag_item_ids(t).unwrap()).contains(&item);
            let reverse = all_ok(s.get_item_tag_ids(item).unwrap()).contains(&t);
            assert_eq!(forward, reverse);
        }
    }
}

#[test]
fn tagging_twice_is_idempotent() {
    let mut s = fresh();
    s.tag(ItemID(5), TagID(6)).unwrap();
    s.tag(ItemID(5), TagID(6)).unwrap();
    assert_eq!(all_ok(s.get_tag_item_ids(TagID(6)).unwrap()), vec![ItemID(5)]);
    assert_eq!(all_ok(s.get_item_tag_ids(ItemID(5)).unwrap()), vec![TagID(6)]);
    s.tag_string(ItemID(5), "Soul").unwrap();
    s.tag_string(ItemID(5), "Soul").unwrap();
    assert_eq!(all_ok(s.get_item_tag_ids(ItemID(5)).unwrap()).len(), 2);
}

#[test]
fn queries_are_in_ascending_order() {
    let mut s = fresh();
    for item in [300u64, 5, 256, 1, 70000, u64::MAX] {
        s.tag(ItemID(item), TagID(42)).unwrap();
    }
    assert_eq!(
        all_ok(s.get_tag_item_ids(TagID(42)).unwrap()),
        vec![ItemID(1), ItemID(5), ItemID(256), ItemID(300), ItemID(70000), ItemID(u64::MAX)]
    );
    for t in [9u64, 513, 2] {
        s.tag(ItemID(11), TagID(t)).unwrap();
    }
    assert_eq!(all_ok(s.get_item_tag_ids(ItemID(11)).unwrap()), vec![TagID(2), TagID(9), TagID(513)]);
}

#[test]
fn prefix_scan_keeps_to_its_prefix() {
    let mut s = fresh();
    s.tag(ItemID(1), TagID(255)).unwrap();
    s.tag(ItemID(2), TagID(256)).unwrap();
    s.tag(ItemID(3), TagID(u64::MAX)).unwrap();
    assert_eq!(all_ok(s.get_tag_item_ids(TagID(255)).unwrap()), vec![ItemID(1)]);
    assert_eq!(all_ok(s.get_tag_item_ids(TagID(256)).unwrap()), vec![ItemID(2)]);
    assert_eq!(all_ok(s.get_tag_item_ids(TagID(u64::MAX)).unwrap()), vec![ItemID(3)]);
    assert!(all_ok(s.get_tag_item_ids(TagID(0)).unwrap()).is_empty());
}

#[test]
fn ids_increase() {
    let mut s = fresh();
    let mut last = 0u64;
    for _ in 0..20 {
        let v = s.id().unwrap();
        assert!(v > last);
        last = v;
    }
}

#[test]
fn lookup_of_unknown_name_is_absent() {
    let s = fresh();
    assert_eq!(s.get_tag_id("nothing").unwrap(), None);
    assert_eq!(s.get_tag_id("").unwrap(), None);
}

#[test]
fn names_are_byte_exact() {
    let mut s = fresh();
    s.tag_string(ItemID(1), "Café ").unwrap();
    assert!(s.get_tag_id("Café ").unwrap().is_some());
    assert_eq!(s.get_tag_id("Café").unwrap(), None);
    assert_eq!(s.get_tag_id("CAFÉ ").unwrap(), None);
    let tags = all_ok(s.get_item_tags(ItemID(1)).unwrap());
    assert_eq!(tags.len(), 1);
    assert_eq!(tags[0].name, "Café ");
}

#[test]
fn update_tag_catalogs_both_ways() {
    let mut s = fresh();
    let t = s.update_tag(TagID(77), "Folk").unwrap();
    assert_eq!(t, Tag { id: TagID(77), name: "Folk".to_string() });
    assert_eq!(s.get_tag_id("Folk").unwrap(), Some(TagID(77)));
    s.tag(ItemID(3), TagID(77)).unwrap();
    assert_eq!(all_ok(s.get_item_tags(ItemID(3)).unwrap()), vec![t]);
    s.remove_tag(TagID(77)).unwrap();
    assert_eq!(s.get_tag_id("Folk").unwrap(), None);
    assert!(matches!(s.remove_tag(TagID(77)), Err(StoreError::NotFound { key: 77 })));
}

#[test]
fn item_without_tags_has_empty_lists() {
    let s = fresh();
    assert!(all_ok(s.get_item_tags(ItemID(12)).unwrap()).is_empty());
    assert!(all_ok(s.get_item_tag_ids(ItemID(12)).unwrap()).is_empty());
}

#[test]
fn orphaned_tag_fails_only_its_element() {
    let mut s = fresh();
    s.tag_string(ItemID(1), "kept").unwrap();
    s.tag_string(ItemID(1), "dropped").unwrap();
    let kept = s.get_tag_id("kept").unwrap().unwrap();
    let dropped = s.get_tag_id("dropped").unwrap().unwrap();
    s.remove_tag(dropped).unwrap();
    let r = s.get_item_tags(ItemID(1)).unwrap();
    assert_eq!(r.len(), 2);
    assert_eq!(r[0].as_ref().unwrap(), &Tag { id: kept, name: "kept".to_string() });
    assert!(matches!(r[1], Err(StoreError::InternalError {})));
}

#[test]
fn next_id_is_one_above_the_generator() {
    assert_eq!(next_id(0).unwrap(), 1);
    assert_eq!(next_id(41).unwrap(), 42);
    assert!(matches!(next_id(u64::MAX), Err(StoreError::InternalError {})));
}
