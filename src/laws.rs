use vstd::prelude::*;
use vstd::utf8::encode_utf8_decode_utf8;
use crate::codec::{be_bytes, be_value, compound_bytes, lemma_be_round_trip, lemma_be_value_round_trip, lemma_compound_round_trip};
use crate::store::{name_key, Store};

verus! {

/// Two compound keys are equal only when both their identifiers are.
pub proof fn lemma_compound_injective(a: u64, b: u64, c: u64, d: u64)
    requires
        compound_bytes(a, b) == compound_bytes(c, d),
    ensures
        a == c,
        b == d,
{
    lemma_compound_round_trip(a, b);
    lemma_compound_round_trip(c, d);
}

/// After an item is tagged, both the forward and the reverse index record the pair;
/// after it is then untagged, neither does.
pub proof fn law_tag_untag_round_trip(
    before: Store,
    tagged: Store,
    untagged: Store,
    item: u64,
    tag: u64,
)
    requires
        before.tag_effect(tagged, item, tag),
        tagged.untag_effect(untagged, item, tag),
    ensures
        tagged.has_tag(item, tag),
        tagged.has_item(tag, item),
        !untagged.has_tag(item, tag),
        !untagged.has_item(tag, item),
{
}

/// Tagging an item by name records the named tag's id in both indexes.
pub proof fn law_tag_by_name_round_trip(before: Store, after: Store, item: u64, name: Seq<char>)
    requires
        before.tag_string_effect(after, item, name),
    ensures
        after.lookup(name) matches Some(t) && after.has_tag(item, t) && after.has_item(t, item),
{
}

/// Tagging the same pair twice leaves both indexes as tagging it once did.
pub proof fn law_tag_idempotent(s0: Store, s1: Store, s2: Store, item: u64, tag: u64)
    requires
        s0.tag_effect(s1, item, tag),
        s1.tag_effect(s2, item, tag),
    ensures
        s2.same_index(s1),
{
    assert(s2.forward() =~= s1.forward());
    assert(s2.reverse() =~= s1.reverse());
}

/// Tagging keeps the forward and the reverse index in step.
pub proof fn law_tag_keeps_symmetry(before: Store, after: Store, item: u64, tag: u64)
    requires
        before.index_symmetric(),
        before.tag_effect(after, item, tag),
    ensures
        after.index_symmetric(),
{
    assert forall|t: u64, i: u64| #[trigger] after.has_item(t, i) <==> #[trigger] after.has_tag(i, t) by {
        if compound_bytes(t, i) == compound_bytes(tag, item) {
            lemma_compound_injective(t, i, tag, item);
        }
        if compound_bytes(i, t) == compound_bytes(item, tag) {
            lemma_compound_injective(i, t, item, tag);
        }
        assert(before.has_item(t, i) <==> before.has_tag(i, t));
    }
}

/// Untagging keeps the forward and the reverse index in step.
pub proof fn law_untag_keeps_symmetry(before: Store, after: Store, item: u64, tag: u64)
    requires
        before.index_symmetric(),
        before.untag_effect(after, item, tag),
    ensures
        after.index_symmetric(),
{
    assert forall|t: u64, i: u64| #[trigger] after.has_item(t, i) <==> #[trigger] after.has_tag(i, t) by {
        if compound_bytes(t, i) == compound_bytes(tag, item) {
            lemma_compound_injective(t, i, tag, item);
        }
        if compound_bytes(i, t) == compound_bytes(item, tag) {
            lemma_compound_injective(i, t, item, tag);
        }
        assert(before.has_item(t, i) <==> before.has_tag(i, t));
    }
}

/// After a name is cataloged by tagging, looking it up gives an id whose catalog name is
/// exactly that name, no other name has that id, and the catalog stays a bijection of
/// issued ids.
pub proof fn law_catalog_bijection(before: Store, after: Store, item: u64, name: Seq<char>)
    requires
        before.catalog_consistent(),
        before.catalog_ids_issued(),
        before.tag_string_effect(after, item, name),
    ensures
        after.catalog_consistent(),
        after.catalog_ids_issued(),
        after.lookup(name) matches Some(x) && after.id_names().contains_key(be_bytes(x))
            && after.id_names()[be_bytes(x)] == name_key(name),
        forall|other: Seq<char>|
            after.lookup(other) == after.lookup(name) ==> other == name,
{
    let k = name_key(name);
    let x = after.lookup(name)->0;
    if before.name_ids().contains_key(k) {
        let i = before.name_ids()[k];
        assert(before.id_names().contains_key(i));
        lemma_be_value_round_trip(before.name_ids()[k]);
        assert(before.name_ids()[k] == be_bytes(x));
    } else {
        lemma_be_round_trip(x);
        assert(!before.id_names().contains_key(be_bytes(x))) by {
            if before.id_names().contains_key(be_bytes(x)) {
                assert(be_value(be_bytes(x)) <= before.id_floor());
            }
        }
        assert forall|n: Seq<u8>, i: Seq<u8>|
            #![trigger after.name_ids().contains_key(n), after.id_names().contains_key(i)]
            (after.name_ids().contains_key(n) && after.name_ids()[n] == i) <==> (
            after.id_names().contains_key(i) && after.id_names()[i] == n) by {
            assert(before.name_ids().contains_key(n) && before.name_ids()[n] == i <==> (
            before.id_names().contains_key(i) && before.id_names()[i] == n));
        }
        assert forall|i: Seq<u8>| #[trigger] after.id_names().contains_key(i) implies i.len() == 8
            && be_value(i) <= after.id_floor() by {
            if i != be_bytes(x) {
                assert(before.id_names().contains_key(i));
            }
        }
    }
    lemma_be_value_round_trip(after.name_ids()[k]);
    assert(after.name_ids()[k] == be_bytes(x));
    assert(after.id_names().contains_key(be_bytes(x)) && after.id_names()[be_bytes(x)] == k);
    assert forall|other: Seq<char>| after.lookup(other) == after.lookup(name) implies other == name by {
        let ko = name_key(other);
        lemma_be_value_round_trip(after.name_ids()[ko]);
        assert(after.name_ids()[ko] == be_bytes(x));
        assert(after.id_names()[be_bytes(x)] == ko);
        encode_utf8_decode_utf8(other);
        encode_utf8_decode_utf8(name);
    }
}

/// Removing a tag keeps the catalog a bijection of issued ids.
pub proof fn law_remove_tag_keeps_bijection(before: Store, after: Store, id: u64)
    requires
        before.catalog_consistent(),
        before.catalog_ids_issued(),
        before.remove_tag_effect(after, id),
        after.id_floor() == before.id_floor(),
    ensures
        after.catalog_consistent(),
        after.catalog_ids_issued(),
{
    let gone = be_bytes(id);
    let gone_name = before.id_names()[gone];
    assert(before.name_ids().contains_key(gone_name) && before.name_ids()[gone_name] == gone);
    assert forall|n: Seq<u8>, i: Seq<u8>|
        #![trigger after.name_ids().contains_key(n), after.id_names().contains_key(i)]
        (after.name_ids().contains_key(n) && after.name_ids()[n] == i) <==> (
        after.id_names().contains_key(i) && after.id_names()[i] == n) by {
        assert(before.name_ids().contains_key(n) && before.name_ids()[n] == i <==> (
        before.id_names().contains_key(i) && before.id_names()[i] == n));
    }
    assert forall|i: Seq<u8>| #[trigger] after.id_names().contains_key(i) implies i.len() == 8
        && be_value(i) <= after.id_floor() by {
        assert(before.id_names().contains_key(i));
    }
}

} // verus!
