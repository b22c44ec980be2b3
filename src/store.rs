use vstd::prelude::*;
use vstd::utf8::{decode_utf8_encode_utf8, encode_utf8, valid_utf8};
use crate::codec::{
    be_bytes, be_value, bytes_lt, compound_bytes, compound_key, from_compound_key,
    lemma_be_order, lemma_be_round_trip, lemma_be_value_round_trip, lemma_bytes_lt_common_prefix,
    lemma_compound_round_trip, u64_to_be,
};
use crate::id::Id;
use crate::laws::{
    law_catalog_bijection, law_remove_tag_keeps_bijection, law_tag_keeps_symmetry,
    law_untag_keeps_symmetry,
};
use crate::kv::{
    generate_id, has_prefix, id_counter, open_db_at, open_temporary_trees, open_tree, tree_entries,
    tree_get, tree_insert, tree_remove, scanned, tree_scan_prefix_keys, utf8_to_string,
};

pub use crate::id::{ItemID, TagID};

verus! {

/// What can go wrong in a store operation.
#[derive(Debug)]
pub enum StoreError {
    /// The storage engine failed.
    StorageError { source: sled::Error },
    /// The requested key is not stored.
    NotFound { key: u64 },
    /// Stored data breaks the store's own layout or invariants.
    InternalError {},
}

/// A tag of the catalog: its identifier and its name.
#[derive(Debug, PartialEq, Eq)]
pub struct Tag {
    pub id: TagID,
    pub name: String,
}

/// A persistent index between items and named tags.
///
/// Four trees make it up: the catalog, tag id to name and name to tag id, and
/// the index, whose keys are compound keys of a tag and an item: tag first in
/// the forward tree, item first in the reverse tree.
pub struct Store {
    db: sled::Db,
    tag_id_names: sled::Tree,
    tag_name_ids: sled::Tree,
    tag_items: sled::Tree,
    item_tags: sled::Tree,
}

/// The cache the storage engine is opened with, in bytes.
pub const CACHE_CAPACITY: u64 = 10000000;

/// The key under which a tag name is cataloged: its UTF-8 bytes.
pub open spec fn name_key(name: Seq<char>) -> Seq<u8> {
    encode_utf8(name)
}

impl Store {
    /// Tag id (eight bytes) to tag name (UTF-8).
    pub closed spec fn id_names(self) -> Map<Seq<u8>, Seq<u8>> {
        tree_entries(self.tag_id_names)
    }

    /// Tag name (UTF-8) to tag id (eight bytes).
    pub closed spec fn name_ids(self) -> Map<Seq<u8>, Seq<u8>> {
        tree_entries(self.tag_name_ids)
    }

    /// The forward index: keys are tag id, then item id.
    pub closed spec fn forward(self) -> Map<Seq<u8>, Seq<u8>> {
        tree_entries(self.tag_items)
    }

    /// The reverse index: keys are item id, then tag id.
    pub closed spec fn reverse(self) -> Map<Seq<u8>, Seq<u8>> {
        tree_entries(self.item_tags)
    }

    /// No identifier handed out so far is above this bound.
    pub closed spec fn id_floor(self) -> nat {
        id_counter(self.db)
    }

    /// The forward index records that `item` carries `tag`.
    pub open spec fn has_item(self, tag: u64, item: u64) -> bool {
        self.forward().contains_key(compound_bytes(tag, item))
    }

    /// The reverse index records that `item` carries `tag`.
    pub open spec fn has_tag(self, item: u64, tag: u64) -> bool {
        self.reverse().contains_key(compound_bytes(item, tag))
    }

    /// The catalog's entry for `name`, if it holds one of eight bytes.
    pub open spec fn lookup(self, name: Seq<char>) -> Option<u64> {
        if self.name_ids().contains_key(name_key(name)) && self.name_ids()[name_key(name)].len()
            == 8 {
            Some(be_value(self.name_ids()[name_key(name)]))
        } else {
            None
        }
    }

    /// Both catalog trees are the same in `self` and `other`.
    pub open spec fn same_catalog(self, other: Store) -> bool {
        self.id_names() == other.id_names() && self.name_ids() == other.name_ids()
    }

    /// Both index trees are the same in `self` and `other`.
    pub open spec fn same_index(self, other: Store) -> bool {
        self.forward() == other.forward() && self.reverse() == other.reverse()
    }

    /// `next` is `self` with the pair of `item` and `tag` recorded in both index trees.
    pub open spec fn tag_effect(self, next: Store, item: u64, tag: u64) -> bool {
        &&& next.forward() == self.forward().insert(compound_bytes(tag, item), Seq::empty())
        &&& next.reverse() == self.reverse().insert(compound_bytes(item, tag), Seq::empty())
    }

    /// `next` is `self` with the pair of `item` and `tag` gone from both index trees.
    pub open spec fn untag_effect(self, next: Store, item: u64, tag: u64) -> bool {
        &&& next.forward() == self.forward().remove(compound_bytes(tag, item))
        &&& next.reverse() == self.reverse().remove(compound_bytes(item, tag))
    }

    /// The catalog is a bijection: a name maps to an id exactly when that id maps back
    /// to the name.
    pub open spec fn catalog_consistent(self) -> bool {
        forall|n: Seq<u8>, i: Seq<u8>|
            #![trigger self.name_ids().contains_key(n), self.id_names().contains_key(i)]
            (self.name_ids().contains_key(n) && self.name_ids()[n] == i) <==> (
            self.id_names().contains_key(i) && self.id_names()[i] == n)
    }

    /// Every cataloged tag id was handed out by this store's generator.
    pub open spec fn catalog_ids_issued(self) -> bool {
        forall|i: Seq<u8>|
            #[trigger] self.id_names().contains_key(i) ==> i.len() == 8 && be_value(i)
                <= self.id_floor()
    }

    /// The forward entry of a pair exists exactly when its reverse entry does.
    pub open spec fn index_symmetric(self) -> bool {
        forall|t: u64, i: u64| #[trigger] self.has_item(t, i) <==> #[trigger] self.has_tag(i, t)
    }

    /// `next` is `self` after `item` was tagged with the tag named `name`: the name is
    /// cataloged (under a fresh id if it was not before) and the pair is indexed.
    pub open spec fn tag_string_effect(self, next: Store, item: u64, name: Seq<char>) -> bool {
        &&& next.lookup(name) is Some
        &&& self.tag_effect(next, item, next.lookup(name)->0)
        &&& self.lookup(name) is Some ==> {
            &&& next.same_catalog(self)
            &&& next.id_floor() == self.id_floor()
        }
        &&& !self.name_ids().contains_key(name_key(name)) ==> {
            let t = next.lookup(name)->0;
            &&& t == self.id_floor() + 1
            &&& next.id_floor() == t
            &&& next.id_names() == self.id_names().insert(
                be_bytes(t),
                name_key(name),
            )
            &&& next.name_ids() == self.name_ids().insert(
                name_key(name),
                be_bytes(t),
            )
        }
    }

    /// `next` is `self` with the tag `id` gone from the catalog, in both directions.
    pub open spec fn remove_tag_effect(self, next: Store, id: u64) -> bool {
        &&& self.id_names().contains_key(be_bytes(id))
        &&& next.id_names() == self.id_names().remove(be_bytes(id))
        &&& next.name_ids() == self.name_ids().remove(self.id_names()[be_bytes(id)])
    }

    /// The invariants that the operations keep: the catalog is a bijection of issued ids
    /// and the two indexes agree.
    pub open spec fn well_formed(self) -> bool {
        &&& self.catalog_consistent()
        &&& self.catalog_ids_issued()
        &&& self.index_symmetric()
    }

    /// Opens (or creates) the store at `path`.
    pub fn open(path: String) -> (r: Result<Store, StoreError>)
        ensures
            r matches Err(e) ==> e is StorageError,
    {
        match open_db_at(path.as_str(), CACHE_CAPACITY) {
            Ok(db) => Self::from_sled(db),
            Err(e) => Err(StoreError::StorageError { source: e }),
        }
    }

    /// Opens a store that is removed when dropped.
    pub fn open_temporary() -> (r: Result<Store, StoreError>)
        ensures
            r matches Ok(s) ==> {
                &&& s.id_floor() == 0
                &&& s.id_names() == Map::<Seq<u8>, Seq<u8>>::empty()
                &&& s.name_ids() == Map::<Seq<u8>, Seq<u8>>::empty()
                &&& s.forward() == Map::<Seq<u8>, Seq<u8>>::empty()
                &&& s.reverse() == Map::<Seq<u8>, Seq<u8>>::empty()
                &&& s.well_formed()
            },
            r matches Err(e) ==> e is StorageError,
    {
        match open_temporary_trees(
            CACHE_CAPACITY,
            "tag_id_names",
            "tag_name_ids",
            "tag_items",
            "item_tags",
        ) {
            Ok((db, tag_id_names, tag_name_ids, tag_items, item_tags)) => {
                let s = Store { db, tag_id_names, tag_name_ids, tag_items, item_tags };
                assert(s.index_symmetric());
                Ok(s)
            },
            Err(e) => Err(StoreError::StorageError { source: e }),
        }
    }

    fn from_sled(db: sled::Db) -> (r: Result<Store, StoreError>)
        ensures
            r matches Ok(s) ==> s.db == db,
            r matches Err(e) ==> e is StorageError,
    {
        let tag_id_names = match open_tree(&db, "tag_id_names") {
            Ok(t) => t,
            Err(e) => return Err(StoreError::StorageError { source: e }),
        };
        let tag_name_ids = match open_tree(&db, "tag_name_ids") {
            Ok(t) => t,
            Err(e) => return Err(StoreError::StorageError { source: e }),
        };
        let tag_items = match open_tree(&db, "tag_items") {
            Ok(t) => t,
            Err(e) => return Err(StoreError::StorageError { source: e }),
        };
        let item_tags = match open_tree(&db, "item_tags") {
            Ok(t) => t,
            Err(e) => return Err(StoreError::StorageError { source: e }),
        };
        Ok(Store { db, tag_id_names, tag_name_ids, tag_items, item_tags })
    }

    /// Hands out a fresh identifier, one above the last one handed out, so above every
    /// one handed out before.
    pub fn id(&mut self) -> (r: Result<u64, StoreError>)
        ensures
            final(self).same_catalog(*old(self)),
            final(self).same_index(*old(self)),
            final(self).id_floor() >= old(self).id_floor(),
            r matches Ok(v) ==> v == old(self).id_floor() + 1 && final(self).id_floor() == v,
            r matches Err(e) ==> e is StorageError || e is InternalError,
            r matches Err(e) && e is InternalError ==> old(self).id_floor() == u64::MAX,
            old(self).well_formed() ==> final(self).well_formed(),
    {
        let ghost before = *self;
        let r = match generate_id(&mut self.db) {
            Ok(generated) => next_id(generated),
            Err(e) => Err(StoreError::StorageError { source: e }),
        };
        proof {
            if before.well_formed() {
                lemma_catalog_frame(before, *self);
                lemma_index_frame(before, *self);
            }
        }
        r
    }

    /// The id of the tag named `tag_name`, if the catalog holds it.
    pub fn get_tag_id(&self, tag_name: &str) -> (r: Result<Option<TagID>, StoreError>)
        ensures
            r matches Ok(None) ==> !self.name_ids().contains_key(name_key(tag_name@)),
            r matches Ok(Some(t)) ==> self.lookup(tag_name@) == Some(t.0),
            r matches Err(e) ==> e is StorageError || (e is InternalError
                && self.name_ids().contains_key(name_key(tag_name@)) && self.lookup(tag_name@)
                is None),
            self.name_ids().contains_key(name_key(tag_name@)) && self.lookup(tag_name@) is None
                ==> r is Err,
            r matches Ok(Some(t)) ==> (self.catalog_consistent() ==> {
                &&& self.id_names().contains_key(be_bytes(t.0))
                &&& self.id_names()[be_bytes(t.0)] == name_key(tag_name@)
                &&& forall|other: Seq<u8>|
                    #[trigger] self.name_ids().contains_key(other) && self.name_ids()[other]
                        == be_bytes(t.0) ==> other == name_key(tag_name@)
            }),
    {
        proof {
            let k = name_key(tag_name@);
            if self.name_ids().contains_key(k) && self.name_ids()[k].len() == 8 {
                let i = self.name_ids()[k];
                lemma_be_value_round_trip(i);
                if self.catalog_consistent() {
                    assert(self.id_names().contains_key(i) && self.id_names()[i] == k);
                    assert forall|other: Seq<u8>|
                        #[trigger] self.name_ids().contains_key(other) && self.name_ids()[other]
                            == i implies other == k by {
                        assert(self.id_names().contains_key(i));
                    }
                }
            }
        }
        match tree_get(&self.tag_name_ids, tag_name.as_bytes()) {
            Err(e) => Err(StoreError::StorageError { source: e }),
            Ok(None) => Ok(None),
            Ok(Some(v)) => {
                let bytes = must_u8_8(v.as_slice())?;
                Ok(Some(TagID(crate::codec::u64_from_be(&bytes))))
            },
        }
    }

    /// Tags `item` with the tag named `tag_name`, cataloging the name under a fresh id
    /// first when the catalog does not hold it yet.
    pub fn tag_string(&mut self, item: ItemID, tag_name: &str) -> (r: Result<(), StoreError>)
        ensures
            r is Ok ==> old(self).tag_string_effect(*final(self), item.0, tag_name@),
            old(self).well_formed() && r is Ok ==> final(self).well_formed(),
            r matches Err(e) ==> e is StorageError || e is InternalError,
            r matches Err(e) && e is InternalError ==> (old(self).name_ids().contains_key(
                name_key(tag_name@),
            ) && old(self).lookup(tag_name@) is None) || old(self).id_floor() == u64::MAX,
            old(self).name_ids().contains_key(name_key(tag_name@)) && old(self).lookup(tag_name@)
                is None ==> {
                &&& r is Err
                &&& final(self).same_catalog(*old(self))
                &&& final(self).same_index(*old(self))
                &&& final(self).id_floor() == old(self).id_floor()
            },
    {
        let ghost before = *self;
        let tag = match self.get_tag_id(tag_name)? {
            Some(found) => found,
            None => {
                let fresh = TagID(self.id()?);
                self.update_tag(fresh, tag_name)?;
                proof {
                    lemma_be_round_trip(fresh.0);
                }
                fresh
            },
        };
        let r = self.tag(item, tag);
        proof {
            if r is Ok && before.well_formed() {
                law_catalog_bijection(before, *self, item.0, tag_name@);
                law_tag_keeps_symmetry(before, *self, item.0, tag.0);
            }
        }
        r
    }

    /// The ids of the tags that `id` carries, by the reverse index.
    ///
    /// One result per key under `id`'s prefix, in ascending key order: the id the key
    /// carries second, or an internal error where the key is not a compound key. Only a
    /// storage failure fails the whole call.
    pub fn get_item_tag_ids(&self, id: ItemID) -> (r: Result<Vec<Result<TagID, StoreError>>, StoreError>)
        ensures
            r matches Ok(v) ==> exists|ks: Seq<Seq<u8>>|
                scanned(self.reverse(), be_bytes(id.0), ks) && decodes(ks, v@),
            r matches Ok(v) ==> forall|i: int, j: int|
                0 <= i < j < v.len() && v[i] is Ok && v[j] is Ok ==> v[i]->Ok_0.value()
                    < v[j]->Ok_0.value(),
            r matches Ok(v) ==> (forall|x: u64|
                self.has_tag(id.0, x) <==> exists|i: int|
                    0 <= i < v.len() && v[i] is Ok && v[i]->Ok_0.value() == x),
            r matches Ok(v) ==> ((exists|i: int| 0 <= i < v.len() && v[i] is Err)
                <==> has_malformed_key(self.reverse(), id.0)),
            r matches Err(e) ==> e is StorageError,
    {
        let prefix = u64_to_be(id.0);
        let keys = match tree_scan_prefix_keys(&self.item_tags, prefix.as_slice()) {
            Ok(keys) => keys,
            Err(e) => return Err(StoreError::StorageError { source: e }),
        };
        let v = trailing_ids::<ItemID, TagID>(&keys);
        proof {
            let ks = keys@.map_values(|k: Vec<u8>| k@);
            lemma_scan_keys(self.reverse(), id.0, ks);
            lemma_scan_decoded(self.reverse(), id.0, ks, v@);
        }
        Ok(v)
    }

    /// The catalog names tag `t` with valid UTF-8.
    pub open spec fn resolves(self, t: u64) -> bool {
        self.id_names().contains_key(be_bytes(t)) && valid_utf8(self.id_names()[be_bytes(t)])
    }

    /// `r` is what the catalog join gives for the index key `k`.
    pub open spec fn resolved_at(self, k: Seq<u8>, r: Result<Tag, StoreError>) -> bool {
        &&& r is Ok <==> k.len() == 16 && self.resolves(trailing_of(k))
        &&& r is Ok ==> r->Ok_0.id.0 == trailing_of(k) && self.id_names()[be_bytes(r->Ok_0.id.0)]
            == name_key(r->Ok_0.name@)
        &&& r is Err ==> r->Err_0 is InternalError
    }

    /// `v` joins the index keys `keys` with the catalog, position by position.
    pub open spec fn resolved(self, keys: Seq<Seq<u8>>, v: Seq<Result<Tag, StoreError>>) -> bool {
        &&& v.len() == keys.len()
        &&& forall|i: int| 0 <= i < keys.len() ==> self.resolved_at(keys[i], #[trigger] v[i])
    }

    /// The tags that `id` carries, by the reverse index, each joined with its name from
    /// the catalog.
    ///
    /// One result per key under `id`'s prefix, in ascending key order: the tag, or an
    /// internal error where the key is not a compound key or the catalog does not name
    /// its tag with valid UTF-8. Only a storage failure fails the whole call.
    pub fn get_item_tags(&self, id: ItemID) -> (r: Result<Vec<Result<Tag, StoreError>>, StoreError>)
        ensures
            r is Ok ==> exists|ks: Seq<Seq<u8>>|
                scanned(self.reverse(), be_bytes(id.0), ks) && self.resolved(ks, r->Ok_0@),
            r matches Err(e) ==> e is StorageError,
    {
        let ids = self.get_item_tag_ids(id)?;
        let ghost ks = choose|ks: Seq<Seq<u8>>|
            scanned(self.reverse(), be_bytes(id.0), ks) && decodes(ks, ids@);
        let mut out: Vec<Result<Tag, StoreError>> = Vec::new();
        let mut i: usize = 0;
        while i < ids.len()
            invariant
                0 <= i <= ids.len(),
                out.len() == i,
                decodes(ks, ids@),
                scanned(self.reverse(), be_bytes(id.0), ks),
                forall|j: int| 0 <= j < i ==> self.resolved_at(ks[j], #[trigger] out@[j]),
            decreases ids.len() - i,
        {
            let entry = &ids[i];
            let result = match entry {
                Err(_) => Err(StoreError::InternalError {  }),
                Ok(tag_id) => {
                    let tag_id: TagID = *tag_id;
                    let key = u64_to_be(tag_id.0);
                    let found = match tree_get(&self.tag_id_names, key.as_slice()) {
                        Ok(found) => found,
                        Err(e) => return Err(StoreError::StorageError { source: e }),
                    };
                    match found {
                        None => Err(StoreError::InternalError {  }),
                        Some(bytes) => match utf8_to_string(bytes.as_slice()) {
                            None => Err(StoreError::InternalError {  }),
                            Some(name) => {
                                proof {
                                    decode_utf8_encode_utf8(bytes@);
                                }
                                Ok(Tag { id: tag_id, name })
                            },
                        },
                    }
                },
            };
            out.push(result);
            i = i + 1;
        }
        let r: Result<Vec<Result<Tag, StoreError>>, StoreError> = Ok(out);
        assert(scanned(self.reverse(), be_bytes(id.0), ks) && self.resolved(ks, r->Ok_0@));
        r
    }

    /// The ids of the items that carry `id`, by the forward index.
    ///
    /// One result per key under `id`'s prefix, in ascending key order: the id the key
    /// carries second, or an internal error where the key is not a compound key. Only a
    /// storage failure fails the whole call.
    pub fn get_tag_item_ids(&self, id: TagID) -> (r: Result<Vec<Result<ItemID, StoreError>>, StoreError>)
        ensures
            r matches Ok(v) ==> exists|ks: Seq<Seq<u8>>|
                scanned(self.forward(), be_bytes(id.0), ks) && decodes(ks, v@),
            r matches Ok(v) ==> forall|i: int, j: int|
                0 <= i < j < v.len() && v[i] is Ok && v[j] is Ok ==> v[i]->Ok_0.value()
                    < v[j]->Ok_0.value(),
            r matches Ok(v) ==> (forall|x: u64|
                self.has_item(id.0, x) <==> exists|i: int|
                    0 <= i < v.len() && v[i] is Ok && v[i]->Ok_0.value() == x),
            r matches Ok(v) ==> ((exists|i: int| 0 <= i < v.len() && v[i] is Err)
                <==> has_malformed_key(self.forward(), id.0)),
            r matches Err(e) ==> e is StorageError,
    {
        let prefix = u64_to_be(id.0);
        let keys = match tree_scan_prefix_keys(&self.tag_items, prefix.as_slice()) {
            Ok(keys) => keys,
            Err(e) => return Err(StoreError::StorageError { source: e }),
        };
        let v = trailing_ids::<TagID, ItemID>(&keys);
        proof {
            let ks = keys@.map_values(|k: Vec<u8>| k@);
            lemma_scan_keys(self.forward(), id.0, ks);
            lemma_scan_decoded(self.forward(), id.0, ks, v@);
        }
        Ok(v)
    }

    /// Records in both index trees that `item` carries `tag`.
    pub fn tag(&mut self, item: ItemID, tag: TagID) -> (r: Result<(), StoreError>)
        ensures
            final(self).same_catalog(*old(self)),
            final(self).id_floor() == old(self).id_floor(),
            r is Ok ==> old(self).tag_effect(*final(self), item.0, tag.0),
            old(self).well_formed() && r is Ok ==> final(self).well_formed(),
            r matches Err(e) ==> e is StorageError,
            r is Err ==> final(self).reverse() == old(self).reverse() || final(self).forward()
                == old(self).forward().insert(compound_bytes(tag.0, item.0), Seq::empty()),
    {
        let ghost before = *self;
        let empty: [u8; 0] = [];
        assert(empty@ =~= Seq::<u8>::empty());
        let forward_key = compound_key(tag, item);
        let reverse_key = compound_key(item, tag);
        if let Err(e) = tree_insert(&mut self.tag_items, forward_key.as_slice(), empty.as_slice()) {
            return Err(StoreError::StorageError { source: e });
        }
        if let Err(e) = tree_insert(&mut self.item_tags, reverse_key.as_slice(), empty.as_slice()) {
            return Err(StoreError::StorageError { source: e });
        }
        proof {
            if before.well_formed() {
                lemma_catalog_frame(before, *self);
                law_tag_keeps_symmetry(before, *self, item.0, tag.0);
            }
        }
        Ok(())
    }

    /// Removes from both index trees the record that `item` carries `tag`; removing a
    /// pair that is not recorded changes nothing.
    pub fn untag(&mut self, item: ItemID, tag: TagID) -> (r: Result<(), StoreError>)
        ensures
            final(self).same_catalog(*old(self)),
            final(self).id_floor() == old(self).id_floor(),
            r is Ok ==> old(self).untag_effect(*final(self), item.0, tag.0),
            old(self).well_formed() && r is Ok ==> final(self).well_formed(),
            r matches Err(e) ==> e is StorageError,
            r is Err ==> final(self).reverse() == old(self).reverse() || final(self).forward()
                == old(self).forward().remove(compound_bytes(tag.0, item.0)),
    {
        let ghost before = *self;
        let forward_key = compound_key(tag, item);
        let reverse_key = compound_key(item, tag);
        if let Err(e) = tree_remove(&mut self.tag_items, forward_key.as_slice()) {
            return Err(StoreError::StorageError { source: e });
        }
        if let Err(e) = tree_remove(&mut self.item_tags, reverse_key.as_slice()) {
            return Err(StoreError::StorageError { source: e });
        }
        proof {
            if before.well_formed() {
                lemma_catalog_frame(before, *self);
                law_untag_keeps_symmetry(before, *self, item.0, tag.0);
            }
        }
        Ok(())
    }

    /// Catalogs `name` under `id`, in both directions.
    pub fn update_tag(&mut self, id: TagID, name: &str) -> (r: Result<Tag, StoreError>)
        ensures
            final(self).same_index(*old(self)),
            final(self).id_floor() == old(self).id_floor(),
            r matches Ok(t) ==> {
                &&& t.id == id
                &&& t.name@ == name@
                &&& final(self).id_names() == old(self).id_names().insert(
                    be_bytes(id.0),
                    name_key(name@),
                )
                &&& final(self).name_ids() == old(self).name_ids().insert(
                    name_key(name@),
                    be_bytes(id.0),
                )
            },
            r matches Err(e) ==> e is StorageError,
    {
        let tag = Tag { id, name: name.to_owned() };
        let id_bytes = u64_to_be(id.0);
        if let Err(e) = tree_insert(&mut self.tag_id_names, id_bytes.as_slice(), name.as_bytes()) {
            return Err(StoreError::StorageError { source: e });
        }
        if let Err(e) = tree_insert(&mut self.tag_name_ids, name.as_bytes(), id_bytes.as_slice()) {
            return Err(StoreError::StorageError { source: e });
        }
        Ok(tag)
    }

    /// Removes the tag `id` from the catalog, in both directions. The index is left as it
    /// is: pairs that name the tag stay, without a catalog entry.
    pub fn remove_tag(&mut self, id: TagID) -> (r: Result<(), StoreError>)
        ensures
            final(self).same_index(*old(self)),
            final(self).id_floor() == old(self).id_floor(),
            r is Ok ==> old(self).remove_tag_effect(*final(self), id.0),
            old(self).well_formed() && r is Ok ==> final(self).well_formed(),
            r matches Err(e) ==> e is StorageError || (e matches StoreError::NotFound { key } && key
                == id.0 && !old(self).id_names().contains_key(be_bytes(id.0)) && final(
                self).same_catalog(*old(self))),
            !old(self).id_names().contains_key(be_bytes(id.0)) ==> r is Err,
    {
        let ghost before = *self;
        let id_bytes = u64_to_be(id.0);
        match tree_remove(&mut self.tag_id_names, id_bytes.as_slice()) {
            Err(e) => Err(StoreError::StorageError { source: e }),
            Ok(None) => {
                assert(self.id_names() =~= old(self).id_names());
                Err(StoreError::NotFound { key: id.0 })
            },
            Ok(Some(old_name)) => {
                if let Err(e) = tree_remove(&mut self.tag_name_ids, old_name.as_slice()) {
                    return Err(StoreError::StorageError { source: e });
                }
                proof {
                    if before.well_formed() {
                        law_remove_tag_keeps_bijection(before, *self, id.0);
                        lemma_index_frame(before, *self);
                    }
                }
                Ok(())
            },
        }
    }
}

proof fn lemma_catalog_frame(before: Store, after: Store)
    requires
        before.catalog_consistent(),
        before.catalog_ids_issued(),
        after.same_catalog(before),
        after.id_floor() >= before.id_floor(),
    ensures
        after.catalog_consistent(),
        after.catalog_ids_issued(),
{
    assert forall|n: Seq<u8>, i: Seq<u8>|
        #![trigger after.name_ids().contains_key(n), after.id_names().contains_key(i)]
        (after.name_ids().contains_key(n) && after.name_ids()[n] == i) <==> (
        after.id_names().contains_key(i) && after.id_names()[i] == n) by {
        assert(before.name_ids().contains_key(n) && before.name_ids()[n] == i <==> (
        before.id_names().contains_key(i) && before.id_names()[i] == n));
    }
    assert forall|i: Seq<u8>| #[trigger] after.id_names().contains_key(i) implies i.len() == 8
        && be_value(i) <= after.id_floor() by {
        assert(before.id_names().contains_key(i));
    }
}

proof fn lemma_index_frame(before: Store, after: Store)
    requires
        before.index_symmetric(),
        after.same_index(before),
    ensures
        after.index_symmetric(),
{
    assert forall|t: u64, i: u64| #[trigger] after.has_item(t, i) <==> #[trigger] after.has_tag(i, t) by {
        assert(before.has_item(t, i) <==> before.has_tag(i, t));
    }
}

/// The index tree `entries` holds a key under the prefix `lead` that is not a compound key.
pub open spec fn has_malformed_key(entries: Map<Seq<u8>, Seq<u8>>, lead: u64) -> bool {
    exists|k: Seq<u8>|
        #[trigger] entries.contains_key(k) && has_prefix(k, be_bytes(lead)) && k.len() != 16
}

proof fn lemma_scan_keys(entries: Map<Seq<u8>, Seq<u8>>, lead: u64, keys: Seq<Seq<u8>>)
    requires
        scanned(entries, be_bytes(lead), keys),
    ensures
        has_malformed_key(entries, lead) <==> exists|i: int|
            0 <= i < keys.len() && #[trigger] keys[i].len() != 16,
{
    if has_malformed_key(entries, lead) {
        let k = choose|k: Seq<u8>|
            #[trigger] entries.contains_key(k) && has_prefix(k, be_bytes(lead)) && k.len() != 16;
        let i = choose|i: int| 0 <= i < keys.len() && #[trigger] keys[i] == k;
        assert(keys[i].len() != 16);
    }
    if exists|i: int| 0 <= i < keys.len() && #[trigger] keys[i].len() != 16 {
        let i = choose|i: int| 0 <= i < keys.len() && #[trigger] keys[i].len() != 16;
        assert(entries.contains_key(keys[i]));
    }
}

/// The identifier that a compound key carries second.
pub open spec fn trailing_of(k: Seq<u8>) -> u64 {
    be_value(k.subrange(8, 16))
}

/// `v` decodes `keys` position by position: a sixteen-byte key gives the identifier it
/// carries second, any other key an internal error.
pub open spec fn decodes<T: Id>(keys: Seq<Seq<u8>>, v: Seq<Result<T, StoreError>>) -> bool {
    &&& v.len() == keys.len()
    &&& forall|i: int| 0 <= i < keys.len() ==> (#[trigger] v[i] is Ok <==> keys[i].len() == 16)
    &&& forall|i: int|
        0 <= i < keys.len() && #[trigger] v[i] is Ok ==> v[i]->Ok_0.value() == trailing_of(keys[i])
    &&& forall|i: int| 0 <= i < keys.len() && #[trigger] v[i] is Err ==> v[i]->Err_0 is InternalError
}

proof fn lemma_scan_decoded<T: Id>(
    entries: Map<Seq<u8>, Seq<u8>>,
    lead: u64,
    keys: Seq<Seq<u8>>,
    v: Seq<Result<T, StoreError>>,
)
    requires
        scanned(entries, be_bytes(lead), keys),
        decodes(keys, v),
    ensures
        forall|i: int, j: int|
            0 <= i < j < v.len() && v[i] is Ok && v[j] is Ok ==> v[i]->Ok_0.value()
                < v[j]->Ok_0.value(),
        forall|x: u64|
            entries.contains_key(compound_bytes(lead, x)) <==> exists|i: int|
                0 <= i < v.len() && v[i] is Ok && v[i]->Ok_0.value() == x,
        (exists|i: int| 0 <= i < v.len() && v[i] is Err) <==> (exists|i: int|
            0 <= i < keys.len() && #[trigger] keys[i].len() != 16),
{
    let p = be_bytes(lead);
    assert forall|i: int| 0 <= i < keys.len() && #[trigger] keys[i].len() == 16 implies keys[i]
        == p + keys[i].subrange(8, 16) by {
        assert(has_prefix(keys[i], p));
        assert(keys[i] =~= p + keys[i].subrange(8, 16));
    }
    assert forall|i: int, j: int|
        0 <= i < j < v.len() && v[i] is Ok && v[j] is Ok implies v[i]->Ok_0.value()
            < v[j]->Ok_0.value() by {
        assert(keys[i].len() == 16 && keys[j].len() == 16);
        assert(bytes_lt(keys[i], keys[j]));
        lemma_bytes_lt_common_prefix(p, keys[i].subrange(8, 16), keys[j].subrange(8, 16));
        lemma_be_order(keys[i].subrange(8, 16), keys[j].subrange(8, 16));
    }
    assert forall|x: u64|
        entries.contains_key(compound_bytes(lead, x)) implies exists|i: int|
            0 <= i < v.len() && v[i] is Ok && v[i]->Ok_0.value() == x by {
        let k = compound_bytes(lead, x);
        assert(k.subrange(0, 8) =~= p);
        assert(has_prefix(k, p));
        let i = choose|i: int| 0 <= i < keys.len() && #[trigger] keys[i] == k;
        lemma_compound_round_trip(lead, x);
        assert(v[i] is Ok);
    }
    assert forall|x: u64|
        (exists|i: int| 0 <= i < v.len() && v[i] is Ok && v[i]->Ok_0.value() == x) implies entries.contains_key(
        compound_bytes(lead, x),
    ) by {
        let i = choose|i: int| 0 <= i < v.len() && v[i] is Ok && v[i]->Ok_0.value() == x;
        let tail = keys[i].subrange(8, 16);
        assert(keys[i].len() == 16);
        assert(keys[i] == p + tail);
        lemma_be_value_round_trip(tail);
        assert(compound_bytes(lead, x) == keys[i]);
    }
    if exists|i: int| 0 <= i < v.len() && v[i] is Err {
        let i = choose|i: int| 0 <= i < v.len() && v[i] is Err;
        assert(keys[i].len() != 16);
    }
    if exists|i: int| 0 <= i < keys.len() && #[trigger] keys[i].len() != 16 {
        let i = choose|i: int| 0 <= i < keys.len() && #[trigger] keys[i].len() != 16;
        assert(v[i] is Err);
    }
}

/// Reads the second identifier of each compound key, in order; a key that is not
/// sixteen bytes long gives an internal error in its place.
pub fn trailing_ids<L: Id, T: Id>(keys: &Vec<Vec<u8>>) -> (r: Vec<Result<T, StoreError>>)
    ensures
        decodes(keys@.map_values(|k: Vec<u8>| k@), r@),
{
    let ghost ks = keys@.map_values(|k: Vec<u8>| k@);
    let mut out: Vec<Result<T, StoreError>> = Vec::new();
    let mut i: usize = 0;
    while i < keys.len()
        invariant
            0 <= i <= keys.len(),
            out.len() == i,
            ks == keys@.map_values(|k: Vec<u8>| k@),
            decodes(ks.subrange(0, i as int), out@),
        decreases keys.len() - i,
    {
        let decoded = match must_u8_16(keys[i].as_slice()) {
            Ok(key) => {
                let (_lead, trailing): (L, T) = from_compound_key(&key);
                Ok(trailing)
            },
            Err(e) => Err(e),
        };
        out.push(decoded);
        i = i + 1;
        assert(ks.subrange(0, i as int) =~= ks.subrange(0, i - 1) + seq![ks[i - 1]]);
    }
    assert(ks.subrange(0, keys.len() as int) =~= ks);
    out
}

/// The identifier handed out for the generator's value `generated`: one above it, so that
/// no identifier is zero; a generator at the top of its range is an internal error.
pub fn next_id(generated: u64) -> (r: Result<u64, StoreError>)
    ensures
        generated < u64::MAX ==> (r matches Ok(v) && v == generated + 1),
        generated == u64::MAX ==> (r matches Err(e) && e is InternalError),
{
    if generated == u64::MAX {
        Err(StoreError::InternalError {  })
    } else {
        Ok(generated + 1)
    }
}

/// Reads exactly sixteen bytes.
pub fn must_u8_16(slice: &[u8]) -> (r: Result<[u8; 16], StoreError>)
    ensures
        slice@.len() == 16 <==> r is Ok,
        r matches Ok(a) ==> a@ == slice@,
        r matches Err(e) ==> e is InternalError,
{
    if slice.len() != 16 {
        return Err(StoreError::InternalError {  });
    }
    let mut a: [u8; 16] = [0u8; 16];
    let mut i: usize = 0;
    while i < 16
        invariant
            0 <= i <= 16,
            slice@.len() == 16,
            a@.len() == 16,
            forall|j: int| 0 <= j < i ==> a@[j] == slice@[j],
        decreases 16 - i,
    {
        a[i] = slice[i];
        i = i + 1;
    }
    assert(a@ =~= slice@);
    Ok(a)
}

/// Reads exactly eight bytes.
pub fn must_u8_8(slice: &[u8]) -> (r: Result<[u8; 8], StoreError>)
    ensures
        slice@.len() == 8 <==> r is Ok,
        r matches Ok(a) ==> a@ == slice@,
        r matches Err(e) ==> e is InternalError,
{
    if slice.len() != 8 {
        return Err(StoreError::InternalError {  });
    }
    let a: [u8; 8] = [
        slice[0],
        slice[1],
        slice[2],
        slice[3],
        slice[4],
        slice[5],
        slice[6],
        slice[7],
    ];
    assert(a@ =~= slice@);
    Ok(a)
}

} // verus!
