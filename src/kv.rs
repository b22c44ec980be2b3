use vstd::prelude::*;
use vstd::utf8::{decode_utf8, valid_utf8};
use crate::codec::bytes_lt;

verus! {

#[verifier::external_type_specification]
#[verifier::external_body]
pub struct ExDb(sled::Db);

#[verifier::external_type_specification]
#[verifier::external_body]
pub struct ExTree(sled::Tree);

#[verifier::external_type_specification]
#[verifier::external_body]
pub struct ExSledError(sled::Error);

/// The entries, key to value, that a tree holds.
pub uninterp spec fn tree_entries(t: sled::Tree) -> Map<Seq<u8>, Seq<u8>>;

/// The next value the database's identifier generator will hand out, at least.
pub uninterp spec fn id_counter(db: sled::Db) -> nat;

/// Whether `k` starts with `p`.
pub open spec fn has_prefix(k: Seq<u8>, p: Seq<u8>) -> bool {
    p.len() <= k.len() && k.subrange(0, p.len() as int) == p
}

/// `keys` lists, in ascending order and each once, the keys of `entries` under `prefix`.
pub open spec fn scanned(entries: Map<Seq<u8>, Seq<u8>>, prefix: Seq<u8>, keys: Seq<Seq<u8>>) -> bool {
    &&& forall|i: int|
        0 <= i < keys.len() ==> entries.contains_key(#[trigger] keys[i]) && has_prefix(
            keys[i],
            prefix,
        )
    &&& forall|k: Seq<u8>|
        entries.contains_key(k) && has_prefix(k, prefix) ==> exists|i: int|
            0 <= i < keys.len() && #[trigger] keys[i] == k
    &&& forall|i: int, j: int| 0 <= i < j < keys.len() ==> bytes_lt(#[trigger] keys[i], #[trigger] keys[j])
}

/// Relies on sled::Config::{new, path, cache_capacity, open}: opens (or creates) the
/// database stored at `path`.
#[verifier::external_body]
pub(crate) fn open_db_at(path: &str, cache_capacity: u64) -> (r: Result<sled::Db, sled::Error>) {
    sled::Config::new().path(path).cache_capacity(cache_capacity).open()
}

/// Relies on sled::Config::{new, temporary, cache_capacity, open} and sled::Db::open_tree:
/// opens a fresh database under a new temporary path (removed when dropped) and the four
/// named trees in it. A database that was not recovered from disk starts its identifier
/// generator at zero, and every tree of it starts empty.
#[verifier::external_body]
pub(crate) fn open_temporary_trees(
    cache_capacity: u64,
    name0: &str,
    name1: &str,
    name2: &str,
    name3: &str,
) -> (r: Result<
    (sled::Db, sled::Tree, sled::Tree, sled::Tree, sled::Tree),
    sled::Error,
>)
    ensures
        r matches Ok((db, t0, t1, t2, t3)) ==> {
            &&& id_counter(db) == 0
            &&& tree_entries(t0) == Map::<Seq<u8>, Seq<u8>>::empty()
            &&& tree_entries(t1) == Map::<Seq<u8>, Seq<u8>>::empty()
            &&& tree_entries(t2) == Map::<Seq<u8>, Seq<u8>>::empty()
            &&& tree_entries(t3) == Map::<Seq<u8>, Seq<u8>>::empty()
        },
{
    let db = sled::Config::new().temporary(true).cache_capacity(cache_capacity).open()?;
    let t0 = db.open_tree(name0)?;
    let t1 = db.open_tree(name1)?;
    let t2 = db.open_tree(name2)?;
    let t3 = db.open_tree(name3)?;
    Ok((db, t0, t1, t2, t3))
}

/// Relies on sled::Db::open_tree: opens (or creates) the named tree.
#[verifier::external_body]
pub(crate) fn open_tree(db: &sled::Db, name: &str) -> (r: Result<sled::Tree, sled::Error>) {
    db.open_tree(name)
}

/// Relies on sled::Db::generate_id: the generator hands out its counter and advances it
/// by one; it advances even when persisting the advance fails.
#[verifier::external_body]
pub(crate) fn generate_id(db: &mut sled::Db) -> (r: Result<u64, sled::Error>)
    ensures
        id_counter(*final(db)) >= id_counter(*old(db)),
        r matches Ok(v) ==> v == id_counter(*old(db)) && id_counter(*final(db)) == v + 1,
{
    db.generate_id()
}

/// Relies on sled::Tree::get: the value stored under `key`, if any.
#[verifier::external_body]
pub(crate) fn tree_get(t: &sled::Tree, key: &[u8]) -> (r: Result<Option<Vec<u8>>, sled::Error>)
    ensures
        r matches Ok(Some(v)) ==> tree_entries(*t).contains_key(key@) && tree_entries(*t)[key@]
            == v@,
        r matches Ok(None) ==> !tree_entries(*t).contains_key(key@),
{
    t.get(key).map(|found| found.map(|v| v.to_vec()))
}

/// Relies on sled::Tree::insert: stores `value` under `key`, replacing what was there.
#[verifier::external_body]
pub(crate) fn tree_insert(t: &mut sled::Tree, key: &[u8], value: &[u8]) -> (r: Result<(), sled::Error>)
    ensures
        r is Ok ==> tree_entries(*final(t)) == tree_entries(*old(t)).insert(key@, value@),
{
    t.insert(key, value).map(|_| ())
}

/// Relies on sled::Tree::remove: deletes `key`, handing back the value it had.
#[verifier::external_body]
pub(crate) fn tree_remove(t: &mut sled::Tree, key: &[u8]) -> (r: Result<Option<Vec<u8>>, sled::Error>)
    ensures
        r is Ok ==> tree_entries(*final(t)) == tree_entries(*old(t)).remove(key@),
        r matches Ok(Some(v)) ==> tree_entries(*old(t)).contains_key(key@)
            && tree_entries(*old(t))[key@] == v@,
        r matches Ok(None) ==> !tree_entries(*old(t)).contains_key(key@),
{
    t.remove(key).map(|found| found.map(|v| v.to_vec()))
}

/// Relies on sled::Tree::scan_prefix and sled::Iter::keys: every key that starts with
/// `prefix`, each once, in ascending byte-lexicographic order.
#[verifier::external_body]
pub(crate) fn tree_scan_prefix_keys(t: &sled::Tree, prefix: &[u8]) -> (r: Result<Vec<Vec<u8>>, sled::Error>)
    ensures
        r matches Ok(keys) ==> scanned(tree_entries(*t), prefix@, keys@.map_values(|k: Vec<u8>| k@)),
{
    t.scan_prefix(prefix).keys().map(|k| k.map(|k| k.to_vec())).collect()
}

/// Relies on std::str::from_utf8: decodes the bytes when they are valid UTF-8.
#[verifier::external_body]
pub(crate) fn utf8_to_string(b: &[u8]) -> (r: Option<String>)
    ensures
        r is Some <==> valid_utf8(b@),
        r matches Some(s) ==> s@ == decode_utf8(b@),
{
    std::str::from_utf8(b).ok().map(|s| s.to_string())
}

} // verus!
