//! The in-memory index of the store: a `DashMap` from each live key to the
//! offset of its latest record in the log.
use dashmap::DashMap;
use vstd::prelude::*;

verus! {

#[verifier::external_type_specification]
#[verifier::external_body]
#[verifier::reject_recursive_types(K)]
#[verifier::reject_recursive_types(V)]
#[verifier::reject_recursive_types(S)]
pub struct ExDashMap<K, V, S>(DashMap<K, V, S>);

/// The entries that a `DashMap` from keys to log offsets holds, each key by
/// its characters.
pub uninterp spec fn index_entries(index: DashMap<String, u64>) -> Map<Seq<char>, u64>;

/// Calls `DashMap::new`: an index with no entries.
#[verifier::external_body]
pub(crate) fn index_new() -> (index: DashMap<String, u64>)
    ensures
        index_entries(index) =~= Map::empty(),
{
    DashMap::new()
}

/// Calls `DashMap::insert`: the key now maps to `pos`, the other entries stay,
/// and the previous offset of the key is returned.
#[verifier::external_body]
pub(crate) fn index_insert(index: &mut DashMap<String, u64>, key: String, pos: u64) -> (prev: Option<u64>)
    ensures
        prev == index_entries(*old(index)).get(key@),
        index_entries(*final(index)) == index_entries(*old(index)).insert(key@, pos),
{
    index.insert(key, pos)
}

/// Calls `DashMap::remove`: the key leaves the index, the other entries stay,
/// and its offset is returned if it was there.
#[verifier::external_body]
pub(crate) fn index_remove(index: &mut DashMap<String, u64>, key: &str) -> (prev: Option<u64>)
    ensures
        prev == index_entries(*old(index)).get(key@),
        index_entries(*final(index)) == index_entries(*old(index)).remove(key@),
{
    match index.remove(key) {
        Some((_, pos)) => Some(pos),
        None => None,
    }
}

/// Calls `DashMap::get` and copies out the offset stored for the key.
#[verifier::external_body]
pub(crate) fn index_get(index: &DashMap<String, u64>, key: &str) -> (pos: Option<u64>)
    ensures
        pos == index_entries(*index).get(key@),
{
    match index.get(key) {
        Some(entry) => Some(*entry.value()),
        None => None,
    }
}

/// Calls `DashMap::clear`: no entries are left.
#[verifier::external_body]
pub(crate) fn index_clear(index: &mut DashMap<String, u64>)
    ensures
        index_entries(*final(index)) =~= Map::empty(),
{
    index.clear()
}

} // verus!
