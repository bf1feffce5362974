//! The hash index from grid coordinates to the slots of loaded chunks.

use indexmap::IndexMap;
use vstd::prelude::*;

verus! {

/// `indexmap::IndexMap`, a hash map that keeps its entries in the order of
/// insertion. Nothing of what a map holds is visible but through `entries`.
#[verifier::external_type_specification]
#[verifier::external_body]
#[verifier::reject_recursive_types(K)]
#[verifier::reject_recursive_types(V)]
#[verifier::reject_recursive_types(S)]
pub struct ExIndexMap<K, V, S>(IndexMap<K, V, S>);

/// What an index holds: for each coordinate it knows, the slot stored
/// under it.
pub uninterp spec fn entries(index: IndexMap<(i32, i32), usize>) -> Map<(i32, i32), usize>;

/// The entries of an index that knows no coordinate.
pub open spec fn no_entries() -> Map<(i32, i32), usize> {
    Map::empty()
}

/// Calls `IndexMap::new`, which makes a map without entries.
#[verifier::external_body]
pub(crate) fn index_new() -> (index: IndexMap<(i32, i32), usize>)
    ensures
        entries(index) == no_entries(),
{
    IndexMap::new()
}

/// Calls `IndexMap::contains_key`, which tells whether the map has an entry
/// under `key`.
#[verifier::external_body]
pub(crate) fn index_contains(index: &IndexMap<(i32, i32), usize>, key: (i32, i32)) -> (b: bool)
    ensures
        b == entries(*index).contains_key(key),
{
    index.contains_key(&key)
}

/// Calls `IndexMap::get`, which hands out the value stored under `key`, or
/// `None` where the map has no entry under it.
#[verifier::external_body]
pub(crate) fn index_get(index: &IndexMap<(i32, i32), usize>, key: (i32, i32)) -> (slot: Option<
    usize,
>)
    ensures
        slot == (if entries(*index).contains_key(key) {
            Some(entries(*index)[key])
        } else {
            None
        }),
{
    index.get(&key).copied()
}

/// Calls `IndexMap::insert`, which stores `slot` under `key`: as a new entry
/// where the map had none under `key`, else in place of the value that was
/// there. The other entries stay.
#[verifier::external_body]
pub(crate) fn index_insert(index: &mut IndexMap<(i32, i32), usize>, key: (i32, i32), slot: usize)
    ensures
        entries(*final(index)) == entries(*old(index)).insert(key, slot),
{
    index.insert(key, slot);
}

/// Calls `IndexMap::clear`, which removes every entry.
#[verifier::external_body]
pub(crate) fn index_clear(index: &mut IndexMap<(i32, i32), usize>)
    ensures
        entries(*final(index)) == no_entries(),
{
    index.clear();
}

} // verus!
