//! Hash maps from triples of machine words to machine words.
//!
//! The node table's index and the operation caches are all `FxHashMap`s of one
//! type. Verus does not look inside such a map: [`map_entries`] names what a
//! map holds, and the functions of this module, whose contracts are taken on
//! trust, say what the calls on the map do to that content.

use rustc_hash::FxBuildHasher;
use rustc_hash::FxHashMap;
use vstd::prelude::*;

verus! {

/// `rustc_hash::FxBuildHasher`, the hasher that an `FxHashMap` is built with.
/// Nothing is known of it here; it only occurs in the type of the maps.
#[verifier::external_type_specification]
#[verifier::external_body]
pub struct ExFxBuildHasher(FxBuildHasher);

/// The key of a map: a node's `(value, down, right)`, or the operands of a
/// cached operation, padded with zeroes.
pub type Key = (usize, usize, usize);

/// A hash map from triples to words.
pub type NodeMap = FxHashMap<(usize, usize, usize), usize>;

/// The entries that a map holds.
pub uninterp spec fn map_entries(m: &NodeMap) -> Map<Key, usize>;

/// `FxHashMap::default`: a new map holds no entry.
#[verifier::external_body]
pub(crate) fn map_new() -> (m: NodeMap)
    ensures
        map_entries(&m) =~= Map::empty(),
{
    FxHashMap::default()
}

/// `HashMap::get` on an `FxHashMap`: the value stored under `key`, if the map
/// holds the key.
#[verifier::external_body]
pub(crate) fn map_get(m: &NodeMap, key: Key) -> (r: Option<usize>)
    ensures
        r == (if map_entries(m).contains_key(key) {
            Some(map_entries(m)[key])
        } else {
            None
        }),
{
    m.get(&key).copied()
}

/// `HashMap::insert` on an `FxHashMap`: afterwards the map holds `value` under
/// `key`, in place of what it held there, and all its other entries as before.
#[verifier::external_body]
pub(crate) fn map_insert(m: &mut NodeMap, key: Key, value: usize)
    ensures
        map_entries(final(m)) == map_entries(old(m)).insert(key, value),
{
    m.insert(key, value);
}

/// `HashMap::remove` on an `FxHashMap`: afterwards the map holds nothing under
/// `key`, and all its other entries as before.
#[verifier::external_body]
pub(crate) fn map_remove(m: &mut NodeMap, key: Key)
    ensures
        map_entries(final(m)) == map_entries(old(m)).remove(key),
{
    m.remove(&key);
}

/// `HashMap::clear` on an `FxHashMap`: afterwards the map holds no entry.
#[verifier::external_body]
pub(crate) fn map_clear(m: &mut NodeMap)
    ensures
        map_entries(final(m)) =~= Map::empty(),
{
    m.clear();
}

/// `HashMap::len` on an `FxHashMap`: the number of entries.
#[verifier::external_body]
pub(crate) fn map_len(m: &NodeMap) -> (r: usize)
    ensures
        r == map_entries(m).len(),
{
    m.len()
}

} // verus!
