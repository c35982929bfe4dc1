//! Hash sets and maps keyed by an index, hashed with the Fx hasher.
use fxhash::{FxHashMap, FxHashSet};
use vstd::prelude::*;

verus! {

/// `fxhash::FxHasher`, carried through as an opaque value.
#[verifier::external_type_specification]
#[verifier::external_body]
pub struct ExFxHasher(fxhash::FxHasher);

/// `std::hash::BuildHasherDefault`, carried through as an opaque value.
#[verifier::external_type_specification]
#[verifier::external_body]
#[verifier::reject_recursive_types(H)]
pub struct ExBuildHasherDefault<H>(std::hash::BuildHasherDefault<H>);

/// `HashSet::insert` on an `FxHashSet`: `key` is in the set afterwards, the
/// other members are as before, and the result tells whether `key` was new.
#[verifier::external_body]
pub(crate) fn index_set_insert(set: &mut FxHashSet<usize>, key: usize) -> (fresh: bool)
    ensures
        final(set)@ == old(set)@.insert(key),
        fresh == !old(set)@.contains(key),
{
    set.insert(key)
}

/// `HashSet::contains` on an `FxHashSet`: whether `key` is a member.
#[verifier::external_body]
pub(crate) fn index_set_contains(set: &FxHashSet<usize>, key: usize) -> (found: bool)
    ensures
        found == set@.contains(key),
{
    set.contains(&key)
}

/// The integer types that serve as keys: their equality and their hash go by
/// their value.
pub trait IndexKey: Copy + core::hash::Hash + Eq {

}

impl IndexKey for usize {

}

impl IndexKey for u64 {

}

/// `HashMap::insert` on an `FxHashMap`: `key` maps to `value` afterwards, the
/// other entries are as before, and the result is the value that `key` had.
#[verifier::external_body]
pub(crate) fn index_map_insert<K: IndexKey, V>(map: &mut FxHashMap<K, V>, key: K, value: V) -> (prev:
    Option<V>)
    ensures
        final(map)@ == old(map)@.insert(key, value),
        prev == (if old(map)@.contains_key(key) {
            Some(old(map)@[key])
        } else {
            None
        }),
{
    map.insert(key, value)
}

/// `HashMap::remove` on an `FxHashMap`: `key` has no entry afterwards, the
/// other entries are as before, and the result is the value that `key` had.
#[verifier::external_body]
pub(crate) fn index_map_remove<K: IndexKey, V>(map: &mut FxHashMap<K, V>, key: K) -> (prev: Option<
    V,
>)
    ensures
        final(map)@ == old(map)@.remove(key),
        prev == (if old(map)@.contains_key(key) {
            Some(old(map)@[key])
        } else {
            None
        }),
{
    map.remove(&key)
}

/// `HashMap::get` on an `FxHashMap`: the value that `key` has, if any.
#[verifier::external_body]
pub(crate) fn index_map_get<K: IndexKey, V>(map: &FxHashMap<K, V>, key: K) -> (found: Option<&V>)
    ensures
        found == (if map@.contains_key(key) {
            Some(&map@[key])
        } else {
            None
        }),
{
    map.get(&key)
}

/// `HashMap::drain` on an `FxHashMap`, collected: the map holds nothing
/// afterwards, and the result lists each entry that it held once, in an order
/// that is left open.
#[verifier::external_body]
pub(crate) fn index_map_drain<K: IndexKey, V>(map: &mut FxHashMap<K, V>) -> (entries: Vec<(K, V)>)
    ensures
        final(map)@.dom() == Set::<K>::empty(),
        forall|i: int, j: int|
            0 <= i < j < entries@.len() ==> entries@[i].0 != entries@[j].0,
        forall|i: int|
            0 <= i < entries@.len() ==> old(map)@.contains_key(#[trigger] entries@[i].0) && old(
                map,
            )@[entries@[i].0] == entries@[i].1,
        forall|key: K|
            old(map)@.contains_key(key) ==> exists|i: int|
                0 <= i < entries@.len() && #[trigger] entries@[i].0 == key,
{
    map.drain().collect()
}

} // verus!
