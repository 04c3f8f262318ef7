//! The two `BTreeMap` methods that the key index uses and that vstd leaves
//! unspecified, each behind a wrapper.
use std::collections::BTreeMap;
use vstd::laws_cmp::obeys_cmp;
use vstd::prelude::*;

verus! {

/// Relies on `BTreeMap::remove_entry`: it removes the entry whose key compares
/// equal to `key` and hands back the stored key together with its value, or
/// leaves the map as it was and returns `None` when there is no such entry.
#[verifier::external_body]
pub(crate) fn take_entry<K: Ord, V>(map: &mut BTreeMap<K, V>, key: &K) -> (result: Option<(K, V)>)
    ensures
        obeys_cmp::<K>() ==> match result {
            Some((k, v)) => {
                &&& old(map)@.contains_key(*key)
                &&& k == *key
                &&& v == old(map)@[*key]
                &&& final(map)@ == old(map)@.remove(*key)
            },
            None => {
                &&& !old(map)@.contains_key(*key)
                &&& final(map)@ == old(map)@
            },
        },
{
    map.remove_entry(key)
}

/// Relies on `BTreeMap::pop_first`: it removes one entry of a non-empty map
/// (the one with the least key) and returns it, and returns `None` on an empty
/// map.
#[verifier::external_body]
pub(crate) fn take_first<K: Ord, V>(map: &mut BTreeMap<K, V>) -> (result: Option<(K, V)>)
    ensures
        obeys_cmp::<K>() ==> match result {
            Some((k, v)) => {
                &&& old(map)@.contains_key(k)
                &&& old(map)@[k] == v
                &&& final(map)@ == old(map)@.remove(k)
            },
            None => {
                &&& old(map)@ == Map::<K, V>::empty()
                &&& final(map)@ == old(map)@
            },
        },
{
    map.pop_first()
}

} // verus!
