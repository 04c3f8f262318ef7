//! The operation set that both storage engines offer.
//!
//! Every operation here takes the map by exclusive reference: insertion through
//! a shared handle is the same operation run under a lock held by the caller.
use crate::teardown::{errors_of, failures_of, finalizes_all, well_shaped, TeardownFailure};
use std::convert::Infallible;
use vstd::prelude::*;

verus! {

/// `new` is `old` with `key` placed at `at`, an address that no live entry of
/// `old` occupies.
pub open spec fn placed_at<K, A>(old: Map<K, A>, new: Map<K, A>, key: K, at: A) -> bool {
    &&& new == old.insert(key, at)
    &&& forall|k: K| #[trigger] old.contains_key(k) ==> old[k] != at
}

/// Lookup, insertion if absent, removal and teardown over a map from `K` to `V`.
///
/// Every value sits at an address that stays the same for as long as its entry
/// lives: no operation on one entry moves another.
pub trait UnpinnedPineMap<K: Ord, V>: Sized {
    /// Where a value sits.
    type Address;

    /// The map's internal invariant.
    spec fn wf(&self) -> bool;

    /// The live entries.
    spec fn entries(&self) -> Map<K, V>;

    /// The address of each live entry's value.
    spec fn addresses(&self) -> Map<K, Self::Address>;

    /// The address that the next inserted value will occupy.
    spec fn reserved(&self) -> Self::Address;

    /// The value stored under `key`, if any.
    fn get(&self, key: &K) -> (result: Option<&V>)
        requires
            self.wf(),
        ensures
            match result {
                Some(v) => self.entries().contains_key(*key) && *v == self.entries()[*key],
                None => !self.entries().contains_key(*key),
            },
    ;

    /// The value stored under `key`, if any, for modification in place; the
    /// entry keeps its address and whatever value is left behind.
    fn get_mut(&mut self, key: &K) -> (result: Option<&mut V>)
        requires
            old(self).wf(),
        ensures
            final(self).wf(),
            final(self).addresses() == old(self).addresses(),
            match result {
                Some(v) => {
                    &&& old(self).entries().contains_key(*key)
                    &&& *v == old(self).entries()[*key]
                    &&& final(self).entries() == old(self).entries().insert(*key, *final(v))
                },
                None => {
                    &&& !old(self).entries().contains_key(*key)
                    &&& final(self).entries() == old(self).entries()
                },
            },
    ;

    /// Inserts the value that `value_factory` makes for `key`, unless `key` is
    /// present already, in which case `key` and the factory come back unused.
    /// An error of the factory comes back as the outer error and leaves the map
    /// as it was.
    fn try_insert_with<F: FnOnce(&K) -> Result<V, E>, E>(&mut self, key: K, value_factory: F) -> (result: Result<Result<&V, (K, F)>, E>)
        requires
            old(self).wf(),
            !old(self).entries().contains_key(key) ==> value_factory.requires((&key,)),
        ensures
            final(self).wf(),
            old(self).entries().contains_key(key) ==> {
                &&& final(self).entries() == old(self).entries()
                &&& final(self).addresses() == old(self).addresses()
                &&& match result {
                    Ok(Err((k, f))) => k == key && f == value_factory,
                    _ => false,
                }
            },
            !old(self).entries().contains_key(key) ==> match result {
                Ok(Ok(v)) => {
                    &&& value_factory.ensures((&key,), Ok(*v))
                    &&& final(self).entries() == old(self).entries().insert(key, *v)
                    &&& placed_at(old(self).addresses(), final(self).addresses(), key, old(self).reserved())
                },
                Ok(Err(_)) => false,
                Err(e) => {
                    &&& value_factory.ensures((&key,), Err(e))
                    &&& final(self).entries() == old(self).entries()
                    &&& final(self).addresses() == old(self).addresses()
                },
            },
    ;

    /// Inserts the value that `value_factory` makes for `key`, unless `key` is
    /// present already, in which case `key` and the factory come back unused.
    fn insert_with<F: FnOnce(&K) -> V>(&mut self, key: K, value_factory: F) -> (result: Result<&V, (K, F)>)
        requires
            old(self).wf(),
            !old(self).entries().contains_key(key) ==> value_factory.requires((&key,)),
        ensures
            final(self).wf(),
            old(self).entries().contains_key(key) ==> {
                &&& final(self).entries() == old(self).entries()
                &&& final(self).addresses() == old(self).addresses()
                &&& match result {
                    Err((k, f)) => k == key && f == value_factory,
                    _ => false,
                }
            },
            !old(self).entries().contains_key(key) ==> match result {
                Ok(v) => {
                    &&& value_factory.ensures((&key,), *v)
                    &&& final(self).entries() == old(self).entries().insert(key, *v)
                    &&& placed_at(old(self).addresses(), final(self).addresses(), key, old(self).reserved())
                },
                Err(_) => false,
            },
    {
        if self.get(&key).is_some() {
            return Err((key, value_factory));
        }
        let wrapped = move |k: &K| -> (r: Result<V, Infallible>)
            requires
                value_factory.requires((k,)),
            ensures
                match r {
                    Ok(v) => value_factory.ensures((k,), v),
                    Err(_) => false,
                },
            { Ok(value_factory(k)) };
        match self.try_insert_with(key, wrapped) {
            Ok(Ok(v)) => Ok(v),
            Ok(Err(_)) => unreached(),
            Err(_) => unreached(),
        }
    }

    /// Inserts `value` under `key`, unless `key` is present already, in which
    /// case both come back.
    fn insert(&mut self, key: K, value: V) -> (result: Result<&V, (K, V)>)
        requires
            old(self).wf(),
        ensures
            final(self).wf(),
            old(self).entries().contains_key(key) ==> {
                &&& final(self).entries() == old(self).entries()
                &&& final(self).addresses() == old(self).addresses()
                &&& result == Err::<&V, (K, V)>((key, value))
            },
            !old(self).entries().contains_key(key) ==> {
                &&& result == Ok::<&V, (K, V)>(&value)
                &&& final(self).entries() == old(self).entries().insert(key, value)
                &&& placed_at(old(self).addresses(), final(self).addresses(), key, old(self).reserved())
            },
    {
        if self.get(&key).is_some() {
            return Err((key, value));
        }
        let ghost expected = value;
        let make = move |_k: &K| -> (r: V)
            ensures
                r == expected,
            { value };
        match self.insert_with(key, make) {
            Ok(v) => Ok(v),
            Err(_) => unreached(),
        }
    }

    /// Drops every entry.
    fn clear(&mut self)
        requires
            old(self).wf(),
        ensures
            final(self).wf(),
            final(self).entries() == Map::<K, V>::empty(),
            final(self).addresses() == Map::<K, Self::Address>::empty(),
    ;

    /// Hands the key of every entry to `finalize_key` and its value to
    /// `finalize_value`, whatever they returned for the earlier ones, and
    /// leaves the map empty. The failures come back together: nothing for none,
    /// the error itself for one, all of them for more.
    fn clear_with<FK: Fn(K) -> Result<(), E>, FV: Fn(V) -> Result<(), E>, E>(&mut self, finalize_key: FK, finalize_value: FV) -> (result: Result<(), TeardownFailure<E>>)
        requires
            old(self).wf(),
            forall|k: K| #[trigger] old(self).entries().contains_key(k) ==> {
                &&& finalize_key.requires((k,))
                &&& finalize_value.requires((old(self).entries()[k],))
            },
        ensures
            final(self).wf(),
            final(self).entries() == Map::<K, V>::empty(),
            final(self).addresses() == Map::<K, Self::Address>::empty(),
            well_shaped(result),
            exists|order: Seq<K>, outcomes: Seq<Result<(), E>>| {
                &&& finalizes_all(old(self).entries(), finalize_key, finalize_value, order, outcomes)
                &&& failures_of(result) == errors_of(outcomes)
            },
    ;

    /// Removes the entry of `key` and returns it.
    fn remove_pair(&mut self, key: &K) -> (result: Option<(K, V)>)
        requires
            old(self).wf(),
        ensures
            final(self).wf(),
            final(self).entries() == old(self).entries().remove(*key),
            final(self).addresses() == old(self).addresses().remove(*key),
            match result {
                Some((k, v)) => {
                    &&& old(self).entries().contains_key(*key)
                    &&& k == *key
                    &&& v == old(self).entries()[*key]
                },
                None => !old(self).entries().contains_key(*key),
            },
    ;

    /// Removes the entry of `key` and returns its value.
    fn remove_value(&mut self, key: &K) -> (result: Option<V>)
        requires
            old(self).wf(),
        ensures
            final(self).wf(),
            final(self).entries() == old(self).entries().remove(*key),
            final(self).addresses() == old(self).addresses().remove(*key),
            match result {
                Some(v) => old(self).entries().contains_key(*key) && v == old(self).entries()[*key],
                None => !old(self).entries().contains_key(*key),
            },
    {
        match self.remove_pair(key) {
            Some((_, v)) => Some(v),
            None => None,
        }
    }

    /// Removes the entry of `key`, drops its value and returns its key.
    fn remove_key(&mut self, key: &K) -> (result: Option<K>)
        requires
            old(self).wf(),
        ensures
            final(self).wf(),
            final(self).entries() == old(self).entries().remove(*key),
            final(self).addresses() == old(self).addresses().remove(*key),
            match result {
                Some(k) => old(self).entries().contains_key(*key) && k == *key,
                None => !old(self).entries().contains_key(*key),
            },
    {
        match self.remove_pair(key) {
            Some((k, _)) => Some(k),
            None => None,
        }
    }

    /// Removes the entry of `key`, if there is one, and says whether there was.
    fn drop_entry(&mut self, key: &K) -> (removed: bool)
        requires
            old(self).wf(),
        ensures
            final(self).wf(),
            final(self).entries() == old(self).entries().remove(*key),
            final(self).addresses() == old(self).addresses().remove(*key),
            removed == old(self).entries().contains_key(*key),
    {
        self.remove_key(key).is_some()
    }
}

/// Construction in place: the value is made knowing the address that the map
/// has reserved for it.
pub trait UnpinnedPineMapEmplace<K: Ord, V>: UnpinnedPineMap<K, V> {
    /// Makes the value of `key` with `value_factory`, which receives the key and
    /// the reserved address, unless `key` is present already, in which case
    /// `key` and the factory come back unused. An error of the factory comes
    /// back as the outer error, and the map is then exactly as it was.
    fn try_emplace_with<F: FnOnce(&K, Self::Address) -> Result<V, E>, E>(&mut self, key: K, value_factory: F) -> (result: Result<Result<&V, (K, F)>, E>)
        requires
            old(self).wf(),
            !old(self).entries().contains_key(key) ==> value_factory.requires((&key, old(self).reserved())),
        ensures
            final(self).wf(),
            old(self).entries().contains_key(key) ==> {
                &&& *final(self) == *old(self)
                &&& match result {
                    Ok(Err((k, f))) => k == key && f == value_factory,
                    _ => false,
                }
            },
            !old(self).entries().contains_key(key) ==> match result {
                Ok(Ok(v)) => {
                    &&& value_factory.ensures((&key, old(self).reserved()), Ok(*v))
                    &&& final(self).entries() == old(self).entries().insert(key, *v)
                    &&& placed_at(old(self).addresses(), final(self).addresses(), key, old(self).reserved())
                },
                Ok(Err(_)) => false,
                Err(e) => {
                    &&& value_factory.ensures((&key, old(self).reserved()), Err(e))
                    &&& *final(self) == *old(self)
                },
            },
    ;

    /// Makes the value of `key` with `value_factory`, which receives the key and
    /// the reserved address, unless `key` is present already, in which case
    /// `key` and the factory come back unused.
    fn emplace_with<F: FnOnce(&K, Self::Address) -> V>(&mut self, key: K, value_factory: F) -> (result: Result<&V, (K, F)>)
        requires
            old(self).wf(),
            !old(self).entries().contains_key(key) ==> value_factory.requires((&key, old(self).reserved())),
        ensures
            final(self).wf(),
            old(self).entries().contains_key(key) ==> {
                &&& *final(self) == *old(self)
                &&& match result {
                    Err((k, f)) => k == key && f == value_factory,
                    _ => false,
                }
            },
            !old(self).entries().contains_key(key) ==> match result {
                Ok(v) => {
                    &&& value_factory.ensures((&key, old(self).reserved()), *v)
                    &&& final(self).entries() == old(self).entries().insert(key, *v)
                    &&& placed_at(old(self).addresses(), final(self).addresses(), key, old(self).reserved())
                },
                Err(_) => false,
            },
    {
        if self.get(&key).is_some() {
            return Err((key, value_factory));
        }
        let wrapped = move |k: &K, a: Self::Address| -> (r: Result<V, Infallible>)
            requires
                value_factory.requires((k, a)),
            ensures
                match r {
                    Ok(v) => value_factory.ensures((k, a), v),
                    Err(_) => false,
                },
            { Ok(value_factory(k, a)) };
        match self.try_emplace_with(key, wrapped) {
            Ok(Ok(v)) => Ok(v),
            Ok(Err(_)) => unreached(),
            Err(_) => unreached(),
        }
    }
}

} // verus!
