//! The deterministic Fx-hashed maps the mesher keys its simplices by.
//!
//! `rustc_hash::FxHashMap` is std's `HashMap` with the unseeded Fx hasher, so
//! its behaviour as a map is std's: the items below state that behaviour over
//! the map's view for key types whose equality is value equality.
use rustc_hash::{FxBuildHasher, FxHashMap, FxHashSet};
use std::hash::Hash;
use vstd::prelude::*;

verus! {

/// The hasher builder of `FxHashMap` (`rustc_hash::FxBuildHasher`), a
/// stateless unit struct.
#[verifier::external_type_specification]
#[verifier::external_body]
pub struct ExFxBuildHasher(FxBuildHasher);

/// Key types whose `Eq` is structural equality of their values and whose
/// `Hash` is derived from those same values: simplex keys made of integers.
pub trait SimplexKey: Eq + Hash + Copy {

}

impl SimplexKey for [u32; 2] {

}

impl SimplexKey for [usize; 2] {

}

impl SimplexKey for [usize; 3] {

}

impl SimplexKey for usize {

}

impl SimplexKey for u32 {

}

/// `HashMap::get`, copied out: the value stored under `k`, if any.
#[verifier::external_body]
pub(crate) fn fx_get<K: SimplexKey, V: Copy>(m: &FxHashMap<K, V>, k: &K) -> (r: Option<V>)
    ensures
        r == (if m@.contains_key(*k) {
            Some(m@[*k])
        } else {
            None
        }),
{
    m.get(k).copied()
}

/// `HashMap::get`, cloned out, for a map of index lists: a copy of the
/// list stored under `k`, if any.
#[verifier::external_body]
pub(crate) fn fx_get_list<K: SimplexKey>(m: &FxHashMap<K, Vec<u32>>, k: &K) -> (r: Option<Vec<u32>>)
    ensures
        match r {
            Some(v) => m@.contains_key(*k) && v@ == m@[*k]@,
            None => !m@.contains_key(*k),
        },
{
    m.get(k).cloned()
}

/// `HashMap::insert`: stores `v` under `k`, replacing any previous value.
#[verifier::external_body]
pub(crate) fn fx_insert<K: SimplexKey, V>(m: &mut FxHashMap<K, V>, k: K, v: V)
    ensures
        final(m)@ == old(m)@.insert(k, v),
{
    m.insert(k, v);
}

/// `HashMap::remove`: drops the entry under `k`, if any.
#[verifier::external_body]
pub(crate) fn fx_remove<K: SimplexKey, V>(m: &mut FxHashMap<K, V>, k: &K)
    ensures
        final(m)@ == old(m)@.remove(*k),
{
    m.remove(k);
}

/// `HashMap::keys`, copied into a vector: every key exactly once, in the
/// map's iteration order (which this item leaves unstated).
#[verifier::external_body]
pub(crate) fn fx_keys<K: SimplexKey, V>(m: &FxHashMap<K, V>) -> (r: Vec<K>)
    ensures
        r@.no_duplicates(),
        r@.to_set() == m@.dom(),
{
    m.keys().copied().collect()
}

/// `HashSet::iter`, copied into a vector: every element exactly once, in
/// the set's iteration order (which this item leaves unstated).
#[verifier::external_body]
pub(crate) fn fx_set_items<K: SimplexKey>(set: &FxHashSet<K>) -> (r: Vec<K>)
    ensures
        r@.no_duplicates(),
        r@.to_set() == set@,
{
    set.iter().copied().collect()
}

/// `HashMap::iter().next()`, copied out: some entry of the map, `None`
/// exactly when the map is empty. Which entry comes first is the map's
/// iteration order, which this item leaves unstated.
#[verifier::external_body]
pub(crate) fn fx_any_entry<K: SimplexKey, V: Copy>(m: &FxHashMap<K, V>) -> (r: Option<(K, V)>)
    ensures
        match r {
            Some((k, v)) => m@.contains_key(k) && m@[k] == v,
            None => m@.dom().is_empty(),
        },
{
    match m.iter().next() {
        Some((k, v)) => Some((*k, *v)),
        None => None,
    }
}

/// `HashSet::contains`: whether `k` is in the set.
#[verifier::external_body]
pub(crate) fn fx_set_contains<K: SimplexKey>(set: &FxHashSet<K>, k: &K) -> (r: bool)
    ensures
        r == set@.contains(*k),
{
    set.contains(k)
}

/// `HashSet::insert`: adds `k` to the set.
#[verifier::external_body]
pub(crate) fn fx_set_insert<K: SimplexKey>(set: &mut FxHashSet<K>, k: K)
    ensures
        final(set)@ == old(set)@.insert(k),
{
    set.insert(k);
}

/// A fresh, empty set.
pub(crate) fn fx_set_empty<K: SimplexKey>() -> (set: FxHashSet<K>)
    ensures
        set@ == Set::<K>::empty(),
{
    FxHashSet::default()
}

/// A fresh, empty map.
pub(crate) fn fx_empty<K: SimplexKey, V>() -> (m: FxHashMap<K, V>)
    ensures
        m@ == Map::<K, V>::empty(),
{
    FxHashMap::default()
}

} // verus!
