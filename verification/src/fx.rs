//! The hash maps and sets of `rustc_hash` that the MIR is kept in, and what this library relies
//! on of their operations.
//!
//! `FxHashMap` and `FxHashSet` are std's `HashMap` and `HashSet` with the deterministic
//! `FxBuildHasher`. Their contents are read through std's model of them (`m@`, `s@`). Each
//! function below makes one call and states, in terms of that model, what std documents the call
//! to do. The keys are [DefinitionId]s and `u32`s, whose `Hash` and `Eq` are derived from a
//! single `u32`, so equal keys hash alike.
use crate::mir::values::DefinitionId;
use rustc_hash::{FxBuildHasher, FxHashMap, FxHashSet};
use vstd::prelude::*;

verus! {

/// The hasher builder of `rustc_hash`'s maps and sets.
#[verifier::external_type_specification]
#[verifier::external_body]
pub struct ExFxBuildHasher(FxBuildHasher);

/// A map keyed by definition ids.
pub type DefinitionMap<V> = FxHashMap<DefinitionId, V>;

/// `FxHashMap::default`: a new map, empty.
#[verifier::external_body]
pub(crate) fn fx_map_new<V>() -> (r: DefinitionMap<V>)
    ensures
        r@.dom().is_empty(),
{
    FxHashMap::default()
}

/// `HashMap::get`: the value stored under `k`, if any.
#[verifier::external_body]
pub(crate) fn fx_map_get<'a, V>(m: &'a DefinitionMap<V>, k: DefinitionId) -> (r: Option<&'a V>)
    ensures
        m@.contains_key(k) ==> r == Some(&m@[k]),
        !m@.contains_key(k) ==> r is None,
{
    m.get(&k)
}

/// `HashMap::contains_key`: whether `k` has a value.
#[verifier::external_body]
pub(crate) fn fx_map_contains_key<V>(m: &DefinitionMap<V>, k: DefinitionId) -> (r: bool)
    ensures
        r == m@.contains_key(k),
{
    m.contains_key(&k)
}

/// `HashMap::insert`: stores `v` under `k` and hands back the value it replaced.
#[verifier::external_body]
pub(crate) fn fx_map_insert<V>(m: &mut DefinitionMap<V>, k: DefinitionId, v: V) -> (r: Option<V>)
    ensures
        final(m)@ == old(m)@.insert(k, v),
        old(m)@.contains_key(k) ==> r == Some(old(m)@[k]),
        !old(m)@.contains_key(k) ==> r is None,
{
    m.insert(k, v)
}

/// `HashMap::remove`: takes the value stored under `k` out of the map.
#[verifier::external_body]
pub(crate) fn fx_map_remove<V>(m: &mut DefinitionMap<V>, k: DefinitionId) -> (r: Option<V>)
    ensures
        final(m)@ == old(m)@.remove(k),
        old(m)@.contains_key(k) ==> r == Some(old(m)@[k]),
        !old(m)@.contains_key(k) ==> r is None,
{
    m.remove(&k)
}

/// `HashMap::keys`, collected: every key once, in the map's own (unspecified) order.
#[verifier::external_body]
pub(crate) fn fx_map_keys<V>(m: &DefinitionMap<V>) -> (r: Vec<DefinitionId>)
    ensures
        r@.no_duplicates(),
        r@.to_set() == m@.dom(),
{
    m.keys().copied().collect()
}

/// `FxHashSet::default`: a new set, empty.
#[verifier::external_body]
pub(crate) fn fx_set_new() -> (r: FxHashSet<u32>)
    ensures
        r@ == Set::<u32>::empty(),
{
    FxHashSet::default()
}

/// `HashSet::insert`: adds `k`, and tells whether it was absent before.
#[verifier::external_body]
pub(crate) fn fx_set_insert(s: &mut FxHashSet<u32>, k: u32) -> (r: bool)
    ensures
        final(s)@ == old(s)@.insert(k),
        r == !old(s)@.contains(k),
{
    s.insert(k)
}

/// `HashSet::contains`.
#[verifier::external_body]
pub(crate) fn fx_set_contains(s: &FxHashSet<u32>, k: u32) -> (r: bool)
    ensures
        r == s@.contains(k),
{
    s.contains(&k)
}

/// `FxHashSet::default` for a set of definition ids.
#[verifier::external_body]
pub(crate) fn fx_id_set_new() -> (r: FxHashSet<DefinitionId>)
    ensures
        r@ == Set::<DefinitionId>::empty(),
{
    FxHashSet::default()
}

/// `HashSet::insert` for a set of definition ids.
#[verifier::external_body]
pub(crate) fn fx_id_set_insert(s: &mut FxHashSet<DefinitionId>, k: DefinitionId) -> (r: bool)
    ensures
        final(s)@ == old(s)@.insert(k),
        r == !old(s)@.contains(k),
{
    s.insert(k)
}

/// `HashSet::contains` for a set of definition ids.
#[verifier::external_body]
pub(crate) fn fx_id_set_contains(s: &FxHashSet<DefinitionId>, k: DefinitionId) -> (r: bool)
    ensures
        r == s@.contains(k),
{
    s.contains(&k)
}

} // verus!
