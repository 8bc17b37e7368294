//! Trusted boundary around the hash containers the library stores its
//! adjacency data in: `rustc_hash`'s `FxHashSet` and `FxHashMap`, which are
//! `std::collections::HashSet` / `HashMap` keyed with the `FxBuildHasher`
//! build hasher. Each wrapper holds one container call, and its contract
//! states what the standard library documents of that call, over the
//! containers' vstd views.

use vstd::prelude::*;
use rustc_hash::FxBuildHasher;
use rustc_hash::FxHashMap;
use rustc_hash::FxHashSet;

verus! {

/// `rustc_hash::FxBuildHasher` builds the Fx hasher; the library never
/// reads anything of a value of it.
#[verifier::external_type_specification]
#[verifier::external_body]
pub struct ExFxBuildHasher(FxBuildHasher);

/// Relies on `HashSet::default`: a freshly built set holds nothing.
#[verifier::external_body]
pub(crate) fn node_set_new() -> (r: FxHashSet<u64>)
    ensures
        r@ == Set::<u64>::empty(),
{
    FxHashSet::default()
}

/// Relies on `HashSet::insert`: afterwards the set holds `v` beside
/// everything it already held.
#[verifier::external_body]
pub(crate) fn node_set_insert(s: &mut FxHashSet<u64>, v: u64)
    ensures
        final(s)@ == old(s)@.insert(v),
{
    s.insert(v);
}

/// Relies on `HashSet::contains`: whether the set holds `v`.
#[verifier::external_body]
pub(crate) fn node_set_contains(s: &FxHashSet<u64>, v: u64) -> (r: bool)
    ensures
        r == s@.contains(v),
{
    s.contains(&v)
}

/// Relies on `HashSet::iter`: it yields every element exactly once, in an
/// order this contract leaves open.
#[verifier::external_body]
pub(crate) fn node_set_to_vec(s: &FxHashSet<u64>) -> (r: Vec<u64>)
    ensures
        r@.to_set() == s@,
        r@.no_duplicates(),
{
    s.iter().copied().collect()
}

/// Relies on `HashMap::default`: a freshly built map holds nothing.
#[verifier::external_body]
pub(crate) fn edge_map_new() -> (r: FxHashMap<u64, FxHashSet<u64>>)
    ensures
        r@.dom() == Set::<u64>::empty(),
{
    FxHashMap::default()
}

/// Relies on `HashMap::get`: the value under `k`, if the key is present.
#[verifier::external_body]
pub(crate) fn edge_map_get<'a>(m: &'a FxHashMap<u64, FxHashSet<u64>>, k: u64) -> (r: Option<
    &'a FxHashSet<u64>,
>)
    ensures
        match r {
            Some(s) => m@.dom().contains(k) && *s == m@[k],
            None => !m@.dom().contains(k),
        },
{
    m.get(&k)
}

/// Relies on `HashMap::insert`: afterwards `k` maps to `v` and every other
/// key maps to what it mapped to before.
#[verifier::external_body]
pub(crate) fn edge_map_insert(m: &mut FxHashMap<u64, FxHashSet<u64>>, k: u64, v: FxHashSet<u64>)
    ensures
        final(m)@ == old(m)@.insert(k, v),
{
    m.insert(k, v);
}

/// Relies on `HashMap::remove`: it hands back the value under `k`, if any,
/// and afterwards the map no longer holds the key.
#[verifier::external_body]
pub(crate) fn edge_map_remove(m: &mut FxHashMap<u64, FxHashSet<u64>>, k: u64) -> (r: Option<
    FxHashSet<u64>,
>)
    ensures
        match r {
            Some(s) => old(m)@.dom().contains(k) && s == old(m)@[k] && final(m)@ == old(m)@.remove(k),
            None => !old(m)@.dom().contains(k) && final(m)@ == old(m)@,
        },
{
    m.remove(&k)
}

} // verus!
