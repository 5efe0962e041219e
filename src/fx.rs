//! The state directory and the goal sets are rustc-hash's maps and sets:
//! std's hash collections with the deterministic Fx hasher.
use rustc_hash::FxBuildHasher;
use rustc_hash::FxHashMap;
use rustc_hash::FxHashSet;
use vstd::prelude::*;

verus! {

#[verifier::external_type_specification]
#[verifier::external_body]
pub struct ExFxBuildHasher(FxBuildHasher);

/// Relies on `HashMap::insert` on an `FxHashMap`: `k` maps to `v` afterwards,
/// and nothing else changes.
#[verifier::external_body]
pub(crate) fn fx_map_insert(m: &mut FxHashMap<u64, usize>, k: u64, v: usize)
    ensures
        final(m)@ == old(m)@.insert(k, v),
{
    m.insert(k, v);
}

/// Relies on `HashMap::get` on an `FxHashMap`: the value under `k`, if any.
#[verifier::external_body]
pub(crate) fn fx_map_get(m: &FxHashMap<u64, usize>, k: u64) -> (r: Option<usize>)
    ensures
        r == (if m@.contains_key(k) {
            Some(m@[k])
        } else {
            None
        }),
{
    m.get(&k).copied()
}

/// Relies on `HashMap::len` on an `FxHashMap`: the number of keys.
#[verifier::external_body]
pub(crate) fn fx_map_len(m: &FxHashMap<u64, usize>) -> (r: usize)
    ensures
        r == m@.dom().len(),
{
    m.len()
}

/// Relies on `HashSet::insert` on an `FxHashSet`: `k` is held afterwards,
/// and nothing else changes.
#[verifier::external_body]
pub(crate) fn fx_set_insert(s: &mut FxHashSet<u64>, k: u64)
    ensures
        final(s)@ == old(s)@.insert(k),
{
    s.insert(k);
}

/// Relies on `HashSet::contains` on an `FxHashSet`: whether `k` is held.
#[verifier::external_body]
pub(crate) fn fx_set_contains(s: &FxHashSet<u64>, k: u64) -> (r: bool)
    ensures
        r == s@.contains(k),
{
    s.contains(&k)
}

/// Relies on `HashSet::remove` on an `FxHashSet`: `k` is no longer held, and
/// nothing else changes.
#[verifier::external_body]
pub(crate) fn fx_set_remove(s: &mut FxHashSet<u64>, k: u64)
    ensures
        final(s)@ == old(s)@.remove(k),
{
    s.remove(&k);
}

} // verus!
