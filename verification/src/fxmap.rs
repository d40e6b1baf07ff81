//! The hash maps and sets of `rustc_hash` (std's `HashMap`/`HashSet` with the
//! deterministic `FxBuildHasher`), keyed by `u64`.
//!
//! vstd specifies std's `HashMap` and `HashSet` for every hash builder, but
//! only under the premise that the builder hands out hashers that agree on
//! equal input. `FxBuildHasher` builds `FxHasher::default()` every time, a
//! hasher with a fixed zero seed, so that premise holds of it; the wrappers
//! below state the resulting map and set behavior for `u64` keys.
use vstd::prelude::*;
use rustc_hash::{FxBuildHasher, FxHashMap, FxHashSet};

verus! {

/// The hash builder of `rustc_hash`: deterministic and unseeded.
#[verifier::external_type_specification]
#[verifier::external_body]
pub struct ExFxBuildHasher(FxBuildHasher);

/// `FxHashMap::default()`: an empty map.
#[verifier::external_body]
pub fn fx_map_new<V>() -> (r: FxHashMap<u64, V>)
    ensures
        r@.dom() == Set::<u64>::empty(),
{
    FxHashMap::default()
}

/// `HashMap::insert` with `FxBuildHasher` and `u64` keys: binds `k` to `v`
/// and hands back the value that `k` had before, if any.
#[verifier::external_body]
pub fn fx_map_insert<V>(m: &mut FxHashMap<u64, V>, k: u64, v: V) -> (r: Option<V>)
    ensures
        final(m)@ == old(m)@.insert(k, v),
        r == (if old(m)@.contains_key(k) { Some(old(m)@[k]) } else { None::<V> }),
{
    m.insert(k, v)
}

/// `HashMap::remove` with `FxBuildHasher` and `u64` keys: unbinds `k` and
/// hands back the value it had, if any.
#[verifier::external_body]
pub fn fx_map_remove<V>(m: &mut FxHashMap<u64, V>, k: u64) -> (r: Option<V>)
    ensures
        final(m)@ == old(m)@.remove(k),
        r == (if old(m)@.contains_key(k) { Some(old(m)@[k]) } else { None::<V> }),
{
    m.remove(&k)
}

/// `HashMap::get` with `FxBuildHasher` and `u64` keys, the value copied out.
#[verifier::external_body]
pub fn fx_map_get<V: Copy>(m: &FxHashMap<u64, V>, k: u64) -> (r: Option<V>)
    ensures
        r == (if m@.contains_key(k) { Some(m@[k]) } else { None::<V> }),
{
    m.get(&k).copied()
}

/// `HashMap::contains_key` with `FxBuildHasher` and `u64` keys.
#[verifier::external_body]
pub fn fx_map_contains<V>(m: &FxHashMap<u64, V>, k: u64) -> (r: bool)
    ensures
        r == m@.contains_key(k),
{
    m.contains_key(&k)
}

/// `FxHashSet::default()`: an empty set.
#[verifier::external_body]
pub fn fx_set_new() -> (r: FxHashSet<u64>)
    ensures
        r@ == Set::<u64>::empty(),
{
    FxHashSet::default()
}

/// `HashSet::insert` with `FxBuildHasher`: adds `k`; true iff it was absent.
#[verifier::external_body]
pub fn fx_set_insert(s: &mut FxHashSet<u64>, k: u64) -> (r: bool)
    ensures
        final(s)@ == old(s)@.insert(k),
        r == !old(s)@.contains(k),
{
    s.insert(k)
}

/// `HashSet::remove` with `FxBuildHasher`: drops `k`; true iff it was present.
#[verifier::external_body]
pub fn fx_set_remove(s: &mut FxHashSet<u64>, k: u64) -> (r: bool)
    ensures
        final(s)@ == old(s)@.remove(k),
        r == old(s)@.contains(k),
{
    s.remove(&k)
}

/// `HashSet::contains` with `FxBuildHasher`.
#[verifier::external_body]
pub fn fx_set_contains(s: &FxHashSet<u64>, k: u64) -> (r: bool)
    ensures
        r == s@.contains(k),
{
    s.contains(&k)
}

} // verus!
