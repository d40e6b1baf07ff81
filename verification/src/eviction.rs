//! The interface that every DRAM eviction policy offers, with the laws that
//! all of them obey.
use vstd::prelude::*;

verus! {

/// A bound on the number of entries a policy keeps, so that slot indices and
/// the arithmetic on queue lengths fit in `usize`.
pub open spec fn room_limit() -> int {
    usize::MAX as int / 4
}

/// A DRAM cache that decides which keys stay resident within a byte budget.
///
/// `resident` is the set of keys in DRAM, `bytes` the bytes the policy
/// accounts for them and `capacity` its budget. `settled` holds of a policy
/// that has only been driven by `access`, `touch` and `admit_entry` since it was
/// built: then its accounting is exact and within budget. `remove` leaves
/// stale bookkeeping behind in some policies, which `settled` rules out.
pub trait EvictionPolicy: Sized {
    /// The abstract state of the policy: what decides its answers.
    type Model;

    spec fn model(&self) -> Self::Model;

    /// The keys resident in a state.
    spec fn model_resident(m: Self::Model) -> Set<u64>;

    /// The state after `touch(key, t)`.
    spec fn model_touch(m: Self::Model, key: u64, t: u64) -> Self::Model;

    /// The bytes a state accounts for.
    spec fn model_bytes(m: Self::Model) -> int;

    /// The state after `remove(key)`.
    spec fn model_remove(m: Self::Model, key: u64) -> Self::Model;

    /// Whether a state takes `key` in on `admit_entry(key, value_size, _)`.
    spec fn model_admits(m: Self::Model, key: u64, value_size: u64) -> bool;

    /// The state after `admit_entry(key, value_size, t)`, and the keys it
    /// evicts, in order.
    spec fn model_admit(m: Self::Model, key: u64, value_size: u64, t: u64) -> (Self::Model, Seq<u64>);

    spec fn wf(&self) -> bool;

    spec fn resident(&self) -> Set<u64>;

    spec fn bytes(&self) -> int;

    spec fn capacity(&self) -> int;

    spec fn settled(&self) -> bool;

    /// Whether `admit_entry(key, value_size, _)` takes the key in (before any
    /// eviction that follows).
    spec fn admits(&self, key: u64, value_size: u64) -> bool;

    /// The times the policy recorded are at most `t`.
    spec fn clock_ok(&self, t: u64) -> bool;

    /// `access(key, value_size, _)` runs to its end without overflow.
    spec fn access_ok(&self, key: u64, value_size: u64) -> bool;

    /// `remove(key)` runs to its end without overflow.
    spec fn remove_ok(&self, key: u64) -> bool;

    /// The number of entries the policy's tables hold.
    spec fn footprint(&self) -> int;

    /// The policy takes in every key that is not resident and fits a
    /// nonzero budget: it has no filter of its own.
    spec fn takes_all(&self) -> bool;

    proof fn lemma_wf(&self)
        requires
            self.wf(),
        ensures
            self.resident() == Self::model_resident(self.model()),
            self.bytes() == Self::model_bytes(self.model()),
            self.resident().finite(),
            0 <= self.capacity() <= u64::MAX,
            0 <= self.bytes(),
            self.resident().len() <= self.footprint(),
            self.settled() ==> self.bytes() <= self.capacity(),
    ;

    proof fn lemma_admits(&self, key: u64, value_size: u64)
        requires
            self.wf(),
        ensures
            self.admits(key, value_size) ==> 0 < self.capacity() && value_size <= self.capacity()
                && !self.resident().contains(key),
            self.admits(key, value_size) == Self::model_admits(self.model(), key, value_size),
    ;

    proof fn lemma_takes_all(&self, key: u64, value_size: u64)
        requires
            self.wf(),
            self.takes_all(),
            0 < self.capacity(),
            value_size <= self.capacity(),
            !self.resident().contains(key),
        ensures
            self.admits(key, value_size),
    ;

    proof fn lemma_clock(&self, t1: u64, t2: u64)
        requires
            self.wf(),
            self.clock_ok(t1),
            t1 <= t2,
        ensures
            self.clock_ok(t2),
    ;

    proof fn lemma_access_ok(&self, key: u64, value_size: u64)
        requires
            self.wf(),
            self.settled(),
            self.admits(key, value_size) ==> self.bytes() + value_size <= u64::MAX,
            self.footprint() < room_limit(),
        ensures
            self.access_ok(key, value_size),
    ;

    /// Serves a request: true iff `key` was resident (a hit). On a miss the
    /// key is taken in when the policy admits it, and keys are evicted until
    /// the budget is met (as the policy decides).
    fn access(&mut self, key: u64, value_size: u64, t: u64) -> (hit: bool)
        requires
            old(self).wf(),
            old(self).clock_ok(t),
            old(self).access_ok(key, value_size),
        ensures
            final(self).wf(),
            final(self).clock_ok(t),
            final(self).capacity() == old(self).capacity(),
            hit == old(self).resident().contains(key),
            hit || !old(self).admits(key, value_size) ==> final(self).resident() == old(
                self,
            ).resident(),
            !hit && old(self).admits(key, value_size) ==> final(self).resident().subset_of(
                old(self).resident().insert(key),
            ),
            old(self).settled() ==> final(self).settled(),
            final(self).footprint() <= old(self).footprint() + 1,
            final(self).takes_all() == old(self).takes_all(),
    ;

    /// Whether `key` is resident; changes nothing.
    fn contains(&self, key: u64) -> (r: bool)
        requires
            self.wf(),
        ensures
            r == self.resident().contains(key),
    ;

    /// Records a use of a resident key (recency, frequency); does nothing to a
    /// key that is not resident. The resident set never changes.
    fn touch(&mut self, key: u64, t: u64)
        requires
            old(self).wf(),
            old(self).clock_ok(t),
        ensures
            final(self).wf(),
            final(self).clock_ok(t),
            final(self).resident() == old(self).resident(),
            final(self).bytes() == old(self).bytes(),
            final(self).capacity() == old(self).capacity(),
            final(self).footprint() == old(self).footprint(),
            old(self).settled() ==> final(self).settled(),
            final(self).takes_all() == old(self).takes_all(),
            final(self).model() == Self::model_touch(old(self).model(), key, t),
    ;

    /// Takes `key` in and evicts until the budget is met; hands back the
    /// evicted keys, in eviction order. A key that is already resident, or
    /// that the policy refuses (larger than the budget, zero budget, ...),
    /// leaves the policy as it was and evicts nothing.
    fn admit_entry(&mut self, key: u64, value_size: u64, t: u64) -> (evicted: Vec<u64>)
        requires
            old(self).wf(),
            old(self).clock_ok(t),
            old(self).admits(key, value_size) ==> old(self).bytes() + value_size <= u64::MAX,
            old(self).footprint() < room_limit(),
        ensures
            final(self).wf(),
            final(self).clock_ok(t),
            final(self).capacity() == old(self).capacity(),
            old(self).settled() ==> final(self).settled(),
            final(self).footprint() <= old(self).footprint() + 1,
            !old(self).admits(key, value_size) ==> evicted@.len() == 0 && final(self).resident()
                == old(self).resident() && final(self).bytes() == old(self).bytes(),
            old(self).admits(key, value_size) ==> final(self).resident() == old(
                self,
            ).resident().insert(key).difference(evicted@.to_set()),
            evicted@.no_duplicates(),
            forall|i: int|
                0 <= i < evicted@.len() ==> old(self).resident().insert(key).contains(
                    #[trigger] evicted@[i],
                ),
            old(self).admits(key, value_size) && old(self).bytes() + value_size <= old(
                self,
            ).capacity() ==> evicted@.len() == 0,
            old(self).admits(key, value_size) && evicted@.len() == 0 ==> final(self).bytes() == old(
                self,
            ).bytes() + value_size,
            final(self).takes_all() == old(self).takes_all(),
            final(self).model() == Self::model_admit(old(self).model(), key, value_size, t).0,
            evicted@ == Self::model_admit(old(self).model(), key, value_size, t).1,
    ;

    /// Drops `key` from the cache without counting it as an eviction.
    fn remove(&mut self, key: u64)
        requires
            old(self).wf(),
            old(self).remove_ok(key),
        ensures
            final(self).wf(),
            final(self).resident() == old(self).resident().remove(key),
            final(self).capacity() == old(self).capacity(),
            final(self).footprint() <= old(self).footprint(),
            forall|t: u64| old(self).clock_ok(t) ==> final(self).clock_ok(t),
            final(self).takes_all() == old(self).takes_all(),
            final(self).model() == Self::model_remove(old(self).model(), key),
    ;
}

} // verus!
