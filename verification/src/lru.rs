//! allkeys-lru: approximate LRU. Each eviction samples a few slots with the
//! xorshift generator and evicts the sampled key idle for longest.
use vstd::prelude::*;
use crate::eviction::{EvictionPolicy, room_limit};
use crate::rng::{xorshift, xorshift_next};
use crate::seqs::{
    swap_remove_seq, sum_seq, lemma_sum_push, lemma_sum_nonneg, lemma_sum_swap_remove,
    lemma_sum_elem, lemma_swap_remove_set, lemma_push_set, vec_swap_remove,
};
use crate::slots::SlotTable;

verus! {

/// Draws `k` more samples among the slots of `last`, keeping the first slot
/// whose idle time `t - last[i]` beats the best so far. Gives the chosen slot
/// and the generator state.
pub open spec fn lru_pick(last: Seq<u64>, rng: u64, k: nat, t: u64, best: int, best_idle: int) -> (
    int,
    u64,
)
    decreases k,
{
    if k == 0 {
        (best, rng)
    } else {
        let r = xorshift_next(rng);
        let i = (r as usize) as int % (last.len() as int);
        let idle = t - last[i];
        if idle > best_idle {
            lru_pick(last, r, (k - 1) as nat, t, i, idle)
        } else {
            lru_pick(last, r, (k - 1) as nat, t, best, best_idle)
        }
    }
}

/// The slot evicted next: `min(samples, n)` samples, starting from slot 0
/// with idle time 0.
pub open spec fn lru_victim(last: Seq<u64>, rng: u64, samples: usize, t: u64) -> (int, u64) {
    let ns = if samples < last.len() { samples as nat } else { last.len() };
    lru_pick(last, rng, ns, t, 0, 0)
}

pub proof fn lemma_lru_pick_range(last: Seq<u64>, rng: u64, k: nat, t: u64, best: int, best_idle: int)
    requires
        last.len() > 0,
        0 <= best < last.len(),
    ensures
        0 <= lru_pick(last, rng, k, t, best, best_idle).0 < last.len(),
    decreases k,
{
    if k > 0 {
        let r = xorshift_next(rng);
        let i = (r as usize) as int % (last.len() as int);
        lemma_lru_pick_range(last, r, (k - 1) as nat, t, i, t - last[i]);
        lemma_lru_pick_range(last, r, (k - 1) as nat, t, best, best_idle);
    }
}

/// Evicts sampled keys until `bytes` is within `cap` or nothing is left.
/// Gives the keys, last-access times, sizes, generator state and bytes left,
/// and the evicted keys in order.
pub open spec fn lru_evict(
    keys: Seq<u64>,
    last: Seq<u64>,
    sizes: Seq<u64>,
    rng: u64,
    bytes: int,
    cap: int,
    samples: usize,
    t: u64,
) -> (Seq<u64>, Seq<u64>, Seq<u64>, u64, int, Seq<u64>)
    decreases keys.len(),
{
    if bytes <= cap || keys.len() == 0 {
        (keys, last, sizes, rng, bytes, Seq::empty())
    } else {
        let (i, r) = lru_victim(last, rng, samples, t);
        if 0 <= i < keys.len() {
            let rest = lru_evict(
                swap_remove_seq(keys, i),
                swap_remove_seq(last, i),
                swap_remove_seq(sizes, i),
                r,
                bytes - sizes[i],
                cap,
                samples,
                t,
            );
            (rest.0, rest.1, rest.2, rest.3, rest.4, seq![keys[i]] + rest.5)
        } else {
            (keys, last, sizes, rng, bytes, Seq::empty())
        }
    }
}

pub proof fn lemma_lru_evict(
    keys: Seq<u64>,
    last: Seq<u64>,
    sizes: Seq<u64>,
    rng: u64,
    bytes: int,
    cap: int,
    samples: usize,
    t: u64,
)
    requires
        keys.no_duplicates(),
        keys.len() == sizes.len(),
        keys.len() == last.len(),
        bytes == sum_seq(sizes),
        0 <= cap,
        forall|i: int| 0 <= i < last.len() ==> last[i] <= t,
    ensures
        ({
            let r = lru_evict(keys, last, sizes, rng, bytes, cap, samples, t);
            &&& r.0.no_duplicates()
            &&& r.0.len() == r.2.len()
            &&& r.0.len() == r.1.len()
            &&& r.4 == sum_seq(r.2)
            &&& r.4 <= cap
            &&& forall|i: int| 0 <= i < r.1.len() ==> r.1[i] <= t
            &&& r.0.to_set() == keys.to_set().difference(r.5.to_set())
            &&& r.5.no_duplicates()
            &&& forall|i: int| 0 <= i < r.5.len() ==> keys.contains(#[trigger] r.5[i])
            &&& r.0.len() <= keys.len()
            &&& bytes <= cap ==> r.5.len() == 0
        }),
    decreases keys.len(),
{
    lemma_sum_nonneg(sizes);
    if bytes <= cap || keys.len() == 0 {
        assert(keys.to_set().difference(Seq::<u64>::empty().to_set()) =~= keys.to_set());
    } else {
        let (i, rr) = lru_victim(last, rng, samples, t);
        let ns = if samples < last.len() { samples as nat } else { last.len() };
        lemma_lru_pick_range(last, rng, ns, t, 0, 0);
        let k2 = swap_remove_seq(keys, i);
        let l2 = swap_remove_seq(last, i);
        let s2 = swap_remove_seq(sizes, i);
        lemma_swap_remove_set(keys, i);
        lemma_sum_swap_remove(sizes, i);
        assert forall|j: int| 0 <= j < l2.len() implies l2[j] <= t by {
            if j == i {
                assert(l2[j] == last[last.len() - 1]);
            } else {
                assert(l2[j] == last[j]);
            }
        }
        lemma_lru_evict(k2, l2, s2, rr, bytes - sizes[i], cap, samples, t);
        let rest = lru_evict(k2, l2, s2, rr, bytes - sizes[i], cap, samples, t);
        let ev = seq![keys[i]] + rest.5;
        assert forall|j: int| 0 <= j < ev.len() implies keys.contains(#[trigger] ev[j]) by {
            if j > 0 {
                assert(ev[j] == rest.5[j - 1]);
                assert(k2.to_set().contains(rest.5[j - 1]));
            }
        }
        assert forall|a: int, b: int| 0 <= a < ev.len() && 0 <= b < ev.len() && a != b implies ev[a]
            != ev[b] by {
            if a == 0 && b > 0 {
                assert(ev[b] == rest.5[b - 1]);
                assert(k2.to_set().contains(rest.5[b - 1]));
            } else if b == 0 && a > 0 {
                assert(ev[a] == rest.5[a - 1]);
                assert(k2.to_set().contains(rest.5[a - 1]));
            } else if a > 0 && b > 0 {
                assert(ev[a] == rest.5[a - 1]);
                assert(ev[b] == rest.5[b - 1]);
            }
        }
        assert forall|x: u64| #[trigger] rest.0.to_set().contains(x) <==> keys.to_set().difference(
            ev.to_set(),
        ).contains(x) by {
            if ev.to_set().contains(x) {
                let j = choose|j: int| 0 <= j < ev.len() && ev[j] == x;
                if j > 0 {
                    assert(rest.5.contains(x));
                    assert(rest.5.to_set().contains(x));
                }
            }
            if rest.5.to_set().contains(x) {
                let j = choose|j: int| 0 <= j < rest.5.len() && rest.5[j] == x;
                assert(ev[j + 1] == x);
                assert(ev.contains(x));
            }
            if x == keys[i] {
                assert(ev[0] == x);
                assert(ev.contains(x));
            }
        }
        assert(rest.0.to_set() =~= keys.to_set().difference(ev.to_set()));
    }
}

/// allkeys-lru with `samples` samples per eviction (Valkey's default is 5).
pub struct AllkeysLru {
    capacity_bytes: u64,
    resident_bytes: u64,
    samples: usize,
    table: SlotTable,
    last_access: Vec<u64>,
    value_size: Vec<u64>,
    rng: u64,
}

impl AllkeysLru {
    pub closed spec fn keys(&self) -> Seq<u64> {
        self.table.keys()
    }

    pub closed spec fn last_access(&self) -> Seq<u64> {
        self.last_access@
    }

    pub closed spec fn sizes(&self) -> Seq<u64> {
        self.value_size@
    }

    pub closed spec fn rng_state(&self) -> u64 {
        self.rng
    }

    pub closed spec fn resident_bytes(&self) -> u64 {
        self.resident_bytes
    }

    pub closed spec fn capacity_bytes(&self) -> u64 {
        self.capacity_bytes
    }

    pub closed spec fn samples(&self) -> usize {
        self.samples
    }

    closed spec fn tables_ok(&self) -> bool {
        &&& self.table.wf()
        &&& self.value_size@.len() == self.table.keys().len()
        &&& self.last_access@.len() == self.table.keys().len()
        &&& self.resident_bytes == sum_seq(self.value_size@)
    }

    closed spec fn times_below(&self, t: u64) -> bool {
        forall|i: int| 0 <= i < self.last_access@.len() ==> self.last_access@[i] <= t
    }

    /// An empty cache with budget `capacity_bytes` that samples `samples`
    /// slots per eviction; the generator starts at `seed | 1`.
    pub fn new(capacity_bytes: u64, samples: usize, seed: u64) -> (r: Self)
        ensures
            r.model() == (
                Seq::<u64>::empty(),
                Seq::<u64>::empty(),
                Seq::<u64>::empty(),
                seed | 1,
                0int,
                capacity_bytes,
                samples,
            ),
            r.capacity() == capacity_bytes as int,
            r.bytes() == 0,
            r.resident() == Set::<u64>::empty(),
            r.clock_ok(0),
            r.takes_all(),
            r.wf(),
            r.keys() == Seq::<u64>::empty(),
            r.last_access() == Seq::<u64>::empty(),
            r.sizes() == Seq::<u64>::empty(),
            r.resident_bytes() == 0,
            r.capacity_bytes() == capacity_bytes,
            r.samples() == samples,
            r.rng_state() == seed | 1,
            r.settled(),
            r.footprint() == 0,
            r.clock_ok(0),
    {
        AllkeysLru {
            capacity_bytes,
            resident_bytes: 0,
            samples,
            table: SlotTable::new(),
            last_access: Vec::new(),
            value_size: Vec::new(),
            rng: seed | 1,
        }
    }

    /// Samples `min(samples, n)` slots and evicts the one idle longest (the
    /// first such sample wins ties); none when empty.
    fn evict_one(&mut self, t: u64) -> (r: Option<u64>)
        requires
            old(self).tables_ok(),
            old(self).times_below(t),
        ensures
            final(self).tables_ok(),
            final(self).times_below(t),
            final(self).capacity_bytes == old(self).capacity_bytes,
            final(self).samples == old(self).samples,
            old(self).keys().len() == 0 ==> r is None && *final(self) == *old(self),
            old(self).keys().len() > 0 ==> {
                let (i, rr) = lru_victim(
                    old(self).last_access@,
                    old(self).rng,
                    old(self).samples,
                    t,
                );
                &&& 0 <= i < old(self).keys().len()
                &&& r == Some(old(self).keys()[i])
                &&& final(self).keys() == swap_remove_seq(old(self).keys(), i)
                &&& final(self).last_access@ == swap_remove_seq(old(self).last_access@, i)
                &&& final(self).sizes() == swap_remove_seq(old(self).sizes(), i)
                &&& final(self).rng == rr
                &&& final(self).resident_bytes == old(self).resident_bytes - old(self).sizes()[i]
            },
    {
        let n = self.table.len();
        if n == 0 {
            return None;
        }
        let ns = if self.samples < n { self.samples } else { n };
        let mut best_idx: usize = 0;
        let mut best_idle: u64 = 0;
        let ghost target = lru_pick(self.last_access@, self.rng, ns as nat, t, 0, 0);
        let mut j: usize = 0;
        while j < ns
            invariant
                self.tables_ok(),
                self.times_below(t),
                self.table.keys().len() == n,
                n > 0,
                self.capacity_bytes == old(self).capacity_bytes,
                self.samples == old(self).samples,
                self.table == old(self).table,
                self.last_access == old(self).last_access,
                self.value_size == old(self).value_size,
                self.resident_bytes == old(self).resident_bytes,
                j <= ns,
                best_idx < n,
                lru_pick(self.last_access@, self.rng, (ns - j) as nat, t, best_idx as int, best_idle as int)
                    == target,
            decreases ns - j,
        {
            let i = (xorshift(&mut self.rng) as usize) % n;
            let idle = t - self.last_access[i];
            if idle > best_idle {
                best_idle = idle;
                best_idx = i;
            }
            j = j + 1;
        }
        proof {
            lemma_sum_swap_remove(self.value_size@, best_idx as int);
            lemma_sum_elem(self.value_size@, best_idx as int);
            assert forall|k: int| 0 <= k < n - 1 implies swap_remove_seq(self.last_access@, best_idx as int)[k] <= t by {
                if k == best_idx {
                    assert(self.last_access@[n - 1] <= t);
                } else {
                    assert(self.last_access@[k] <= t);
                }
            }
        }
        self.resident_bytes = self.resident_bytes - self.value_size[best_idx];
        let victim_key = self.table.swap_remove(best_idx);
        vec_swap_remove(&mut self.last_access, best_idx);
        vec_swap_remove(&mut self.value_size, best_idx);
        Some(victim_key)
    }

    fn insert_new(&mut self, key: u64, value_size: u64, t: u64)
        requires
            old(self).tables_ok(),
            old(self).times_below(t),
            !old(self).keys().contains(key),
            old(self).resident_bytes + value_size <= u64::MAX,
        ensures
            final(self).tables_ok(),
            final(self).times_below(t),
            final(self).keys() == old(self).keys().push(key),
            final(self).last_access@ == old(self).last_access@.push(t),
            final(self).sizes() == old(self).sizes().push(value_size),
            final(self).resident_bytes == old(self).resident_bytes + value_size,
            final(self).rng == old(self).rng,
            final(self).capacity_bytes == old(self).capacity_bytes,
            final(self).samples == old(self).samples,
    {
        self.table.push(key);
        self.last_access.push(t);
        self.value_size.push(value_size);
        proof {
            lemma_sum_push(old(self).value_size@, value_size);
        }
        self.resident_bytes = self.resident_bytes + value_size;
    }

    /// Evicts until the budget is met; hands back the evicted keys in order.
    fn evict_to_budget(&mut self, t: u64) -> (evicted: Vec<u64>)
        requires
            old(self).tables_ok(),
            old(self).times_below(t),
        ensures
            final(self).tables_ok(),
            final(self).times_below(t),
            final(self).capacity_bytes == old(self).capacity_bytes,
            final(self).samples == old(self).samples,
            ({
                let r = lru_evict(
                    old(self).keys(),
                    old(self).last_access@,
                    old(self).sizes(),
                    old(self).rng,
                    old(self).resident_bytes as int,
                    old(self).capacity_bytes as int,
                    old(self).samples,
                    t,
                );
                &&& final(self).keys() == r.0
                &&& final(self).last_access@ == r.1
                &&& final(self).sizes() == r.2
                &&& final(self).rng == r.3
                &&& final(self).resident_bytes == r.4
                &&& evicted@ == r.5
            }),
    {
        let mut evicted: Vec<u64> = Vec::new();
        let ghost start = lru_evict(
            self.keys(),
            self.last_access@,
            self.sizes(),
            self.rng,
            self.resident_bytes as int,
            self.capacity_bytes as int,
            self.samples,
            t,
        );
        while self.resident_bytes > self.capacity_bytes
            invariant_except_break
                self.tables_ok(),
                self.times_below(t),
                self.capacity_bytes == old(self).capacity_bytes,
                self.samples == old(self).samples,
                ({
                    let r = lru_evict(
                        self.keys(),
                        self.last_access@,
                        self.sizes(),
                        self.rng,
                        self.resident_bytes as int,
                        self.capacity_bytes as int,
                        self.samples,
                        t,
                    );
                    &&& start.0 == r.0
                    &&& start.1 == r.1
                    &&& start.2 == r.2
                    &&& start.3 == r.3
                    &&& start.4 == r.4
                    &&& start.5 == evicted@ + r.5
                }),
            ensures
                self.tables_ok(),
                self.times_below(t),
                self.capacity_bytes == old(self).capacity_bytes,
                self.samples == old(self).samples,
                start.0 == self.keys(),
                start.1 == self.last_access@,
                start.2 == self.sizes(),
                start.3 == self.rng,
                start.4 == self.resident_bytes,
                start.5 == evicted@,
            decreases self.keys().len(),
        {
            let ghost pre = *self;
            let ghost pre_ev = evicted@;
            if let Some(v) = self.evict_one(t) {
                evicted.push(v);
                proof {
                    let (i, rr) = lru_victim(pre.last_access@, pre.rng, pre.samples, t);
                    let r = lru_evict(
                        self.keys(),
                        self.last_access@,
                        self.sizes(),
                        self.rng,
                        self.resident_bytes as int,
                        self.capacity_bytes as int,
                        self.samples,
                        t,
                    );
                    assert(pre_ev + (seq![pre.keys()[i]] + r.5) =~= evicted@ + r.5);
                }
            } else {
                proof {
                    lemma_sum_nonneg(self.value_size@);
                    assert(self.value_size@ =~= Seq::<u64>::empty());
                }
                break;
            }
        }
        proof {
            if self.resident_bytes <= self.capacity_bytes {
                assert(evicted@ + Seq::<u64>::empty() =~= evicted@);
            }
        }
        evicted
    }
}

impl EvictionPolicy for AllkeysLru {
    type Model = (Seq<u64>, Seq<u64>, Seq<u64>, u64, int, u64, usize);

    /// Keys, last access times, sizes, generator state, resident bytes,
    /// budget, samples.
    open spec fn model(&self) -> Self::Model {
        (
            self.keys(),
            self.last_access(),
            self.sizes(),
            self.rng_state(),
            self.resident_bytes() as int,
            self.capacity_bytes(),
            self.samples(),
        )
    }

    open spec fn model_resident(m: Self::Model) -> Set<u64> {
        m.0.to_set()
    }

    open spec fn model_touch(m: Self::Model, key: u64, t: u64) -> Self::Model {
        if m.0.contains(key) {
            (m.0, m.1.update(m.0.index_of(key), t), m.2, m.3, m.4, m.5, m.6)
        } else {
            m
        }
    }

    open spec fn model_bytes(m: Self::Model) -> int {
        m.4
    }

    open spec fn model_remove(m: Self::Model, key: u64) -> Self::Model {
        if m.0.contains(key) {
            let i = m.0.index_of(key);
            (swap_remove_seq(m.0, i), swap_remove_seq(m.1, i), swap_remove_seq(m.2, i), m.3, m.4 - m.2[i], m.5, m.6)
        } else {
            m
        }
    }

    open spec fn model_admits(m: Self::Model, key: u64, value_size: u64) -> bool {
        m.5 > 0 && value_size <= m.5 && !m.0.contains(key)
    }

    open spec fn model_admit(m: Self::Model, key: u64, value_size: u64, t: u64) -> (Self::Model, Seq<u64>) {
        if Self::model_admits(m, key, value_size) {
            let r = lru_evict(m.0.push(key), m.1.push(t), m.2.push(value_size), m.3, m.4 + value_size, m.5 as int, m.6, t);
            ((r.0, r.1, r.2, r.3, r.4, m.5, m.6), r.5)
        } else {
            (m, Seq::empty())
        }
    }

    closed spec fn wf(&self) -> bool {
        &&& self.tables_ok()
        &&& self.resident_bytes <= self.capacity_bytes
    }

    closed spec fn resident(&self) -> Set<u64> {
        self.table.keys().to_set()
    }

    closed spec fn bytes(&self) -> int {
        self.resident_bytes as int
    }

    closed spec fn capacity(&self) -> int {
        self.capacity_bytes as int
    }

    closed spec fn settled(&self) -> bool {
        true
    }

    closed spec fn admits(&self, key: u64, value_size: u64) -> bool {
        &&& self.capacity_bytes > 0
        &&& value_size <= self.capacity_bytes
        &&& !self.table.keys().contains(key)
    }

    closed spec fn clock_ok(&self, t: u64) -> bool {
        self.times_below(t)
    }

    closed spec fn access_ok(&self, key: u64, value_size: u64) -> bool {
        self.admits(key, value_size) ==> self.resident_bytes + value_size <= u64::MAX
    }

    open spec fn remove_ok(&self, key: u64) -> bool {
        true
    }

    closed spec fn footprint(&self) -> int {
        self.table.keys().len() as int
    }

    proof fn lemma_wf(&self) {
        self.table.lemma_no_duplicates();
        self.table.keys().unique_seq_to_set();
        vstd::seq_lib::seq_to_set_is_finite(self.table.keys());
    }

    proof fn lemma_admits(&self, key: u64, value_size: u64) {
    }

    open spec fn takes_all(&self) -> bool {
        true
    }

    proof fn lemma_takes_all(&self, key: u64, value_size: u64) {
    }

    proof fn lemma_clock(&self, t1: u64, t2: u64) {
    }

    proof fn lemma_access_ok(&self, key: u64, value_size: u64) {
    }

    fn access(&mut self, key: u64, value_size: u64, t: u64) -> (hit: bool)
        ensures
            !hit && !old(self).admits(key, value_size) ==> *final(self) == *old(self),
            hit ==> exists|i: int|
                0 <= i < old(self).keys().len() && old(self).keys()[i] == key
                    && final(self).last_access() == old(self).last_access().update(i, t)
                    && final(self).keys() == old(self).keys() && final(self).sizes() == old(
                    self,
                ).sizes() && final(self).rng_state() == old(self).rng_state()
                    && final(self).resident_bytes() == old(self).resident_bytes(),
            !hit && old(self).admits(key, value_size) ==> {
                let r = lru_evict(
                    old(self).keys().push(key),
                    old(self).last_access().push(t),
                    old(self).sizes().push(value_size),
                    old(self).rng_state(),
                    old(self).resident_bytes() + value_size,
                    old(self).capacity_bytes() as int,
                    old(self).samples(),
                    t,
                );
                &&& final(self).keys() == r.0
                &&& final(self).last_access() == r.1
                &&& final(self).sizes() == r.2
                &&& final(self).rng_state() == r.3
                &&& final(self).resident_bytes() == r.4
            },
            final(self).capacity_bytes() == old(self).capacity_bytes(),
            final(self).samples() == old(self).samples(),
    {
        proof {
            self.table.lemma_no_duplicates();
        }
        if let Some(idx) = self.table.find(key) {
            self.last_access.set(idx, t);
            proof {
                assert(self.last_access@ == old(self).last_access@.update(idx as int, t));
                assert(old(self).keys()[idx as int] == key);
                assert(self.times_below(t));
            }
            return true;
        }
        if value_size > self.capacity_bytes || self.capacity_bytes == 0 {
            return false;
        }
        self.insert_new(key, value_size, t);
        let _ = self.evict_to_budget(t);
        proof {
            lemma_push_set(old(self).keys(), key);
            lemma_lru_evict(
                old(self).keys().push(key),
                old(self).last_access@.push(t),
                old(self).sizes().push(value_size),
                old(self).rng,
                old(self).resident_bytes + value_size,
                self.capacity_bytes as int,
                self.samples,
                t,
            );
        }
        false
    }

    fn contains(&self, key: u64) -> (r: bool) {
        self.table.find(key).is_some()
    }

    fn touch(&mut self, key: u64, t: u64)
        ensures
            !old(self).keys().contains(key) ==> *final(self) == *old(self),
            old(self).keys().contains(key) ==> exists|i: int|
                0 <= i < old(self).keys().len() && old(self).keys()[i] == key
                    && final(self).last_access() == old(self).last_access().update(i, t),
            final(self).keys() == old(self).keys(),
            final(self).sizes() == old(self).sizes(),
            final(self).rng_state() == old(self).rng_state(),
            final(self).resident_bytes() == old(self).resident_bytes(),
            final(self).capacity_bytes() == old(self).capacity_bytes(),
            final(self).samples() == old(self).samples(),
    {
        if let Some(idx) = self.table.find(key) {
            self.last_access.set(idx, t);
            proof {
                old(self).table.lemma_no_duplicates();
                let ks = old(self).keys();
                assert(ks[idx as int] == key);
                assert(ks.contains(key));
                assert(ks.index_of(key) == idx as int);
            }
        }
    }

    fn admit_entry(&mut self, key: u64, value_size: u64, t: u64) -> (evicted: Vec<u64>)
        ensures
            !old(self).admits(key, value_size) ==> *final(self) == *old(self),
            old(self).admits(key, value_size) ==> {
                let r = lru_evict(
                    old(self).keys().push(key),
                    old(self).last_access().push(t),
                    old(self).sizes().push(value_size),
                    old(self).rng_state(),
                    old(self).resident_bytes() + value_size,
                    old(self).capacity_bytes() as int,
                    old(self).samples(),
                    t,
                );
                &&& final(self).keys() == r.0
                &&& final(self).last_access() == r.1
                &&& final(self).sizes() == r.2
                &&& final(self).rng_state() == r.3
                &&& final(self).resident_bytes() == r.4
                &&& evicted@ == r.5
            },
            final(self).capacity_bytes() == old(self).capacity_bytes(),
            final(self).samples() == old(self).samples(),
    {
        proof {
            self.table.lemma_no_duplicates();
        }
        let evicted: Vec<u64> = Vec::new();
        if value_size > self.capacity_bytes || self.capacity_bytes == 0 {
            return evicted;
        }
        if self.table.find(key).is_some() {
            return evicted;
        }
        self.insert_new(key, value_size, t);
        let evicted = self.evict_to_budget(t);
        proof {
            lemma_push_set(old(self).keys(), key);
            lemma_lru_evict(
                old(self).keys().push(key),
                old(self).last_access@.push(t),
                old(self).sizes().push(value_size),
                old(self).rng,
                old(self).resident_bytes + value_size,
                self.capacity_bytes as int,
                self.samples,
                t,
            );
        }
        evicted
    }

    fn remove(&mut self, key: u64)
        ensures
            !old(self).keys().contains(key) ==> *final(self) == *old(self),
            old(self).keys().contains(key) ==> exists|i: int|
                0 <= i < old(self).keys().len() && old(self).keys()[i] == key
                    && final(self).keys() == swap_remove_seq(old(self).keys(), i)
                    && final(self).last_access() == swap_remove_seq(old(self).last_access(), i)
                    && final(self).sizes() == swap_remove_seq(old(self).sizes(), i)
                    && final(self).resident_bytes() == old(self).resident_bytes() - old(
                    self,
                ).sizes()[i],
            final(self).rng_state() == old(self).rng_state(),
            final(self).capacity_bytes() == old(self).capacity_bytes(),
            final(self).samples() == old(self).samples(),
    {
        proof {
            self.table.lemma_no_duplicates();
        }
        if let Some(idx) = self.table.find(key) {
            proof {
                lemma_sum_swap_remove(self.value_size@, idx as int);
                lemma_sum_elem(self.value_size@, idx as int);
                lemma_swap_remove_set(self.table.keys(), idx as int);
                let n = self.last_access@.len();
                assert forall|t: u64| old(self).times_below(t) implies #[trigger] swap_remove_seq(
                    self.last_access@,
                    idx as int,
                ).len() == n - 1 && forall|k: int| 0 <= k < n - 1 ==> swap_remove_seq(self.last_access@, idx as int)[k] <= t by {
                    assert forall|k: int| 0 <= k < n - 1 implies swap_remove_seq(self.last_access@, idx as int)[k] <= t by {
                        if k == idx {
                            assert(self.last_access@[n - 1] <= t);
                        } else {
                            assert(self.last_access@[k] <= t);
                        }
                    }
                }
            }
            self.resident_bytes = self.resident_bytes - self.value_size[idx];
            self.table.swap_remove(idx);
            vec_swap_remove(&mut self.last_access, idx);
            vec_swap_remove(&mut self.value_size, idx);
        } else {
            proof {
                assert(self.table.keys().to_set().remove(key) =~= self.table.keys().to_set());
            }
        }
    }
}

} // verus!
