//! allkeys-random: evicts keys picked uniformly by a xorshift generator.
use vstd::prelude::*;
use crate::eviction::{EvictionPolicy, room_limit};
use crate::rng::{xorshift, xorshift_next};
use crate::seqs::{
    swap_remove_seq, sum_seq, lemma_sum_push, lemma_sum_nonneg, lemma_sum_swap_remove,
    lemma_swap_remove_set, lemma_push_set, vec_swap_remove,
};
use crate::slots::SlotTable;

verus! {

/// The slot that the generator picks among `n` after state `rng`.
pub open spec fn pick_slot(rng: u64, n: int) -> int {
    (xorshift_next(rng) as usize) as int % n
}

/// Evicts random keys until `bytes` is within `cap` or nothing is left.
/// Gives the keys, sizes, generator state and bytes left, and the evicted
/// keys in order.
pub open spec fn random_evict(keys: Seq<u64>, sizes: Seq<u64>, rng: u64, bytes: int, cap: int) -> (
    Seq<u64>,
    Seq<u64>,
    u64,
    int,
    Seq<u64>,
)
    decreases keys.len(),
{
    if bytes <= cap || keys.len() == 0 {
        (keys, sizes, rng, bytes, Seq::empty())
    } else {
        let i = pick_slot(rng, keys.len() as int);
        let rest = random_evict(
            swap_remove_seq(keys, i),
            swap_remove_seq(sizes, i),
            xorshift_next(rng),
            bytes - sizes[i],
            cap,
        );
        (rest.0, rest.1, rest.2, rest.3, seq![keys[i]] + rest.4)
    }
}

pub proof fn lemma_random_evict(keys: Seq<u64>, sizes: Seq<u64>, rng: u64, bytes: int, cap: int)
    requires
        keys.no_duplicates(),
        keys.len() == sizes.len(),
        bytes == sum_seq(sizes),
        0 <= cap,
    ensures
        ({
            let r = random_evict(keys, sizes, rng, bytes, cap);
            &&& r.0.no_duplicates()
            &&& r.0.len() == r.1.len()
            &&& r.3 == sum_seq(r.1)
            &&& r.3 <= cap
            &&& r.0.to_set() == keys.to_set().difference(r.4.to_set())
            &&& r.4.no_duplicates()
            &&& forall|i: int| 0 <= i < r.4.len() ==> keys.contains(#[trigger] r.4[i])
            &&& r.0.len() <= keys.len()
            &&& bytes <= cap ==> r.4.len() == 0
        }),
    decreases keys.len(),
{
    lemma_sum_nonneg(sizes);
    if bytes <= cap || keys.len() == 0 {
        assert(keys.to_set().difference(Seq::<u64>::empty().to_set()) =~= keys.to_set());
    } else {
        let i = pick_slot(rng, keys.len() as int);
        let k2 = swap_remove_seq(keys, i);
        let s2 = swap_remove_seq(sizes, i);
        lemma_swap_remove_set(keys, i);
        lemma_sum_swap_remove(sizes, i);
        lemma_random_evict(k2, s2, xorshift_next(rng), bytes - sizes[i], cap);
        let rest = random_evict(k2, s2, xorshift_next(rng), bytes - sizes[i], cap);
        let ev = seq![keys[i]] + rest.4;
        assert forall|j: int| 0 <= j < ev.len() implies keys.contains(#[trigger] ev[j]) by {
            if j > 0 {
                assert(ev[j] == rest.4[j - 1]);
                assert(k2.contains(rest.4[j - 1]));
                assert(k2.to_set().contains(rest.4[j - 1]));
            }
        }
        assert forall|a: int, b: int| 0 <= a < ev.len() && 0 <= b < ev.len() && a != b implies ev[a]
            != ev[b] by {
            if a == 0 && b > 0 {
                assert(ev[b] == rest.4[b - 1]);
                assert(k2.to_set().contains(rest.4[b - 1]));
            } else if b == 0 && a > 0 {
                assert(ev[a] == rest.4[a - 1]);
                assert(k2.to_set().contains(rest.4[a - 1]));
            } else if a > 0 && b > 0 {
                assert(ev[a] == rest.4[a - 1]);
                assert(ev[b] == rest.4[b - 1]);
            }
        }
        assert forall|x: u64| #[trigger] rest.0.to_set().contains(x) <==> keys.to_set().difference(
            ev.to_set(),
        ).contains(x) by {
            if ev.to_set().contains(x) {
                let j = choose|j: int| 0 <= j < ev.len() && ev[j] == x;
                if j > 0 {
                    assert(rest.4.contains(x));
                    assert(rest.4.to_set().contains(x));
                }
            }
            if rest.4.to_set().contains(x) {
                let j = choose|j: int| 0 <= j < rest.4.len() && rest.4[j] == x;
                assert(ev[j + 1] == x);
                assert(ev.contains(x));
            }
            if x == keys[i] {
                assert(ev[0] == x);
                assert(ev.contains(x));
            }
        }
        assert(rest.0.to_set() =~= keys.to_set().difference(ev.to_set()));
    }
}

/// allkeys-random. Keys sit in dense slots with their entry sizes; eviction
/// swaps the last slot into the victim's.
pub struct AllkeysRandom {
    capacity_bytes: u64,
    resident_bytes: u64,
    table: SlotTable,
    value_size: Vec<u64>,
    rng: u64,
}

impl AllkeysRandom {
    pub closed spec fn keys(&self) -> Seq<u64> {
        self.table.keys()
    }

    pub closed spec fn sizes(&self) -> Seq<u64> {
        self.value_size@
    }

    pub closed spec fn rng_state(&self) -> u64 {
        self.rng
    }

    pub closed spec fn resident_bytes(&self) -> u64 {
        self.resident_bytes
    }

    pub closed spec fn capacity_bytes(&self) -> u64 {
        self.capacity_bytes
    }

    /// Consistent tables, without the budget.
    closed spec fn tables_ok(&self) -> bool {
        &&& self.table.wf()
        &&& self.value_size@.len() == self.table.keys().len()
        &&& self.resident_bytes == sum_seq(self.value_size@)
    }

    /// An empty cache with budget `capacity_bytes`; the generator starts at
    /// `seed | 1`, never zero.
    pub fn new(capacity_bytes: u64, seed: u64) -> (r: Self)
        ensures
            r.model() == (Seq::<u64>::empty(), Seq::<u64>::empty(), seed | 1, 0int, capacity_bytes),
            r.capacity() == capacity_bytes as int,
            r.bytes() == 0,
            r.resident() == Set::<u64>::empty(),
            r.clock_ok(0),
            r.takes_all(),
            r.wf(),
            r.keys() == Seq::<u64>::empty(),
            r.sizes() == Seq::<u64>::empty(),
            r.resident_bytes() == 0,
            r.capacity_bytes() == capacity_bytes,
            r.rng_state() == seed | 1,
            r.settled(),
            r.footprint() == 0,
    {
        let r = AllkeysRandom {
            capacity_bytes,
            resident_bytes: 0,
            table: SlotTable::new(),
            value_size: Vec::new(),
            rng: seed | 1,
        };
        proof {
            assert(r.keys().to_set() =~= Set::empty());
        }
        r
    }

    /// Evicts the key in the slot the generator picks; none when empty.
    fn evict_one(&mut self) -> (r: Option<u64>)
        requires
            old(self).tables_ok(),
        ensures
            final(self).tables_ok(),
            final(self).capacity_bytes == old(self).capacity_bytes,
            old(self).keys().len() == 0 ==> r is None && *final(self) == *old(self),
            old(self).keys().len() > 0 ==> {
                let i = pick_slot(old(self).rng, old(self).keys().len() as int);
                &&& r == Some(old(self).keys()[i])
                &&& final(self).keys() == swap_remove_seq(old(self).keys(), i)
                &&& final(self).sizes() == swap_remove_seq(old(self).sizes(), i)
                &&& final(self).rng == xorshift_next(old(self).rng)
                &&& final(self).resident_bytes == old(self).resident_bytes - old(self).sizes()[i]
            },
    {
        let n = self.table.len();
        if n == 0 {
            return None;
        }
        let idx = (xorshift(&mut self.rng) as usize) % n;
        proof {
            lemma_sum_swap_remove(self.value_size@, idx as int);
            crate::seqs::lemma_sum_elem(self.value_size@, idx as int);
        }
        self.resident_bytes = self.resident_bytes - self.value_size[idx];
        let victim_key = self.table.swap_remove(idx);
        vec_swap_remove(&mut self.value_size, idx);
        Some(victim_key)
    }

    /// Puts a new key in a new last slot and adds its size.
    fn insert_new(&mut self, key: u64, value_size: u64)
        requires
            old(self).tables_ok(),
            !old(self).keys().contains(key),
            old(self).resident_bytes + value_size <= u64::MAX,
        ensures
            final(self).tables_ok(),
            final(self).keys() == old(self).keys().push(key),
            final(self).sizes() == old(self).sizes().push(value_size),
            final(self).resident_bytes == old(self).resident_bytes + value_size,
            final(self).rng == old(self).rng,
            final(self).capacity_bytes == old(self).capacity_bytes,
    {
        self.table.push(key);
        self.value_size.push(value_size);
        proof {
            lemma_sum_push(old(self).value_size@, value_size);
        }
        self.resident_bytes = self.resident_bytes + value_size;
    }

    /// Evicts until the budget is met; hands back the evicted keys in order.
    fn evict_to_budget(&mut self) -> (evicted: Vec<u64>)
        requires
            old(self).tables_ok(),
        ensures
            final(self).tables_ok(),
            final(self).capacity_bytes == old(self).capacity_bytes,
            ({
                let r = random_evict(
                    old(self).keys(),
                    old(self).sizes(),
                    old(self).rng,
                    old(self).resident_bytes as int,
                    old(self).capacity_bytes as int,
                );
                &&& final(self).keys() == r.0
                &&& final(self).sizes() == r.1
                &&& final(self).rng == r.2
                &&& final(self).resident_bytes == r.3
                &&& evicted@ == r.4
            }),
    {
        let mut evicted: Vec<u64> = Vec::new();
        let ghost start = random_evict(
            self.keys(),
            self.sizes(),
            self.rng,
            self.resident_bytes as int,
            self.capacity_bytes as int,
        );
        while self.resident_bytes > self.capacity_bytes
            invariant_except_break
                self.tables_ok(),
                self.capacity_bytes == old(self).capacity_bytes,
                ({
                    let r = random_evict(
                        self.keys(),
                        self.sizes(),
                        self.rng,
                        self.resident_bytes as int,
                        self.capacity_bytes as int,
                    );
                    &&& start.0 == r.0
                    &&& start.1 == r.1
                    &&& start.2 == r.2
                    &&& start.3 == r.3
                    &&& start.4 == evicted@ + r.4
                }),
            ensures
                self.tables_ok(),
                self.capacity_bytes == old(self).capacity_bytes,
                start.0 == self.keys(),
                start.1 == self.sizes(),
                start.2 == self.rng,
                start.3 == self.resident_bytes,
                start.4 == evicted@,
            decreases self.keys().len(),
        {
            let ghost pre = *self;
            let ghost pre_ev = evicted@;
            if let Some(v) = self.evict_one() {
                evicted.push(v);
                proof {
                    let i = pick_slot(pre.rng, pre.keys().len() as int);
                    let r = random_evict(
                        self.keys(),
                        self.sizes(),
                        self.rng,
                        self.resident_bytes as int,
                        self.capacity_bytes as int,
                    );
                    assert(pre_ev + (seq![pre.keys()[i]] + r.4) =~= evicted@ + r.4);
                }
            } else {
                proof {
                    lemma_sum_nonneg(self.value_size@);
                    assert(self.value_size@.len() == 0);
                    assert(self.value_size@ =~= Seq::<u64>::empty());
                }
                break;
            }
        }
        proof {
            if self.resident_bytes <= self.capacity_bytes {
                assert(evicted@ + Seq::<u64>::empty() =~= evicted@);
            }
        }
        evicted
    }
}

impl EvictionPolicy for AllkeysRandom {
    type Model = (Seq<u64>, Seq<u64>, u64, int, u64);

    /// Keys, sizes, generator state, resident bytes, budget.
    open spec fn model(&self) -> Self::Model {
        (self.keys(), self.sizes(), self.rng_state(), self.resident_bytes() as int, self.capacity_bytes())
    }

    open spec fn model_resident(m: Self::Model) -> Set<u64> {
        m.0.to_set()
    }

    open spec fn model_touch(m: Self::Model, key: u64, t: u64) -> Self::Model {
        m
    }

    open spec fn model_bytes(m: Self::Model) -> int {
        m.3
    }

    open spec fn model_remove(m: Self::Model, key: u64) -> Self::Model {
        if m.0.contains(key) {
            let i = m.0.index_of(key);
            (swap_remove_seq(m.0, i), swap_remove_seq(m.1, i), m.2, m.3 - m.1[i], m.4)
        } else {
            m
        }
    }

    open spec fn model_admits(m: Self::Model, key: u64, value_size: u64) -> bool {
        m.4 > 0 && value_size <= m.4 && !m.0.contains(key)
    }

    open spec fn model_admit(m: Self::Model, key: u64, value_size: u64, t: u64) -> (Self::Model, Seq<u64>) {
        if Self::model_admits(m, key, value_size) {
            let r = random_evict(m.0.push(key), m.1.push(value_size), m.2, m.3 + value_size, m.4 as int);
            ((r.0, r.1, r.2, r.3, m.4), r.4)
        } else {
            (m, Seq::empty())
        }
    }

    closed spec fn wf(&self) -> bool {
        &&& self.tables_ok()
        &&& self.resident_bytes <= self.capacity_bytes
    }

    closed spec fn resident(&self) -> Set<u64> {
        self.table.keys().to_set()
    }

    closed spec fn bytes(&self) -> int {
        self.resident_bytes as int
    }

    closed spec fn capacity(&self) -> int {
        self.capacity_bytes as int
    }

    closed spec fn settled(&self) -> bool {
        true
    }

    closed spec fn admits(&self, key: u64, value_size: u64) -> bool {
        &&& self.capacity_bytes > 0
        &&& value_size <= self.capacity_bytes
        &&& !self.table.keys().contains(key)
    }

    open spec fn clock_ok(&self, t: u64) -> bool {
        true
    }

    closed spec fn access_ok(&self, key: u64, value_size: u64) -> bool {
        self.admits(key, value_size) ==> self.resident_bytes + value_size <= u64::MAX
    }

    open spec fn remove_ok(&self, key: u64) -> bool {
        true
    }

    closed spec fn footprint(&self) -> int {
        self.table.keys().len() as int
    }

    proof fn lemma_wf(&self) {
        self.table.lemma_no_duplicates();
        self.table.keys().unique_seq_to_set();
        vstd::seq_lib::seq_to_set_is_finite(self.table.keys());
    }

    proof fn lemma_admits(&self, key: u64, value_size: u64) {

    }

    open spec fn takes_all(&self) -> bool {
        true
    }

    proof fn lemma_takes_all(&self, key: u64, value_size: u64) {
    }

    proof fn lemma_clock(&self, t1: u64, t2: u64) {
    }

    proof fn lemma_access_ok(&self, key: u64, value_size: u64) {
    }

    fn access(&mut self, key: u64, value_size: u64, t: u64) -> (hit: bool)
        ensures
            hit || !old(self).admits(key, value_size) ==> *final(self) == *old(self),
            !hit && old(self).admits(key, value_size) ==> {
                let r = random_evict(
                    old(self).keys().push(key),
                    old(self).sizes().push(value_size),
                    old(self).rng_state(),
                    old(self).resident_bytes() + value_size,
                    old(self).capacity_bytes() as int,
                );
                &&& final(self).keys() == r.0
                &&& final(self).sizes() == r.1
                &&& final(self).rng_state() == r.2
                &&& final(self).resident_bytes() == r.3
                &&& final(self).capacity_bytes() == old(self).capacity_bytes()
            },
    {
        proof {
            self.table.lemma_no_duplicates();
        }
        if self.table.find(key).is_some() {
            return true;
        }
        if value_size > self.capacity_bytes || self.capacity_bytes == 0 {
            return false;
        }
        self.insert_new(key, value_size);
        let _ = self.evict_to_budget();
        proof {
            lemma_push_set(old(self).keys(), key);
            lemma_random_evict(
                old(self).keys().push(key),
                old(self).sizes().push(value_size),
                old(self).rng,
                old(self).resident_bytes + value_size,
                self.capacity_bytes as int,
            );
        }
        false
    }

    fn contains(&self, key: u64) -> (r: bool) {
        self.table.find(key).is_some()
    }

    fn touch(&mut self, key: u64, t: u64)
        ensures
            *final(self) == *old(self),
    {
    }

    fn admit_entry(&mut self, key: u64, value_size: u64, t: u64) -> (evicted: Vec<u64>)
        ensures
            !old(self).admits(key, value_size) ==> *final(self) == *old(self),
            old(self).admits(key, value_size) ==> {
                let r = random_evict(
                    old(self).keys().push(key),
                    old(self).sizes().push(value_size),
                    old(self).rng_state(),
                    old(self).resident_bytes() + value_size,
                    old(self).capacity_bytes() as int,
                );
                &&& final(self).keys() == r.0
                &&& final(self).sizes() == r.1
                &&& final(self).rng_state() == r.2
                &&& final(self).resident_bytes() == r.3
                &&& final(self).capacity_bytes() == old(self).capacity_bytes()
                &&& evicted@ == r.4
            },
    {
        proof {
            self.table.lemma_no_duplicates();
        }
        let evicted: Vec<u64> = Vec::new();
        if value_size > self.capacity_bytes || self.capacity_bytes == 0 {
            return evicted;
        }
        if self.table.find(key).is_some() {
            return evicted;
        }
        self.insert_new(key, value_size);
        let evicted = self.evict_to_budget();
        proof {
            lemma_push_set(old(self).keys(), key);
            lemma_random_evict(
                old(self).keys().push(key),
                old(self).sizes().push(value_size),
                old(self).rng,
                old(self).resident_bytes + value_size,
                self.capacity_bytes as int,
            );
        }
        evicted
    }

    fn remove(&mut self, key: u64)
        ensures
            !old(self).keys().contains(key) ==> *final(self) == *old(self),
            old(self).keys().contains(key) ==> exists|i: int|
                0 <= i < old(self).keys().len() && old(self).keys()[i] == key
                    && final(self).keys() == swap_remove_seq(old(self).keys(), i)
                    && final(self).sizes() == swap_remove_seq(old(self).sizes(), i)
                    && final(self).resident_bytes() == old(self).resident_bytes() - old(
                    self,
                ).sizes()[i],
            final(self).rng_state() == old(self).rng_state(),
            final(self).capacity_bytes() == old(self).capacity_bytes(),
    {
        proof {
            self.table.lemma_no_duplicates();
        }
        if let Some(idx) = self.table.find(key) {
            proof {
                lemma_sum_swap_remove(self.value_size@, idx as int);
                crate::seqs::lemma_sum_elem(self.value_size@, idx as int);
                lemma_swap_remove_set(self.table.keys(), idx as int);
            }
            self.resident_bytes = self.resident_bytes - self.value_size[idx];
            self.table.swap_remove(idx);
            vec_swap_remove(&mut self.value_size, idx);
        } else {
            proof {
                assert(self.table.keys().to_set().remove(key) =~= self.table.keys().to_set());
            }
        }
    }
}

} // verus!
