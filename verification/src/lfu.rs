//! allkeys-lfu: approximate LFU with Morris-style logarithmic counters that
//! decay with idle time. Each eviction samples a few slots and evicts the
//! sampled key whose decayed counter is lowest.
use vstd::prelude::*;
use crate::eviction::{EvictionPolicy, room_limit};
use crate::rng::{xorshift, xorshift_next};
use crate::seqs::{
    swap_remove_seq, sum_seq, lemma_sum_push, lemma_sum_nonneg, lemma_sum_swap_remove,
    lemma_sum_elem, lemma_swap_remove_set, lemma_push_set, vec_swap_remove,
};
use crate::slots::SlotTable;

verus! {

/// The counter a new key starts with.
pub const LFU_INIT_VAL: u8 = 5;

/// `x - y`, or 0 when `y > x`.
pub open spec fn sat_sub_u8(x: u8, y: u8) -> u8 {
    if x < y {
        0
    } else {
        (x - y) as u8
    }
}

/// The number of decay steps in `elapsed` minutes, saturated at 255 (a
/// counter never exceeds 255, so more steps bring any counter to 0).
pub open spec fn decay_steps(elapsed: u64, decay_time: u64) -> u8 {
    let p = elapsed / decay_time;
    if p > 255 {
        255
    } else {
        p as u8
    }
}

/// The counter after decaying one step per full `decay_time` minutes elapsed
/// since `last_decay`, down to 0 at most; no decay when `decay_time` is 0.
pub open spec fn decayed(counter: u8, last_decay: u64, now: u64, decay_time: u64) -> u8 {
    if decay_time == 0 {
        counter
    } else {
        sat_sub_u8(counter, decay_steps((now - last_decay) as u64, decay_time))
    }
}

/// The counter and generator state after one recorded use at minute `now`:
/// decay first (saturating, as `decayed`), then, below 255, add one with probability
/// `1 / ((c - 5) * log_factor + 1)` (certain at or below 5).
pub open spec fn lfu_bump(counter: u8, last_decay: u64, rng: u64, now: u64, decay_time: u64, log_factor: u64) -> (
    u8,
    u64,
) {
    let c = if decay_time > 0 {
        sat_sub_u8(counter, decay_steps((now - last_decay) as u64, decay_time))
    } else {
        counter
    };
    if c < 255 {
        let base: int = if c > 5 { c - 5 } else { 0 };
        let p = base * log_factor + 1;
        let r = xorshift_next(rng);
        if r as int % p == 0 {
            ((c + 1) as u8, r)
        } else {
            (c, r)
        }
    } else {
        (c, rng)
    }
}

/// A recorded use of a key never leaves its counter below the decayed
/// value `d` and raises it by at most one: by exactly one when `d` is at
/// most `LFU_INIT_VAL` (and below 255), and otherwise exactly when the drawn
/// number is a multiple of `(d - 5) * log_factor + 1`; a counter of 255
/// stays. The draw is the generator's next number.
pub proof fn lemma_lfu_use(counter: u8, last_decay: u64, rng: u64, now: u64, decay_time: u64, log_factor: u64)
    ensures
        ({
            let d = decayed(counter, last_decay, now, decay_time);
            let (c, r) = lfu_bump(counter, last_decay, rng, now, decay_time, log_factor);
            &&& d <= c <= d + 1
            &&& d <= LFU_INIT_VAL ==> c == d + 1
            &&& d == 255 ==> c == 255 && r == rng
            &&& d < 255 ==> r == xorshift_next(rng)
            &&& 5 < d < 255 ==> (c == d + 1 <==> xorshift_next(rng) as int % ((d - 5) * log_factor + 1) == 0)
        }),
{
    let d = decayed(counter, last_decay, now, decay_time);
    let r = xorshift_next(rng);
    assert(r as int % 1 == 0);
    if d > 5 {
        assert((d - 5) * log_factor + 1 >= 1) by (nonlinear_arith)
            requires
                d > 5,
        ;
    }
}

/// Draws `k` more samples, keeping the first slot whose score
/// `255 - decayed counter` beats the best so far.
pub open spec fn lfu_pick(
    counters: Seq<u8>,
    decays: Seq<u64>,
    rng: u64,
    k: nat,
    now: u64,
    decay_time: u64,
    best: int,
    best_score: int,
) -> (int, u64)
    decreases k,
{
    if k == 0 {
        (best, rng)
    } else {
        let r = xorshift_next(rng);
        let i = (r as usize) as int % (counters.len() as int);
        let score = 255 - decayed(counters[i], decays[i], now, decay_time);
        if score > best_score {
            lfu_pick(counters, decays, r, (k - 1) as nat, now, decay_time, i, score)
        } else {
            lfu_pick(counters, decays, r, (k - 1) as nat, now, decay_time, best, best_score)
        }
    }
}

/// The slot evicted next: `min(samples, n)` samples from slot 0, score 0.
pub open spec fn lfu_victim(
    counters: Seq<u8>,
    decays: Seq<u64>,
    rng: u64,
    samples: usize,
    now: u64,
    decay_time: u64,
) -> (int, u64) {
    let ns = if samples < counters.len() { samples as nat } else { counters.len() };
    lfu_pick(counters, decays, rng, ns, now, decay_time, 0, 0)
}

pub proof fn lemma_lfu_pick_range(
    counters: Seq<u8>,
    decays: Seq<u64>,
    rng: u64,
    k: nat,
    now: u64,
    decay_time: u64,
    best: int,
    best_score: int,
)
    requires
        counters.len() > 0,
        0 <= best < counters.len(),
    ensures
        0 <= lfu_pick(counters, decays, rng, k, now, decay_time, best, best_score).0 < counters.len(),
    decreases k,
{
    if k > 0 {
        let r = xorshift_next(rng);
        let i = (r as usize) as int % (counters.len() as int);
        let score = 255 - decayed(counters[i], decays[i], now, decay_time);
        lemma_lfu_pick_range(counters, decays, r, (k - 1) as nat, now, decay_time, i, score);
        lemma_lfu_pick_range(counters, decays, r, (k - 1) as nat, now, decay_time, best, best_score);
    }
}

/// The state of an LFU table: keys, sizes, counters and last decay minutes.
pub struct LfuTables {
    pub keys: Seq<u64>,
    pub sizes: Seq<u64>,
    pub counters: Seq<u8>,
    pub decays: Seq<u64>,
}

/// The tables with slot `i` swap-removed.
pub open spec fn lfu_drop(s: LfuTables, i: int) -> LfuTables {
    LfuTables {
        keys: swap_remove_seq(s.keys, i),
        sizes: swap_remove_seq(s.sizes, i),
        counters: swap_remove_seq(s.counters, i),
        decays: swap_remove_seq(s.decays, i),
    }
}

/// Evicts sampled keys until `bytes` is within `cap` or nothing is left.
/// Gives the tables, generator state and bytes left, and the evicted keys.
pub open spec fn lfu_evict(
    s: LfuTables,
    rng: u64,
    bytes: int,
    cap: int,
    samples: usize,
    now: u64,
    decay_time: u64,
) -> (LfuTables, u64, int, Seq<u64>)
    decreases s.keys.len(),
{
    if bytes <= cap || s.keys.len() == 0 {
        (s, rng, bytes, Seq::empty())
    } else {
        let (i, r) = lfu_victim(s.counters, s.decays, rng, samples, now, decay_time);
        if 0 <= i < s.keys.len() {
            let rest = lfu_evict(lfu_drop(s, i), r, bytes - s.sizes[i], cap, samples, now, decay_time);
            (rest.0, rest.1, rest.2, seq![s.keys[i]] + rest.3)
        } else {
            (s, rng, bytes, Seq::empty())
        }
    }
}

pub open spec fn lfu_tables_ok(s: LfuTables, now: u64) -> bool {
    &&& s.keys.no_duplicates()
    &&& s.keys.len() == s.sizes.len()
    &&& s.keys.len() == s.counters.len()
    &&& s.keys.len() == s.decays.len()
    &&& forall|i: int| 0 <= i < s.decays.len() ==> s.decays[i] <= now
}

pub proof fn lemma_lfu_drop(s: LfuTables, i: int, now: u64)
    requires
        lfu_tables_ok(s, now),
        0 <= i < s.keys.len(),
    ensures
        lfu_tables_ok(lfu_drop(s, i), now),
        lfu_drop(s, i).keys.to_set() == s.keys.to_set().remove(s.keys[i]),
        sum_seq(lfu_drop(s, i).sizes) == sum_seq(s.sizes) - s.sizes[i],
        s.sizes[i] <= sum_seq(s.sizes),
{
    lemma_swap_remove_set(s.keys, i);
    lemma_sum_swap_remove(s.sizes, i);
    lemma_sum_elem(s.sizes, i);
    let d2 = swap_remove_seq(s.decays, i);
    assert forall|j: int| 0 <= j < d2.len() implies d2[j] <= now by {
        if j == i {
            assert(d2[j] == s.decays[s.decays.len() - 1]);
        } else {
            assert(d2[j] == s.decays[j]);
        }
    }
}

pub proof fn lemma_lfu_evict(
    s: LfuTables,
    rng: u64,
    bytes: int,
    cap: int,
    samples: usize,
    now: u64,
    decay_time: u64,
)
    requires
        lfu_tables_ok(s, now),
        bytes == sum_seq(s.sizes),
        0 <= cap,
    ensures
        ({
            let r = lfu_evict(s, rng, bytes, cap, samples, now, decay_time);
            &&& lfu_tables_ok(r.0, now)
            &&& r.2 == sum_seq(r.0.sizes)
            &&& r.2 <= cap
            &&& r.0.keys.to_set() == s.keys.to_set().difference(r.3.to_set())
            &&& r.3.no_duplicates()
            &&& forall|i: int| 0 <= i < r.3.len() ==> s.keys.contains(#[trigger] r.3[i])
            &&& r.0.keys.len() <= s.keys.len()
            &&& bytes <= cap ==> r.3.len() == 0
        }),
    decreases s.keys.len(),
{
    lemma_sum_nonneg(s.sizes);
    if bytes <= cap || s.keys.len() == 0 {
        assert(s.keys.to_set().difference(Seq::<u64>::empty().to_set()) =~= s.keys.to_set());
    } else {
        let keys = s.keys;
        let (i, rr) = lfu_victim(s.counters, s.decays, rng, samples, now, decay_time);
        let ns = if samples < s.counters.len() { samples as nat } else { s.counters.len() };
        lemma_lfu_pick_range(s.counters, s.decays, rng, ns, now, decay_time, 0, 0);
        let s2 = lfu_drop(s, i);
        let k2 = s2.keys;
        lemma_lfu_drop(s, i, now);
        lemma_swap_remove_set(keys, i);
        lemma_lfu_evict(s2, rr, bytes - s.sizes[i], cap, samples, now, decay_time);
        let rest = lfu_evict(s2, rr, bytes - s.sizes[i], cap, samples, now, decay_time);
        let ev = seq![keys[i]] + rest.3;
        assert forall|j: int| 0 <= j < ev.len() implies keys.contains(#[trigger] ev[j]) by {
            if j > 0 {
                assert(ev[j] == rest.3[j - 1]);
                assert(k2.to_set().contains(rest.3[j - 1]));
            }
        }
        assert forall|a: int, b: int| 0 <= a < ev.len() && 0 <= b < ev.len() && a != b implies ev[a]
            != ev[b] by {
            if a == 0 && b > 0 {
                assert(ev[b] == rest.3[b - 1]);
                assert(k2.to_set().contains(rest.3[b - 1]));
            } else if b == 0 && a > 0 {
                assert(ev[a] == rest.3[a - 1]);
                assert(k2.to_set().contains(rest.3[a - 1]));
            } else if a > 0 && b > 0 {
                assert(ev[a] == rest.3[a - 1]);
                assert(ev[b] == rest.3[b - 1]);
            }
        }
        assert forall|x: u64| #[trigger] rest.0.keys.to_set().contains(x) <==> keys.to_set().difference(
            ev.to_set(),
        ).contains(x) by {
            if ev.to_set().contains(x) {
                let j = choose|j: int| 0 <= j < ev.len() && ev[j] == x;
                if j > 0 {
                    assert(rest.3.contains(x));
                    assert(rest.3.to_set().contains(x));
                }
            }
            if rest.3.to_set().contains(x) {
                let j = choose|j: int| 0 <= j < rest.3.len() && rest.3[j] == x;
                assert(ev[j + 1] == x);
                assert(ev.contains(x));
            }
            if x == keys[i] {
                assert(ev[0] == x);
                assert(ev.contains(x));
            }
        }
        assert(rest.0.keys.to_set() =~= keys.to_set().difference(ev.to_set()));
    }
}

/// allkeys-lfu. Time `t` is counted in `time_scale` units per minute;
/// counters lose one per `decay_time` idle minutes.
pub struct AllkeysLfu {
    capacity_bytes: u64,
    resident_bytes: u64,
    samples: usize,
    log_factor: u64,
    decay_time: u64,
    time_scale: u64,
    table: SlotTable,
    value_size: Vec<u64>,
    counter: Vec<u8>,
    last_decay_time: Vec<u64>,
    rng: u64,
}

impl AllkeysLfu {
    pub closed spec fn tables(&self) -> LfuTables {
        LfuTables {
            keys: self.table.keys(),
            sizes: self.value_size@,
            counters: self.counter@,
            decays: self.last_decay_time@,
        }
    }

    pub closed spec fn rng_state(&self) -> u64 {
        self.rng
    }

    pub closed spec fn resident_bytes(&self) -> u64 {
        self.resident_bytes
    }

    pub closed spec fn capacity_bytes(&self) -> u64 {
        self.capacity_bytes
    }

    /// The fixed parameters: samples, log factor, decay time, time scale.
    pub closed spec fn params(&self) -> (usize, u64, u64, u64) {
        (self.samples, self.log_factor, self.decay_time, self.time_scale)
    }

    /// The minute of time `t`.
    pub open spec fn minute_of(&self, t: u64) -> u64 {
        (t / self.params().3) as u64
    }

    closed spec fn params_ok(&self) -> bool {
        &&& self.time_scale > 0
        &&& 249 * self.log_factor + 1 <= u64::MAX
    }

    closed spec fn tables_ok(&self) -> bool {
        &&& self.table.wf()
        &&& self.value_size@.len() == self.table.keys().len()
        &&& self.counter@.len() == self.table.keys().len()
        &&& self.last_decay_time@.len() == self.table.keys().len()
        &&& self.resident_bytes == sum_seq(self.value_size@)
        &&& self.params_ok()
    }

    closed spec fn minutes_below(&self, now: u64) -> bool {
        forall|i: int| 0 <= i < self.last_decay_time@.len() ==> self.last_decay_time@[i] <= now
    }

    /// An empty cache with budget `capacity_bytes`, `samples` samples per
    /// eviction, the given counter log factor, decay period (minutes) and
    /// time units per minute; the generator starts at `seed | 1`.
    pub fn new(
        capacity_bytes: u64,
        samples: usize,
        log_factor: u64,
        decay_time: u64,
        time_scale: u64,
        seed: u64,
    ) -> (r: Self)
        requires
            time_scale > 0,
            249 * log_factor + 1 <= u64::MAX,
        ensures
            r.model() == (
                LfuTables {
                    keys: Seq::<u64>::empty(),
                    sizes: Seq::<u64>::empty(),
                    counters: Seq::<u8>::empty(),
                    decays: Seq::<u64>::empty(),
                },
                seed | 1,
                0int,
                capacity_bytes,
                (samples, log_factor, decay_time, time_scale),
            ),
            r.capacity() == capacity_bytes as int,
            r.bytes() == 0,
            r.resident() == Set::<u64>::empty(),
            r.clock_ok(0),
            r.takes_all(),
            r.wf(),
            r.tables().keys == Seq::<u64>::empty(),
            r.resident_bytes() == 0,
            r.capacity_bytes() == capacity_bytes,
            r.params() == (samples, log_factor, decay_time, time_scale),
            r.rng_state() == seed | 1,
            r.settled(),
            r.footprint() == 0,
            r.clock_ok(0),
    {
        AllkeysLfu {
            capacity_bytes,
            resident_bytes: 0,
            samples,
            log_factor,
            decay_time,
            time_scale,
            table: SlotTable::new(),
            value_size: Vec::new(),
            counter: Vec::new(),
            last_decay_time: Vec::new(),
            rng: seed | 1,
        }
    }

    fn minutes(&self, t: u64) -> (r: u64)
        requires
            self.params_ok(),
        ensures
            r == self.minute_of(t),
    {
        t / self.time_scale
    }

    fn decayed_counter(&self, idx: usize, minutes_now: u64) -> (r: u8)
        requires
            self.tables_ok(),
            self.minutes_below(minutes_now),
            idx < self.table.keys().len(),
        ensures
            r == decayed(self.counter@[idx as int], self.last_decay_time@[idx as int], minutes_now, self.decay_time),
    {
        if self.decay_time == 0 {
            return self.counter[idx];
        }
        let elapsed = minutes_now - self.last_decay_time[idx];
        let steps = elapsed / self.decay_time;
        let periods: u8 = if steps > 255 { 255 } else { steps as u8 };
        self.counter[idx].saturating_sub(periods)
    }

    /// Samples `min(samples, n)` slots and evicts the one with the lowest
    /// decayed counter (the first such sample wins ties); none when empty.
    fn evict_one(&mut self, t: u64) -> (r: Option<u64>)
        requires
            old(self).tables_ok(),
            old(self).minutes_below(old(self).minute_of(t)),
        ensures
            final(self).tables_ok(),
            final(self).minutes_below(final(self).minute_of(t)),
            final(self).params() == old(self).params(),
            final(self).capacity_bytes == old(self).capacity_bytes,
            old(self).tables().keys.len() == 0 ==> r is None && *final(self) == *old(self),
            old(self).tables().keys.len() > 0 ==> {
                let (i, rr) = lfu_victim(
                    old(self).counter@,
                    old(self).last_decay_time@,
                    old(self).rng,
                    old(self).samples,
                    old(self).minute_of(t),
                    old(self).decay_time,
                );
                &&& 0 <= i < old(self).tables().keys.len()
                &&& r == Some(old(self).tables().keys[i])
                &&& final(self).tables() == lfu_drop(old(self).tables(), i)
                &&& final(self).rng == rr
                &&& final(self).resident_bytes == old(self).resident_bytes - old(self).value_size@[i]
            },
    {
        let n = self.table.len();
        if n == 0 {
            return None;
        }
        let ns = if self.samples < n { self.samples } else { n };
        let minutes_now = self.minutes(t);
        let mut best_idx: usize = 0;
        let mut best_score: u64 = 0;
        let ghost target = lfu_victim(
            self.counter@,
            self.last_decay_time@,
            self.rng,
            self.samples,
            minutes_now,
            self.decay_time,
        );
        let mut j: usize = 0;
        while j < ns
            invariant
                self.tables_ok(),
                self.minutes_below(minutes_now),
                minutes_now == self.minute_of(t),
                self.table.keys().len() == n,
                n > 0,
                self.capacity_bytes == old(self).capacity_bytes,
                self.samples == old(self).samples,
                self.log_factor == old(self).log_factor,
                self.decay_time == old(self).decay_time,
                self.time_scale == old(self).time_scale,
                self.table == old(self).table,
                self.value_size == old(self).value_size,
                self.counter == old(self).counter,
                self.last_decay_time == old(self).last_decay_time,
                self.resident_bytes == old(self).resident_bytes,
                j <= ns,
                ns == (if self.samples < n { self.samples } else { n }),
                best_idx < n,
                lfu_pick(
                    self.counter@,
                    self.last_decay_time@,
                    self.rng,
                    (ns - j) as nat,
                    minutes_now,
                    self.decay_time,
                    best_idx as int,
                    best_score as int,
                ) == target,
            decreases ns - j,
        {
            let i = (xorshift(&mut self.rng) as usize) % n;
            let decayed = self.decayed_counter(i, minutes_now);
            let score = 255 - decayed as u64;
            if score > best_score {
                best_score = score;
                best_idx = i;
            }
            j = j + 1;
        }
        proof {
            self.table.lemma_no_duplicates();
            lemma_lfu_drop(self.tables(), best_idx as int, minutes_now);
        }
        self.resident_bytes = self.resident_bytes - self.value_size[best_idx];
        let victim_key = self.table.swap_remove(best_idx);
        vec_swap_remove(&mut self.value_size, best_idx);
        vec_swap_remove(&mut self.counter, best_idx);
        vec_swap_remove(&mut self.last_decay_time, best_idx);
        Some(victim_key)
    }

    /// Decays the counter of slot `idx`, stamps it with the current minute,
    /// and maybe adds one to it.
    fn lfu_increment(&mut self, idx: usize, minutes_now: u64)
        requires
            old(self).tables_ok(),
            old(self).minutes_below(minutes_now),
            idx < old(self).tables().keys.len(),
        ensures
            final(self).tables_ok(),
            final(self).minutes_below(minutes_now),
            final(self).params() == old(self).params(),
            final(self).capacity_bytes == old(self).capacity_bytes,
            final(self).resident_bytes == old(self).resident_bytes,
            ({
                let (c, r) = lfu_bump(
                    old(self).counter@[idx as int],
                    old(self).last_decay_time@[idx as int],
                    old(self).rng,
                    minutes_now,
                    old(self).decay_time,
                    old(self).log_factor,
                );
                &&& final(self).tables() == LfuTables {
                    counters: old(self).counter@.update(idx as int, c),
                    decays: old(self).last_decay_time@.update(idx as int, minutes_now),
                    ..old(self).tables()
                }
                &&& final(self).rng == r
            }),
    {
        let elapsed = minutes_now - self.last_decay_time[idx];
        if self.decay_time > 0 {
            let steps = elapsed / self.decay_time;
            let periods: u8 = if steps > 255 { 255 } else { steps as u8 };
            let c0 = self.counter[idx].saturating_sub(periods);
            self.counter.set(idx, c0);
        }
        self.last_decay_time.set(idx, minutes_now);
        let c = self.counter[idx];
        if c < 255 {
            let base: u64 = if c > 5 { (c - 5) as u64 } else { 0 };
            proof {
                let lf = self.log_factor;
                assert(base * lf <= 249 * lf) by (nonlinear_arith)
                    requires
                        base <= 249,
                ;
            }
            let p_denom = base * self.log_factor + 1;
            if xorshift(&mut self.rng) % p_denom == 0 {
                self.counter.set(idx, c + 1);
            }
        }
        proof {
            assert(self.counter@ =~= old(self).counter@.update(idx as int, self.counter@[idx as int]));
        }
    }

    fn insert_new(&mut self, key: u64, value_size: u64, minutes_now: u64)
        requires
            old(self).tables_ok(),
            old(self).minutes_below(minutes_now),
            !old(self).tables().keys.contains(key),
            old(self).resident_bytes + value_size <= u64::MAX,
        ensures
            final(self).tables_ok(),
            final(self).minutes_below(minutes_now),
            final(self).tables() == (LfuTables {
                keys: old(self).tables().keys.push(key),
                sizes: old(self).tables().sizes.push(value_size),
                counters: old(self).tables().counters.push(LFU_INIT_VAL),
                decays: old(self).tables().decays.push(minutes_now),
            }),
            final(self).resident_bytes == old(self).resident_bytes + value_size,
            final(self).rng == old(self).rng,
            final(self).capacity_bytes == old(self).capacity_bytes,
            final(self).params() == old(self).params(),
    {
        self.table.push(key);
        self.value_size.push(value_size);
        self.counter.push(LFU_INIT_VAL);
        self.last_decay_time.push(minutes_now);
        proof {
            lemma_sum_push(old(self).value_size@, value_size);
        }
        self.resident_bytes = self.resident_bytes + value_size;
    }

    /// Evicts until the budget is met; hands back the evicted keys in order.
    fn evict_to_budget(&mut self, t: u64) -> (evicted: Vec<u64>)
        requires
            old(self).tables_ok(),
            old(self).minutes_below(old(self).minute_of(t)),
        ensures
            final(self).tables_ok(),
            final(self).minutes_below(final(self).minute_of(t)),
            final(self).capacity_bytes == old(self).capacity_bytes,
            final(self).params() == old(self).params(),
            ({
                let r = lfu_evict(
                    old(self).tables(),
                    old(self).rng,
                    old(self).resident_bytes as int,
                    old(self).capacity_bytes as int,
                    old(self).samples,
                    old(self).minute_of(t),
                    old(self).decay_time,
                );
                &&& final(self).tables() == r.0
                &&& final(self).rng == r.1
                &&& final(self).resident_bytes == r.2
                &&& evicted@ == r.3
            }),
    {
        let mut evicted: Vec<u64> = Vec::new();
        let ghost start = lfu_evict(
            self.tables(),
            self.rng,
            self.resident_bytes as int,
            self.capacity_bytes as int,
            self.samples,
            self.minute_of(t),
            self.decay_time,
        );
        while self.resident_bytes > self.capacity_bytes
            invariant_except_break
                self.tables_ok(),
                self.minutes_below(self.minute_of(t)),
                self.capacity_bytes == old(self).capacity_bytes,
                self.params() == old(self).params(),
                ({
                    let r = lfu_evict(
                        self.tables(),
                        self.rng,
                        self.resident_bytes as int,
                        self.capacity_bytes as int,
                        self.samples,
                        self.minute_of(t),
                        self.decay_time,
                    );
                    &&& start.0 == r.0
                    &&& start.1 == r.1
                    &&& start.2 == r.2
                    &&& start.3 == evicted@ + r.3
                }),
            ensures
                self.tables_ok(),
                self.minutes_below(self.minute_of(t)),
                self.capacity_bytes == old(self).capacity_bytes,
                self.params() == old(self).params(),
                start.0 == self.tables(),
                start.1 == self.rng,
                start.2 == self.resident_bytes,
                start.3 == evicted@,
            decreases self.tables().keys.len(),
        {
            let ghost pre = *self;
            let ghost pre_ev = evicted@;
            if let Some(v) = self.evict_one(t) {
                evicted.push(v);
                proof {
                    let (i, rr) = lfu_victim(
                        pre.counter@,
                        pre.last_decay_time@,
                        pre.rng,
                        pre.samples,
                        pre.minute_of(t),
                        pre.decay_time,
                    );
                    let r = lfu_evict(
                        self.tables(),
                        self.rng,
                        self.resident_bytes as int,
                        self.capacity_bytes as int,
                        self.samples,
                        self.minute_of(t),
                        self.decay_time,
                    );
                    assert(pre_ev + (seq![pre.tables().keys[i]] + r.3) =~= evicted@ + r.3);
                }
            } else {
                proof {
                    lemma_sum_nonneg(self.value_size@);
                    assert(self.value_size@ =~= Seq::<u64>::empty());
                }
                break;
            }
        }
        proof {
            if self.resident_bytes <= self.capacity_bytes {
                assert(evicted@ + Seq::<u64>::empty() =~= evicted@);
            }
        }
        evicted
    }
}

impl EvictionPolicy for AllkeysLfu {
    type Model = (LfuTables, u64, int, u64, (usize, u64, u64, u64));

    /// Tables, generator state, resident bytes, budget, parameters.
    open spec fn model(&self) -> Self::Model {
        (self.tables(), self.rng_state(), self.resident_bytes() as int, self.capacity_bytes(), self.params())
    }

    open spec fn model_resident(m: Self::Model) -> Set<u64> {
        m.0.keys.to_set()
    }

    open spec fn model_touch(m: Self::Model, key: u64, t: u64) -> Self::Model {
        if m.0.keys.contains(key) {
            let i = m.0.keys.index_of(key);
            let now = (t / m.4.3) as u64;
            let (c, r) = lfu_bump(m.0.counters[i], m.0.decays[i], m.1, now, m.4.2, m.4.1);
            (
                LfuTables { counters: m.0.counters.update(i, c), decays: m.0.decays.update(i, now), ..m.0 },
                r,
                m.2,
                m.3,
                m.4,
            )
        } else {
            m
        }
    }

    open spec fn model_bytes(m: Self::Model) -> int {
        m.2
    }

    open spec fn model_remove(m: Self::Model, key: u64) -> Self::Model {
        if m.0.keys.contains(key) {
            let i = m.0.keys.index_of(key);
            (lfu_drop(m.0, i), m.1, m.2 - m.0.sizes[i], m.3, m.4)
        } else {
            m
        }
    }

    open spec fn model_admits(m: Self::Model, key: u64, value_size: u64) -> bool {
        m.3 > 0 && value_size <= m.3 && !m.0.keys.contains(key)
    }

    open spec fn model_admit(m: Self::Model, key: u64, value_size: u64, t: u64) -> (Self::Model, Seq<u64>) {
        if Self::model_admits(m, key, value_size) {
            let now = (t / m.4.3) as u64;
            let r = lfu_evict(
                LfuTables {
                    keys: m.0.keys.push(key),
                    sizes: m.0.sizes.push(value_size),
                    counters: m.0.counters.push(LFU_INIT_VAL),
                    decays: m.0.decays.push(now),
                },
                m.1,
                m.2 + value_size,
                m.3 as int,
                m.4.0,
                now,
                m.4.2,
            );
            ((r.0, r.1, r.2, m.3, m.4), r.3)
        } else {
            (m, Seq::empty())
        }
    }

    closed spec fn wf(&self) -> bool {
        &&& self.tables_ok()
        &&& self.resident_bytes <= self.capacity_bytes
    }

    closed spec fn resident(&self) -> Set<u64> {
        self.table.keys().to_set()
    }

    closed spec fn bytes(&self) -> int {
        self.resident_bytes as int
    }

    closed spec fn capacity(&self) -> int {
        self.capacity_bytes as int
    }

    closed spec fn settled(&self) -> bool {
        true
    }

    closed spec fn admits(&self, key: u64, value_size: u64) -> bool {
        &&& self.capacity_bytes > 0
        &&& value_size <= self.capacity_bytes
        &&& !self.table.keys().contains(key)
    }

    closed spec fn clock_ok(&self, t: u64) -> bool {
        self.minutes_below(self.minute_of(t))
    }

    closed spec fn access_ok(&self, key: u64, value_size: u64) -> bool {
        self.admits(key, value_size) ==> self.resident_bytes + value_size <= u64::MAX
    }

    open spec fn remove_ok(&self, key: u64) -> bool {
        true
    }

    closed spec fn footprint(&self) -> int {
        self.table.keys().len() as int
    }

    proof fn lemma_wf(&self) {
        self.table.lemma_no_duplicates();
        self.table.keys().unique_seq_to_set();
        vstd::seq_lib::seq_to_set_is_finite(self.table.keys());
    }

    proof fn lemma_admits(&self, key: u64, value_size: u64) {
    }

    open spec fn takes_all(&self) -> bool {
        true
    }

    proof fn lemma_takes_all(&self, key: u64, value_size: u64) {
    }

    proof fn lemma_clock(&self, t1: u64, t2: u64) {
        vstd::arithmetic::div_mod::lemma_div_is_ordered(t1 as int, t2 as int, self.time_scale as int);
    }

    proof fn lemma_access_ok(&self, key: u64, value_size: u64) {
    }

    fn access(&mut self, key: u64, value_size: u64, t: u64) -> (hit: bool)
        ensures
            !hit && !old(self).admits(key, value_size) ==> *final(self) == *old(self),
            hit ==> exists|i: int|
                0 <= i < old(self).tables().keys.len() && old(self).tables().keys[i] == key && {
                    let (c, r) = lfu_bump(
                        old(self).tables().counters[i],
                        old(self).tables().decays[i],
                        old(self).rng_state(),
                        old(self).minute_of(t),
                        old(self).params().2,
                        old(self).params().1,
                    );
                    &&& final(self).tables() == LfuTables {
                        counters: old(self).tables().counters.update(i, c),
                        decays: old(self).tables().decays.update(i, old(self).minute_of(t)),
                        ..old(self).tables()
                    }
                    &&& final(self).rng_state() == r
                    &&& final(self).resident_bytes() == old(self).resident_bytes()
                },
            !hit && old(self).admits(key, value_size) ==> {
                let now = old(self).minute_of(t);
                let r = lfu_evict(
                    LfuTables {
                        keys: old(self).tables().keys.push(key),
                        sizes: old(self).tables().sizes.push(value_size),
                        counters: old(self).tables().counters.push(LFU_INIT_VAL),
                        decays: old(self).tables().decays.push(now),
                    },
                    old(self).rng_state(),
                    old(self).resident_bytes() + value_size,
                    old(self).capacity_bytes() as int,
                    old(self).params().0,
                    now,
                    old(self).params().2,
                );
                &&& final(self).tables() == r.0
                &&& final(self).rng_state() == r.1
                &&& final(self).resident_bytes() == r.2
            },
            final(self).capacity_bytes() == old(self).capacity_bytes(),
            final(self).params() == old(self).params(),
    {
        proof {
            self.table.lemma_no_duplicates();
        }
        let minutes_now = self.minutes(t);
        if let Some(idx) = self.table.find(key) {
            self.lfu_increment(idx, minutes_now);
            proof {
                assert(old(self).tables().keys[idx as int] == key);
            }
            return true;
        }
        if value_size > self.capacity_bytes || self.capacity_bytes == 0 {
            return false;
        }
        self.insert_new(key, value_size, minutes_now);
        let _ = self.evict_to_budget(t);
        proof {
            lemma_push_set(old(self).tables().keys, key);
            lemma_lfu_evict(
                LfuTables {
                    keys: old(self).tables().keys.push(key),
                    sizes: old(self).tables().sizes.push(value_size),
                    counters: old(self).tables().counters.push(LFU_INIT_VAL),
                    decays: old(self).tables().decays.push(minutes_now),
                },
                old(self).rng,
                old(self).resident_bytes + value_size,
                self.capacity_bytes as int,
                self.samples,
                minutes_now,
                self.decay_time,
            );
        }
        false
    }

    fn contains(&self, key: u64) -> (r: bool) {
        self.table.find(key).is_some()
    }

    fn touch(&mut self, key: u64, t: u64)
        ensures
            !old(self).tables().keys.contains(key) ==> *final(self) == *old(self),
            old(self).tables().keys.contains(key) ==> exists|i: int|
                0 <= i < old(self).tables().keys.len() && old(self).tables().keys[i] == key && {
                    let (c, r) = lfu_bump(
                        old(self).tables().counters[i],
                        old(self).tables().decays[i],
                        old(self).rng_state(),
                        old(self).minute_of(t),
                        old(self).params().2,
                        old(self).params().1,
                    );
                    &&& final(self).tables() == LfuTables {
                        counters: old(self).tables().counters.update(i, c),
                        decays: old(self).tables().decays.update(i, old(self).minute_of(t)),
                        ..old(self).tables()
                    }
                    &&& final(self).rng_state() == r
                },
            final(self).resident_bytes() == old(self).resident_bytes(),
            final(self).capacity_bytes() == old(self).capacity_bytes(),
            final(self).params() == old(self).params(),
    {
        let minutes_now = self.minutes(t);
        if let Some(idx) = self.table.find(key) {
            self.lfu_increment(idx, minutes_now);
            proof {
                assert(old(self).tables().keys[idx as int] == key);
                old(self).table.lemma_no_duplicates();
                let ks = old(self).tables().keys;
                assert(ks.contains(key));
                assert(ks.index_of(key) == idx as int);
            }
        }
    }

    fn admit_entry(&mut self, key: u64, value_size: u64, t: u64) -> (evicted: Vec<u64>)
        ensures
            !old(self).admits(key, value_size) ==> *final(self) == *old(self),
            old(self).admits(key, value_size) ==> {
                let now = old(self).minute_of(t);
                let r = lfu_evict(
                    LfuTables {
                        keys: old(self).tables().keys.push(key),
                        sizes: old(self).tables().sizes.push(value_size),
                        counters: old(self).tables().counters.push(LFU_INIT_VAL),
                        decays: old(self).tables().decays.push(now),
                    },
                    old(self).rng_state(),
                    old(self).resident_bytes() + value_size,
                    old(self).capacity_bytes() as int,
                    old(self).params().0,
                    now,
                    old(self).params().2,
                );
                &&& final(self).tables() == r.0
                &&& final(self).rng_state() == r.1
                &&& final(self).resident_bytes() == r.2
                &&& evicted@ == r.3
            },
            final(self).capacity_bytes() == old(self).capacity_bytes(),
            final(self).params() == old(self).params(),
    {
        proof {
            self.table.lemma_no_duplicates();
        }
        let evicted: Vec<u64> = Vec::new();
        if value_size > self.capacity_bytes || self.capacity_bytes == 0 {
            return evicted;
        }
        if self.table.find(key).is_some() {
            return evicted;
        }
        let minutes_now = self.minutes(t);
        self.insert_new(key, value_size, minutes_now);
        let evicted = self.evict_to_budget(t);
        proof {
            lemma_push_set(old(self).tables().keys, key);
            lemma_lfu_evict(
                LfuTables {
                    keys: old(self).tables().keys.push(key),
                    sizes: old(self).tables().sizes.push(value_size),
                    counters: old(self).tables().counters.push(LFU_INIT_VAL),
                    decays: old(self).tables().decays.push(minutes_now),
                },
                old(self).rng,
                old(self).resident_bytes + value_size,
                self.capacity_bytes as int,
                self.samples,
                minutes_now,
                self.decay_time,
            );
        }
        evicted
    }

    fn remove(&mut self, key: u64)
        ensures
            !old(self).tables().keys.contains(key) ==> *final(self) == *old(self),
            old(self).tables().keys.contains(key) ==> exists|i: int|
                0 <= i < old(self).tables().keys.len() && old(self).tables().keys[i] == key
                    && final(self).tables() == lfu_drop(old(self).tables(), i)
                    && final(self).resident_bytes() == old(self).resident_bytes() - old(
                    self,
                ).tables().sizes[i],
            final(self).rng_state() == old(self).rng_state(),
            final(self).capacity_bytes() == old(self).capacity_bytes(),
            final(self).params() == old(self).params(),
    {
        proof {
            self.table.lemma_no_duplicates();
        }
        if let Some(idx) = self.table.find(key) {
            proof {
                lemma_sum_swap_remove(self.value_size@, idx as int);
                lemma_sum_elem(self.value_size@, idx as int);
                lemma_swap_remove_set(self.table.keys(), idx as int);
                let n = self.last_decay_time@.len();
                let d2 = swap_remove_seq(self.last_decay_time@, idx as int);
                assert forall|m: u64| old(self).minutes_below(m) implies forall|k: int|
                    0 <= k < d2.len() ==> d2[k] <= m by {
                    assert forall|k: int| 0 <= k < d2.len() implies d2[k] <= m by {
                        if k == idx {
                            assert(self.last_decay_time@[n - 1] <= m);
                        } else {
                            assert(self.last_decay_time@[k] <= m);
                        }
                    }
                }
            }
            self.resident_bytes = self.resident_bytes - self.value_size[idx];
            self.table.swap_remove(idx);
            vec_swap_remove(&mut self.value_size, idx);
            vec_swap_remove(&mut self.counter, idx);
            vec_swap_remove(&mut self.last_decay_time, idx);
            proof {
                assert(old(self).tables().keys[idx as int] == key);
                assert(self.tables() == lfu_drop(old(self).tables(), idx as int));
            }
        } else {
            proof {
                assert(self.table.keys().to_set().remove(key) =~= self.table.keys().to_set());
            }
        }
    }
}

} // verus!
