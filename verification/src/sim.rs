//! Two-tier simulation: DRAM managed by an eviction policy, flash of
//! unbounded size below it, with admission and promotion policies deciding
//! what moves between them.
use vstd::prelude::*;
use rustc_hash::FxHashSet;
use crate::admission::AdmissionPolicy;
use crate::churn::{ChurnStats, repeated_keys};
use crate::eviction::{EvictionPolicy, room_limit};
use crate::fxmap::{fx_set_new, fx_set_insert, fx_set_remove, fx_set_contains};
use crate::promotion::PromotionPolicy;

verus! {

/// How DRAM is budgeted.
#[derive(Clone, Copy, PartialEq, Eq, Debug)]
pub enum SpillMode {
    /// Keys and values compete for DRAM; an evicted entry frees both.
    KeySpilling,
    /// Keys always stay in DRAM; only values are managed by the policy.
    NoKeySpilling,
}

impl SpillMode {
    pub fn label(&self) -> (s: &'static str)
        ensures
            *self is KeySpilling ==> s@ == "key-spilling"@,
            *self is NoKeySpilling ==> s@ == "no-key-spilling"@,
    {
        match self {
            SpillMode::KeySpilling => "key-spilling",
            SpillMode::NoKeySpilling => "no-key-spilling",
        }
    }
}

/// A request trace: per access, the key id and the key and value sizes of
/// the request; and the totals over distinct keys (each at its first size).
pub struct Trace {
    pub workload: String,
    pub keys: Vec<u64>,
    pub key_sizes: Vec<u64>,
    pub value_sizes: Vec<u64>,
    pub total_key_bytes: u64,
    pub total_value_bytes: u64,
    pub total_bytes: u64,
    pub n_unique: usize,
}

/// The counts a simulation run produces.
pub struct SimCounts {
    /// Measured accesses that missed both tiers.
    pub obj_miss: u64,
    /// Value bytes of those misses.
    pub byte_miss: u64,
    /// Accesses measured (all, or all but first touches).
    pub measured: u64,
    /// Value bytes of the measured accesses.
    pub measured_bytes: u64,
    /// Accesses served from flash.
    pub flash_hits: u64,
    /// Flash hits promoted to DRAM.
    pub promotions: u64,
    /// Keys evicted from DRAM to flash.
    pub evictions: u64,
    pub keys_ever_evicted: u64,
    pub keys_ever_promoted: u64,
    pub max_evictions_per_key: u64,
    pub max_promotions_per_key: u64,
    pub keys_evicted_gt1: u64,
    pub keys_promoted_gt1: u64,
}

/// Access `i` repeats a key seen earlier in the trace.
pub open spec fn is_repeat(keys: Seq<u64>, i: int) -> bool {
    keys.subrange(0, i).contains(keys[i])
}

/// Whether access `i` is measured.
pub open spec fn is_measured(keys: Seq<u64>, i: int, include_first_touch: bool) -> bool {
    include_first_touch || is_repeat(keys, i)
}

/// The number of measured accesses among the first `n`.
pub open spec fn measured_count(keys: Seq<u64>, n: int, include_first_touch: bool) -> int
    decreases n,
{
    if n <= 0 {
        0
    } else {
        measured_count(keys, n - 1, include_first_touch) + (if is_measured(
            keys,
            n - 1,
            include_first_touch,
        ) {
            1int
        } else {
            0int
        })
    }
}

/// The value bytes of the measured accesses among the first `n`.
pub open spec fn measured_value_bytes(keys: Seq<u64>, vals: Seq<u64>, n: int, include_first_touch: bool) -> int
    decreases n,
{
    if n <= 0 {
        0
    } else {
        measured_value_bytes(keys, vals, n - 1, include_first_touch) + (if is_measured(
            keys,
            n - 1,
            include_first_touch,
        ) {
            vals[n - 1] as int
        } else {
            0int
        })
    }
}

/// The total of `sizes` over the first occurrence of each key among the
/// first `n` accesses.
pub open spec fn first_total(keys: Seq<u64>, sizes: Seq<u64>, n: int) -> int
    decreases n,
{
    if n <= 0 {
        0
    } else {
        first_total(keys, sizes, n - 1) + (if is_repeat(keys, n - 1) {
            0
        } else {
            sizes[n - 1] as int
        })
    }
}

/// The number of distinct keys among the first `n` accesses.
pub open spec fn distinct_count(keys: Seq<u64>, n: int) -> int
    decreases n,
{
    if n <= 0 {
        0
    } else {
        distinct_count(keys, n - 1) + (if is_repeat(keys, n - 1) {
            0int
        } else {
            1int
        })
    }
}

pub proof fn lemma_first_total_mono(keys: Seq<u64>, sizes: Seq<u64>, a: int, b: int)
    requires
        0 <= a <= b,
    ensures
        0 <= first_total(keys, sizes, a) <= first_total(keys, sizes, b),
    decreases b,
{
    if b > a {
        lemma_first_total_mono(keys, sizes, a, b - 1);
    } else if a > 0 {
        lemma_first_total_mono(keys, sizes, a - 1, a - 1);
    }
}

pub proof fn lemma_measured_bounds(keys: Seq<u64>, vals: Seq<u64>, a: int, b: int, inc: bool)
    requires
        0 <= a <= b,
    ensures
        measured_value_bytes(keys, vals, a, inc) <= measured_value_bytes(keys, vals, b, inc),
        0 <= measured_count(keys, a, inc) <= a,
        0 <= measured_value_bytes(keys, vals, a, inc),
    decreases b,
{
    if b > a {
        lemma_measured_bounds(keys, vals, a, b - 1, inc);
    } else if a > 0 {
        lemma_measured_bounds(keys, vals, a - 1, a - 1, inc);
    }
}

/// The DRAM bytes that stay outside the policy's budget: the spill index
/// entry of every key (key spilling), or every key (no key spilling).
pub open spec fn reserved_bytes(trace: Trace, mode: SpillMode, key_spill_overhead: u64) -> int {
    match mode {
        SpillMode::KeySpilling => key_spill_overhead * trace.n_unique,
        SpillMode::NoKeySpilling => trace.total_key_bytes as int,
    }
}

/// The policy's budget out of `cap_bytes` of DRAM: what the reserved bytes
/// leave, or 0.
pub open spec fn policy_cap_spec(trace: Trace, cap_bytes: u64, mode: SpillMode, key_spill_overhead: u64) -> int {
    let reserved = reserved_bytes(trace, mode, key_spill_overhead);
    if cap_bytes >= reserved {
        cap_bytes - reserved
    } else {
        0
    }
}

/// The totals of `trace` are those of its accesses: each key counted once,
/// at its first sizes.
pub open spec fn totals_exact(trace: Trace) -> bool {
    let n = trace.keys@.len() as int;
    &&& trace.key_sizes@.len() == n
    &&& trace.value_sizes@.len() == n
    &&& trace.total_key_bytes == first_total(trace.keys@, trace.key_sizes@, n)
    &&& trace.total_value_bytes == first_total(trace.keys@, trace.value_sizes@, n)
    &&& trace.total_bytes == trace.total_key_bytes + trace.total_value_bytes
    &&& trace.n_unique == distinct_count(trace.keys@, n)
}

/// The DRAM budget the eviction policy gets out of `cap_bytes`: key-spilling
/// sets aside `key_spill_overhead` bytes of index per distinct key;
/// no-key-spilling sets aside all key bytes. Never below zero.
pub fn policy_capacity(trace: &Trace, cap_bytes: u64, mode: SpillMode, key_spill_overhead: u64) -> (r: u64)
    requires
        mode is KeySpilling ==> key_spill_overhead * trace.n_unique <= u64::MAX,
    ensures
        r == policy_cap_spec(*trace, cap_bytes, mode, key_spill_overhead),
{
    match mode {
        SpillMode::KeySpilling => cap_bytes.saturating_sub(key_spill_overhead * trace.n_unique as u64),
        SpillMode::NoKeySpilling => cap_bytes.saturating_sub(trace.total_key_bytes),
    }
}

/// The keys seen after one more access: those seen before and its key.
pub proof fn lemma_seen_step(keys: Seq<u64>, t: int)
    requires
        0 <= t < keys.len(),
    ensures
        keys.subrange(0, t + 1).to_set() == keys.subrange(0, t).to_set().insert(keys[t]),
{
    let k = keys[t];
    let s = keys.subrange(0, t);
    assert(keys.subrange(0, t + 1) =~= s.push(k));
    assert(s.push(k).to_set() =~= s.to_set().insert(k)) by {
        assert forall|x: u64| #[trigger] s.push(k).contains(x) <==> s.contains(x) || x == k by {
            if s.push(k).contains(x) {
                let j = choose|j: int| 0 <= j < s.push(k).len() && s.push(k)[j] == x;
                if j < s.len() {
                    assert(s[j] == x);
                }
            }
            if s.contains(x) {
                let j = choose|j: int| 0 <= j < s.len() && s[j] == x;
                assert(s.push(k)[j] == x);
            }
            if x == k {
                assert(s.push(k)[s.len() as int] == k);
            }
        }
    }
}

/// Whether `trace` is within the bounds a simulation run needs: its
/// columns agree in length, it has at most `u32::MAX` accesses (and fits
/// the slot bound), in key-spilling mode each key size plus value size fits
/// in `u64`, and so do the value bytes of the measured accesses.
pub fn trace_fits(trace: &Trace, mode: SpillMode, include_first_touch: bool) -> (r: bool)
    ensures
        r == {
            &&& trace.key_sizes@.len() == trace.keys@.len()
            &&& trace.value_sizes@.len() == trace.keys@.len()
            &&& trace.keys@.len() <= room_limit()
            &&& trace.keys@.len() <= u32::MAX
            &&& mode is KeySpilling ==> forall|i: int|
                0 <= i < trace.keys@.len() ==> trace.key_sizes@[i] + trace.value_sizes@[i] <= u64::MAX
            &&& measured_value_bytes(
                trace.keys@,
                trace.value_sizes@,
                trace.keys@.len() as int,
                include_first_touch,
            ) <= u64::MAX
        },
{
    let n = trace.keys.len();
    if trace.key_sizes.len() != n || trace.value_sizes.len() != n {
        return false;
    }
    if n > usize::MAX / 4 || n > 4294967295 {
        return false;
    }
    let ghost keys = trace.keys@;
    let ghost vals = trace.value_sizes@;
    let mut seen: FxHashSet<u64> = fx_set_new();
    let mut total: u64 = 0;
    let mut i: usize = 0;
    proof {
        assert(keys.subrange(0, 0).to_set() =~= Set::<u64>::empty());
    }
    while i < n
        invariant
            n == keys.len(),
            keys == trace.keys@,
            vals == trace.value_sizes@,
            trace.key_sizes@.len() == n,
            vals.len() == n,
            i <= n,
            seen@ == keys.subrange(0, i as int).to_set(),
            total == measured_value_bytes(keys, vals, i as int, include_first_touch),
            mode is KeySpilling ==> forall|j: int|
                0 <= j < i ==> trace.key_sizes@[j] + vals[j] <= u64::MAX,
        decreases n - i,
    {
        let k = trace.keys[i];
        if let SpillMode::KeySpilling = mode {
            if trace.key_sizes[i].checked_add(trace.value_sizes[i]).is_none() {
                return false;
            }
        }
        let first_touch = fx_set_insert(&mut seen, k);
        proof {
            lemma_seen_step(keys, i as int);
            lemma_measured_bounds(keys, vals, i as int + 1, n as int, include_first_touch);
        }
        if include_first_touch || !first_touch {
            match total.checked_add(trace.value_sizes[i]) {
                Some(v) => {
                    total = v;
                },
                None => {
                    return false;
                },
            }
        }
        i = i + 1;
    }
    true
}

/// Key spilling: over the first accesses of each key, the entries total the
/// key and value bytes less one spill index entry per key, when every
/// access's key and value outweigh that entry.
pub proof fn lemma_spill_entries_total(keys: Seq<u64>, ks: Seq<u64>, vs: Seq<u64>, kso: u64, t: int)
    requires
        ks.len() == keys.len(),
        vs.len() == keys.len(),
        0 <= t <= keys.len(),
        forall|i: int| #![trigger ks[i], vs[i]] 0 <= i < keys.len() ==> kso <= ks[i] + vs[i] <= u64::MAX,
    ensures
        first_total(keys, entry_sizes(ks, vs, SpillMode::KeySpilling, kso), t) == first_total(keys, ks, t)
            + first_total(keys, vs, t) - kso * distinct_count(keys, t),
    decreases t,
{
    if t > 0 {
        lemma_spill_entries_total(keys, ks, vs, kso, t - 1);
        let d = distinct_count(keys, t - 1);
        assert(kso * (d + 1) == kso * d + kso) by (nonlinear_arith);
        assert(kso <= ks[t - 1] + vs[t - 1] <= u64::MAX);
        assert(entry_sizes(ks, vs, SpillMode::KeySpilling, kso)[t - 1] == ks[t - 1] + vs[t - 1] - kso);
    }
}

/// At the bottom of a sweep, the reserved bytes alone, the policy gets no
/// budget.
pub proof fn lemma_sweep_bottom(trace: Trace, mode: SpillMode, key_spill_overhead: u64)
    requires
        mode is KeySpilling ==> key_spill_overhead * trace.n_unique <= u64::MAX,
    ensures
        policy_cap_spec(
            trace,
            reserved_bytes(trace, mode, key_spill_overhead) as u64,
            mode,
            key_spill_overhead,
        ) == 0,
{
}

/// At the top of a sweep, all of the trace's bytes, the policy's budget is
/// exactly the total of the entries at the first access of each key: every
/// entry fits. With key spilling this needs each key and value to outweigh
/// its spill index entry.
pub proof fn lemma_sweep_top(trace: Trace, mode: SpillMode, key_spill_overhead: u64)
    requires
        totals_exact(trace),
        mode is KeySpilling ==> forall|i: int|
            #![trigger trace.key_sizes@[i], trace.value_sizes@[i]]
            0 <= i < trace.keys@.len() ==> key_spill_overhead <= trace.key_sizes@[i]
                + trace.value_sizes@[i] <= u64::MAX,
    ensures
        first_total(
            trace.keys@,
            entry_sizes(trace.key_sizes@, trace.value_sizes@, mode, key_spill_overhead),
            trace.keys@.len() as int,
        ) == policy_cap_spec(trace, trace.total_bytes, mode, key_spill_overhead),
{
    let keys = trace.keys@;
    let n = keys.len() as int;
    let es = entry_sizes(trace.key_sizes@, trace.value_sizes@, mode, key_spill_overhead);
    match mode {
        SpillMode::KeySpilling => {
            lemma_spill_entries_total(keys, trace.key_sizes@, trace.value_sizes@, key_spill_overhead, n);
            lemma_first_total_mono(keys, es, n, n);
        },
        SpillMode::NoKeySpilling => {
            assert(es =~= trace.value_sizes@);
            lemma_first_total_mono(keys, trace.value_sizes@, n, n);
        },
    }
}

/// Counting first touches or not changes only what is measured: the
/// policies, the tiers, the flash hits, promotions and evictions, and the
/// per-key counts of a run are the same either way.
pub proof fn lemma_first_touch_counting<E: EvictionPolicy, P: PromotionPolicy, A: AdmissionPolicy>(
    start: SimState<E::Model, P::Model, A::Model>,
    keys: Seq<u64>,
    key_sizes: Seq<u64>,
    value_sizes: Seq<u64>,
    mode: SpillMode,
    key_spill_overhead: u64,
    n: int,
)
    ensures
        ({
            let a = sim_run::<E, P, A>(start, keys, key_sizes, value_sizes, mode, true, key_spill_overhead, n);
            let b = sim_run::<E, P, A>(start, keys, key_sizes, value_sizes, mode, false, key_spill_overhead, n);
            &&& a.policy == b.policy
            &&& a.promo == b.promo
            &&& a.admission == b.admission
            &&& a.flash == b.flash
            &&& a.seen == b.seen
            &&& a.flash_hits == b.flash_hits
            &&& a.promotions == b.promotions
            &&& a.evictions == b.evictions
            &&& a.evicted_counts == b.evicted_counts
            &&& a.promoted_counts == b.promoted_counts
        }),
    decreases n,
{
    if n > 0 {
        lemma_first_touch_counting::<E, P, A>(start, keys, key_sizes, value_sizes, mode, key_spill_overhead, n - 1);
    }
}

/// The DRAM capacities a sweep covers in `mode`: from the bytes that stay
/// in DRAM whatever the policy does (the spill index of every key, or every
/// key) up to the whole footprint of the trace.
pub fn capacity_range(trace: &Trace, mode: SpillMode, key_spill_overhead: u64) -> (r: (u64, u64))
    requires
        mode is KeySpilling ==> key_spill_overhead * trace.n_unique <= u64::MAX,
    ensures
        r.0 == reserved_bytes(*trace, mode, key_spill_overhead),
        r.1 == trace.total_bytes,
{
    match mode {
        SpillMode::KeySpilling => (key_spill_overhead * trace.n_unique as u64, trace.total_bytes),
        SpillMode::NoKeySpilling => (trace.total_key_bytes, trace.total_bytes),
    }
}

/// The size of access `i`'s entry under `mode`: key and value bytes less the
/// spill index overhead (not below zero), or the value bytes alone.
pub open spec fn entry_size(key_size: u64, value_size: u64, mode: SpillMode, key_spill_overhead: u64) -> u64 {
    match mode {
        SpillMode::KeySpilling => if key_size + value_size >= key_spill_overhead {
            (key_size + value_size - key_spill_overhead) as u64
        } else {
            0
        },
        SpillMode::NoKeySpilling => value_size,
    }
}

/// The DRAM entry size of each access.
pub open spec fn entry_sizes(key_sizes: Seq<u64>, value_sizes: Seq<u64>, mode: SpillMode, key_spill_overhead: u64) -> Seq<u64> {
    Seq::new(value_sizes.len(), |i: int| entry_size(key_sizes[i], value_sizes[i], mode, key_spill_overhead))
}

/// One more event for `key` in a count map.
pub open spec fn count_one(m: Map<u64, u32>, key: u64) -> Map<u64, u32> {
    m.insert(key, (if m.contains_key(key) { m[key] + 1 } else { 1 }) as u32)
}

/// One event for each key of `ks`, in order.
pub open spec fn count_all(m: Map<u64, u32>, ks: Seq<u64>) -> Map<u64, u32>
    decreases ks.len(),
{
    if ks.len() == 0 {
        m
    } else {
        count_one(count_all(m, ks.drop_last()), ks.last())
    }
}

/// The state of a simulation run over the abstract states of its policies.
pub struct SimState<M, PM, AM> {
    pub policy: M,
    pub promo: PM,
    pub admission: AM,
    /// The keys in flash.
    pub flash: Set<u64>,
    /// The keys accessed so far.
    pub seen: Set<u64>,
    pub obj_miss: int,
    pub byte_miss: int,
    pub measured: int,
    pub measured_bytes: int,
    pub flash_hits: int,
    pub promotions: int,
    pub evictions: int,
    /// How often each key was evicted.
    pub evicted_counts: Map<u64, u32>,
    /// How often each key was promoted.
    pub promoted_counts: Map<u64, u32>,
}

/// A run that has not started: empty flash, nothing seen or counted.
pub open spec fn sim_start<E: EvictionPolicy, P: PromotionPolicy, A: AdmissionPolicy>(
    pm: E::Model,
    prm: P::Model,
    am: A::Model,
) -> SimState<E::Model, P::Model, A::Model> {
    SimState {
        policy: pm,
        promo: prm,
        admission: am,
        flash: Set::empty(),
        seen: Set::empty(),
        obj_miss: 0,
        byte_miss: 0,
        measured: 0,
        measured_bytes: 0,
        flash_hits: 0,
        promotions: 0,
        evictions: 0,
        evicted_counts: Map::empty(),
        promoted_counts: Map::empty(),
    }
}

/// `key` enters DRAM with `size` bytes; the keys the policy evicts go to
/// flash and are counted.
pub open spec fn sim_admit<E: EvictionPolicy, P: PromotionPolicy, A: AdmissionPolicy>(
    s: SimState<E::Model, P::Model, A::Model>,
    key: u64,
    size: u64,
    t: u64,
) -> SimState<E::Model, P::Model, A::Model> {
    let (pol, ev) = E::model_admit(s.policy, key, size, t);
    SimState {
        policy: pol,
        flash: s.flash.union(ev.to_set()),
        evictions: s.evictions + ev.len(),
        evicted_counts: count_all(s.evicted_counts, ev),
        ..s
    }
}

/// Access `t` of key `key` with key size `ks` and value size `vs`:
/// 1. a DRAM hit touches the key;
/// 2. else a repeat found in flash is a flash hit, and the promotion policy
///    decides whether the key leaves flash for DRAM;
/// 3. else a true miss goes to DRAM or to flash as the admission policy
///    decides.
/// The access is measured unless it is a first touch that is not counted.
pub open spec fn sim_step<E: EvictionPolicy, P: PromotionPolicy, A: AdmissionPolicy>(
    s: SimState<E::Model, P::Model, A::Model>,
    key: u64,
    ks: u64,
    vs: u64,
    mode: SpillMode,
    include_first_touch: bool,
    key_spill_overhead: u64,
    t: u64,
) -> SimState<E::Model, P::Model, A::Model> {
    let size = entry_size(ks, vs, mode, key_spill_overhead);
    let first = !s.seen.contains(key);
    let c: int = if first && !include_first_touch { 0 } else { 1 };
    let s1 = SimState { seen: s.seen.insert(key), ..s };
    if E::model_resident(s.policy).contains(key) {
        SimState {
            policy: E::model_touch(s.policy, key, t),
            measured: s.measured + c,
            measured_bytes: s.measured_bytes + c * vs,
            ..s1
        }
    } else if !first && s.flash.contains(key) {
        let (pm, pr) = P::model_promote(s.promo, key, t);
        let s2 = if pr {
            sim_admit::<E, P, A>(
                SimState {
                    promo: pm,
                    promotions: s.promotions + 1,
                    promoted_counts: count_one(s.promoted_counts, key),
                    flash: s.flash.remove(key),
                    ..s1
                },
                key,
                size,
                t,
            )
        } else {
            SimState { promo: pm, ..s1 }
        };
        SimState {
            flash_hits: s.flash_hits + 1,
            measured: s.measured + c,
            measured_bytes: s.measured_bytes + c * vs,
            ..s2
        }
    } else {
        let (am, d) = A::model_decide(s.admission, key, t);
        let s2 = if d {
            sim_admit::<E, P, A>(SimState { admission: am, ..s1 }, key, size, t)
        } else {
            SimState { admission: am, flash: s.flash.insert(key), ..s1 }
        };
        SimState {
            measured: s.measured + c,
            measured_bytes: s.measured_bytes + c * vs,
            obj_miss: s.obj_miss + c,
            byte_miss: s.byte_miss + c * vs,
            ..s2
        }
    }
}

/// The state after the first `n` accesses of a trace.
pub open spec fn sim_run<E: EvictionPolicy, P: PromotionPolicy, A: AdmissionPolicy>(
    start: SimState<E::Model, P::Model, A::Model>,
    keys: Seq<u64>,
    key_sizes: Seq<u64>,
    value_sizes: Seq<u64>,
    mode: SpillMode,
    include_first_touch: bool,
    key_spill_overhead: u64,
    n: int,
) -> SimState<E::Model, P::Model, A::Model>
    decreases n,
{
    if n <= 0 {
        start
    } else {
        sim_step::<E, P, A>(
            sim_run::<E, P, A>(
                start,
                keys,
                key_sizes,
                value_sizes,
                mode,
                include_first_touch,
                key_spill_overhead,
                n - 1,
            ),
            keys[n - 1],
            key_sizes[n - 1],
            value_sizes[n - 1],
            mode,
            include_first_touch,
            key_spill_overhead,
            (n - 1) as u64,
        )
    }
}

/// Access `i` of a run, when it is the first touch of its key, does not
/// find the key in DRAM, and so is a true miss.
pub open spec fn first_touch_missed<E: EvictionPolicy, P: PromotionPolicy, A: AdmissionPolicy>(
    start: SimState<E::Model, P::Model, A::Model>,
    keys: Seq<u64>,
    key_sizes: Seq<u64>,
    value_sizes: Seq<u64>,
    mode: SpillMode,
    include_first_touch: bool,
    key_spill_overhead: u64,
    i: int,
) -> bool {
    let s = sim_run::<E, P, A>(
        start,
        keys,
        key_sizes,
        value_sizes,
        mode,
        include_first_touch,
        key_spill_overhead,
        i,
    );
    !s.seen.contains(keys[i]) ==> !E::model_resident(s.policy).contains(keys[i])
}

/// Every first touch among the first `n` accesses of a run is a true miss.
pub open spec fn first_touches_missed<E: EvictionPolicy, P: PromotionPolicy, A: AdmissionPolicy>(
    start: SimState<E::Model, P::Model, A::Model>,
    keys: Seq<u64>,
    key_sizes: Seq<u64>,
    value_sizes: Seq<u64>,
    mode: SpillMode,
    include_first_touch: bool,
    key_spill_overhead: u64,
    n: int,
) -> bool {
    forall|i: int|
        0 <= i < n ==> #[trigger] first_touch_missed::<E, P, A>(
            start,
            keys,
            key_sizes,
            value_sizes,
            mode,
            include_first_touch,
            key_spill_overhead,
            i,
        )
}

/// A run that starts with nothing seen has seen, after `n` accesses, the
/// keys of those accesses.
pub proof fn lemma_run_seen<E: EvictionPolicy, P: PromotionPolicy, A: AdmissionPolicy>(
    start: SimState<E::Model, P::Model, A::Model>,
    keys: Seq<u64>,
    key_sizes: Seq<u64>,
    value_sizes: Seq<u64>,
    mode: SpillMode,
    include_first_touch: bool,
    key_spill_overhead: u64,
    n: int,
)
    requires
        start.seen == Set::<u64>::empty(),
        0 <= n <= keys.len(),
    ensures
        sim_run::<E, P, A>(
            start,
            keys,
            key_sizes,
            value_sizes,
            mode,
            include_first_touch,
            key_spill_overhead,
            n,
        ).seen == keys.subrange(0, n).to_set(),
    decreases n,
{
    if n == 0 {
        assert(keys.subrange(0, 0).to_set() =~= Set::<u64>::empty());
    } else {
        lemma_run_seen::<E, P, A>(
            start,
            keys,
            key_sizes,
            value_sizes,
            mode,
            include_first_touch,
            key_spill_overhead,
            n - 1,
        );
        lemma_seen_step(keys, n - 1);
    }
}

/// Every first touch is a true miss: in a run from a fresh start in which
/// no first touch finds its key in DRAM, counting first touches adds one
/// true miss per distinct key, and that key's first value size to the
/// missed bytes, and nothing else.
pub proof fn lemma_first_touches_are_misses<E: EvictionPolicy, P: PromotionPolicy, A: AdmissionPolicy>(
    pm: E::Model,
    prm: P::Model,
    am: A::Model,
    keys: Seq<u64>,
    key_sizes: Seq<u64>,
    value_sizes: Seq<u64>,
    mode: SpillMode,
    include_first_touch: bool,
    key_spill_overhead: u64,
    n: int,
)
    requires
        0 <= n <= keys.len(),
        first_touches_missed::<E, P, A>(
            sim_start::<E, P, A>(pm, prm, am),
            keys,
            key_sizes,
            value_sizes,
            mode,
            include_first_touch,
            key_spill_overhead,
            n,
        ),
    ensures
        ({
            let start = sim_start::<E, P, A>(pm, prm, am);
            let a = sim_run::<E, P, A>(start, keys, key_sizes, value_sizes, mode, true, key_spill_overhead, n);
            let b = sim_run::<E, P, A>(start, keys, key_sizes, value_sizes, mode, false, key_spill_overhead, n);
            &&& a.obj_miss == b.obj_miss + distinct_count(keys, n)
            &&& a.byte_miss == b.byte_miss + first_total(keys, value_sizes, n)
        }),
    decreases n,
{
    let start = sim_start::<E, P, A>(pm, prm, am);
    if n > 0 {
        let m = n - 1;
        assert(first_touches_missed::<E, P, A>(
            start,
            keys,
            key_sizes,
            value_sizes,
            mode,
            include_first_touch,
            key_spill_overhead,
            m,
        )) by {
            assert forall|i: int| 0 <= i < m implies #[trigger] first_touch_missed::<E, P, A>(
                start,
                keys,
                key_sizes,
                value_sizes,
                mode,
                include_first_touch,
                key_spill_overhead,
                i,
            ) by {
                assert(first_touch_missed::<E, P, A>(
                    start,
                    keys,
                    key_sizes,
                    value_sizes,
                    mode,
                    include_first_touch,
                    key_spill_overhead,
                    i,
                ));
            }
        }
        lemma_first_touches_are_misses::<E, P, A>(
            pm,
            prm,
            am,
            keys,
            key_sizes,
            value_sizes,
            mode,
            include_first_touch,
            key_spill_overhead,
            m,
        );
        assert(first_touch_missed::<E, P, A>(
            start,
            keys,
            key_sizes,
            value_sizes,
            mode,
            include_first_touch,
            key_spill_overhead,
            m,
        ));
        lemma_first_touch_counting::<E, P, A>(start, keys, key_sizes, value_sizes, mode, key_spill_overhead, m);
        lemma_run_seen::<E, P, A>(start, keys, key_sizes, value_sizes, mode, true, key_spill_overhead, m);
        lemma_run_seen::<E, P, A>(
            start,
            keys,
            key_sizes,
            value_sizes,
            mode,
            include_first_touch,
            key_spill_overhead,
            m,
        );
        let a0 = sim_run::<E, P, A>(start, keys, key_sizes, value_sizes, mode, true, key_spill_overhead, m);
        let b0 = sim_run::<E, P, A>(start, keys, key_sizes, value_sizes, mode, false, key_spill_overhead, m);
        let c0 = sim_run::<E, P, A>(
            start,
            keys,
            key_sizes,
            value_sizes,
            mode,
            include_first_touch,
            key_spill_overhead,
            m,
        );
        assert(c0.policy == a0.policy) by {
            if include_first_touch {
            } else {
            }
        }
        assert(a0.seen.contains(keys[m]) == is_repeat(keys, m));
    }
}

/// Every entry that fits the budget `cap` can be added to a full budget
/// without passing `u64::MAX`.
pub open spec fn budget_fits(cap: int, sizes: Seq<u64>) -> bool {
    forall|i: int| 0 <= i < sizes.len() ==> (#[trigger] sizes[i] <= cap ==> cap + sizes[i] <= u64::MAX)
}

/// The total of the first `n` sizes.
pub open spec fn size_sum(sizes: Seq<u64>, n: int) -> int
    decreases n,
{
    if n <= 0 {
        0
    } else {
        size_sum(sizes, n - 1) + sizes[n - 1]
    }
}

pub proof fn lemma_size_sum_mono(sizes: Seq<u64>, a: int, b: int)
    requires
        0 <= a <= b,
    ensures
        0 <= size_sum(sizes, a) <= size_sum(sizes, b),
    decreases b,
{
    if b > a {
        lemma_size_sum_mono(sizes, a, b - 1);
    } else if a > 0 {
        lemma_size_sum_mono(sizes, a - 1, a - 1);
    }
}

/// The resident bytes of a run with budget `cap` over entries `sizes` never
/// pass `u64::MAX` when an entry is added: every entry that fits the budget
/// can be added to a full budget, or all entries together fit in `u64`
/// (the resident bytes never exceed the entries admitted so far).
pub open spec fn budget_ok(cap: int, sizes: Seq<u64>) -> bool {
    budget_fits(cap, sizes) || size_sum(sizes, sizes.len() as int) <= u64::MAX
}

/// Under `budget_ok`, entry `t` can be added to resident bytes that are
/// within the budget and at most the entries before it.
pub proof fn lemma_room_for_entry(bytes: int, cap: int, sizes: Seq<u64>, t: int)
    requires
        0 <= t < sizes.len(),
        0 <= bytes <= cap,
        bytes <= size_sum(sizes, t),
        sizes[t] <= cap,
        budget_ok(cap, sizes),
    ensures
        bytes + sizes[t] <= u64::MAX,
{
    lemma_size_sum_mono(sizes, t + 1, sizes.len() as int);
    assert(size_sum(sizes, t + 1) == size_sum(sizes, t) + sizes[t]);
}

/// Whether `budget_ok` holds of the entries of `trace` in `mode` and a
/// budget of `cap` bytes.
pub fn trace_budget_fits(trace: &Trace, mode: SpillMode, key_spill_overhead: u64, cap: u64) -> (r: bool)
    requires
        trace.key_sizes@.len() == trace.keys@.len(),
        trace.value_sizes@.len() == trace.keys@.len(),
        mode is KeySpilling ==> forall|i: int|
            0 <= i < trace.keys@.len() ==> trace.key_sizes@[i] + trace.value_sizes@[i] <= u64::MAX,
    ensures
        r == budget_ok(cap as int, entry_sizes(trace.key_sizes@, trace.value_sizes@, mode, key_spill_overhead)),
{
    let ghost es = entry_sizes(trace.key_sizes@, trace.value_sizes@, mode, key_spill_overhead);
    let n = trace.value_sizes.len();
    let mut fits = true;
    let mut sum: u64 = 0;
    let mut sum_ok = true;
    let mut i: usize = 0;
    while i < n
        invariant
            n == trace.value_sizes@.len(),
            n == trace.keys@.len(),
            trace.key_sizes@.len() == n,
            es == entry_sizes(trace.key_sizes@, trace.value_sizes@, mode, key_spill_overhead),
            es.len() == n,
            mode is KeySpilling ==> forall|j: int|
                0 <= j < n ==> trace.key_sizes@[j] + trace.value_sizes@[j] <= u64::MAX,
            i <= n,
            fits == (forall|j: int| 0 <= j < i ==> (#[trigger] es[j] <= cap ==> cap + es[j] <= u64::MAX)),
            sum_ok == (size_sum(es, i as int) <= u64::MAX),
            sum_ok ==> sum == size_sum(es, i as int),
        decreases n - i,
    {
        let size = match mode {
            SpillMode::KeySpilling => (trace.key_sizes[i] + trace.value_sizes[i]).saturating_sub(
                key_spill_overhead,
            ),
            SpillMode::NoKeySpilling => trace.value_sizes[i],
        };
        proof {
            assert(size == es[i as int]);
            lemma_size_sum_mono(es, i as int, i as int);
        }
        if size <= cap && cap > u64::MAX - size {
            fits = false;
        }
        if sum_ok {
            if sum > u64::MAX - size {
                sum_ok = false;
            } else {
                sum = sum + size;
            }
        }
        i = i + 1;
    }
    proof {
        assert(es.len() == n);
    }
    fits || sum_ok
}

/// Admits `key` to DRAM; evicted keys go to flash and are counted.
fn admit_and_spill<E: EvictionPolicy>(
    policy: &mut E,
    flash: &mut FxHashSet<u64>,
    churn: &mut ChurnStats,
    evictions: &mut u64,
    key: u64,
    size: u64,
    t: u64,
    n: usize,
)
    requires
        old(policy).wf(),
        old(policy).settled(),
        old(policy).clock_ok(t),
        old(policy).admits(key, size) ==> old(policy).bytes() + size <= u64::MAX,
        old(policy).footprint() <= t,
        t < n,
        n <= room_limit(),
        n <= u32::MAX,
        *old(evictions) + old(policy).resident().len() <= t,
        old(churn).wf(),
        old(churn).recorded() == *old(evictions),
    ensures
        final(policy).wf(),
        final(policy).settled(),
        final(policy).clock_ok(t),
        final(policy).capacity() == old(policy).capacity(),
        final(policy).footprint() <= t + 1,
        *final(evictions) + final(policy).resident().len() <= t + 1,
        final(churn).wf(),
        final(churn).recorded() == *final(evictions),
        *old(evictions) <= *final(evictions),
        !old(policy).admits(key, size) ==> final(policy).resident() == old(policy).resident(),
        !old(policy).admits(key, size) ==> *final(evictions) == *old(evictions),
        !old(policy).admits(key, size) ==> final(flash)@ == old(flash)@,
        old(policy).admits(key, size) && old(policy).bytes() + size <= old(policy).capacity() ==> {
            &&& final(policy).resident() == old(policy).resident().insert(key)
            &&& final(policy).bytes() == old(policy).bytes() + size
            &&& *final(evictions) == *old(evictions)
            &&& final(flash)@ == old(flash)@
        },
        final(policy).takes_all() == old(policy).takes_all(),
        final(policy).resident().subset_of(old(policy).resident().insert(key)),
        final(policy).bytes() <= old(policy).bytes() + size,
        *final(evictions) + final(policy).resident().len() <= *old(evictions) + old(
            policy,
        ).resident().len() + 1,
        ({
            let (pol, ev) = E::model_admit(old(policy).model(), key, size, t);
            &&& final(policy).model() == pol
            &&& *final(evictions) == *old(evictions) + ev.len()
            &&& final(flash)@ == old(flash)@.union(ev.to_set())
            &&& final(churn).counts() == count_all(old(churn).counts(), ev)
        }),
{
    proof {
        policy.lemma_wf();
        policy.lemma_admits(key, size);
    }
    let evicted = policy.admit_entry(key, size, t);
    proof {
        let r0 = old(policy).resident();
        let r1 = policy.resident();
        let ev = evicted@.to_set();
        evicted@.unique_seq_to_set();
        policy.lemma_wf();
        if old(policy).admits(key, size) {
            assert(ev.subset_of(r0.insert(key)));
            vstd::set_lib::lemma_set_difference_len(r0.insert(key), ev);
            assert(r0.insert(key).intersect(ev) =~= ev);
            if r0.contains(key) {
                assert(r0.insert(key) =~= r0);
            }
            if evicted@.len() == 0 {
                assert(r0.insert(key).difference(ev) =~= r0.insert(key));
            }
        }
    }
    *evictions = *evictions + evicted.len() as u64;
    let mut j: usize = 0;
    while j < evicted.len()
        invariant
            j <= evicted@.len(),
            churn.wf(),
            churn.recorded() == *old(evictions) + j,
            *old(evictions) + evicted@.len() <= t + 1,
            t < n,
            n <= u32::MAX,
            old(policy).admits(key, size) || evicted@.len() == 0,
            evicted@.len() == 0 ==> flash@ == old(flash)@,
            evicted@.len() == 0 ==> *evictions == *old(evictions),
            flash@ == old(flash)@.union(evicted@.take(j as int).to_set()),
            churn.counts() == count_all(old(churn).counts(), evicted@.take(j as int)),
        decreases evicted@.len() - j,
    {
        proof {
            let ev = evicted@;
            let a = ev.take(j as int + 1);
            let b = ev.take(j as int);
            assert(a.drop_last() =~= b);
            assert(a.last() == ev[j as int]);
            assert(a.to_set() =~= b.to_set().insert(ev[j as int])) by {
                assert forall|x: u64| #[trigger] a.contains(x) <==> b.contains(x) || x == ev[j as int] by {
                    if a.contains(x) {
                        let i = choose|i: int| 0 <= i < a.len() && a[i] == x;
                        if i < j {
                            assert(b[i] == x);
                        }
                    }
                    if b.contains(x) {
                        let i = choose|i: int| 0 <= i < b.len() && b[i] == x;
                        assert(a[i] == x);
                    }
                    if x == ev[j as int] {
                        assert(a[j as int] == x);
                    }
                }
            }
        }
        churn.record(evicted[j]);
        fx_set_insert(flash, evicted[j]);
        j = j + 1;
    }
    proof {
        assert(evicted@.take(evicted@.len() as int) =~= evicted@);
    }
    proof {
        if !old(policy).admits(key, size) {
            assert(flash@ == old(flash)@);
        }
    }
}

/// Runs the trace through DRAM (`policy`) and flash.
///
/// Per access: a key resident in DRAM is a DRAM hit and is touched. Else a
/// key in flash (and seen before) is a flash hit; if `promo` says so it
/// leaves flash for DRAM, and whatever DRAM evicts goes to flash. Else it is
/// a true miss: `admission` decides whether it enters DRAM (evictions go to
/// flash) or flash. First touches count only with `include_first_touch`.
#[verifier::spinoff_prover]
#[verifier::rlimit(30)]
pub fn simulate_two_tier<E: EvictionPolicy, P: PromotionPolicy, A: AdmissionPolicy>(
    trace: &Trace,
    policy: &mut E,
    promo: &mut P,
    admission: &mut A,
    mode: SpillMode,
    include_first_touch: bool,
    key_spill_overhead: u64,
) -> (r: SimCounts)
    requires
        trace.key_sizes@.len() == trace.keys@.len(),
        trace.value_sizes@.len() == trace.keys@.len(),
        trace.keys@.len() <= room_limit(),
        trace.keys@.len() <= u32::MAX,
        mode is KeySpilling ==> forall|i: int|
            0 <= i < trace.keys@.len() ==> trace.key_sizes@[i] + trace.value_sizes@[i] <= u64::MAX,
        measured_value_bytes(
            trace.keys@,
            trace.value_sizes@,
            trace.keys@.len() as int,
            include_first_touch,
        ) <= u64::MAX,
        old(policy).wf(),
        old(policy).settled(),
        old(policy).resident().len() == 0,
        old(policy).footprint() == 0,
        old(policy).bytes() == 0,
        old(policy).clock_ok(0),
        budget_ok(
            old(policy).capacity(),
            entry_sizes(trace.key_sizes@, trace.value_sizes@, mode, key_spill_overhead),
        ),
        old(promo).wf(),
        old(promo).clock_ok(0),
    ensures
        r.measured == measured_count(trace.keys@, trace.keys@.len() as int, include_first_touch),
        r.measured_bytes == measured_value_bytes(
            trace.keys@,
            trace.value_sizes@,
            trace.keys@.len() as int,
            include_first_touch,
        ),
        r.obj_miss + r.flash_hits <= r.measured,
        r.byte_miss <= r.measured_bytes,
        r.promotions <= r.flash_hits,
        old(promo).promotes_all() ==> r.promotions == r.flash_hits,
        old(promo).promotes_none() ==> r.promotions == 0,
        old(policy).capacity() == 0 && old(admission).admits_all() ==> r.obj_miss == r.measured
            && r.byte_miss == r.measured_bytes && r.flash_hits == 0 && r.evictions == 0,
        old(promo).promotes_none() && old(admission).admits_none() ==> r.flash_hits == measured_count(
            trace.keys@,
            trace.keys@.len() as int,
            false,
        ) && r.obj_miss + r.flash_hits == r.measured && r.evictions == 0,
        old(policy).takes_all() && old(admission).admits_all() && !include_first_touch && 0 < old(
            policy,
        ).capacity() && first_total(
            trace.keys@,
            entry_sizes(trace.key_sizes@, trace.value_sizes@, mode, key_spill_overhead),
            trace.keys@.len() as int,
        ) <= old(policy).capacity() ==> r.obj_miss == 0 && r.byte_miss == 0 && r.flash_hits == 0
            && r.promotions == 0 && r.evictions == 0,
        old(admission).admits_none() ==> r.evictions <= r.promotions,
        ({
            let st = sim_run::<E, P, A>(
                sim_start::<E, P, A>(old(policy).model(), old(promo).model(), old(admission).model()),
                trace.keys@,
                trace.key_sizes@,
                trace.value_sizes@,
                mode,
                include_first_touch,
                key_spill_overhead,
                trace.keys@.len() as int,
            );
            &&& final(policy).model() == st.policy
            &&& final(promo).model() == st.promo
            &&& final(admission).model() == st.admission
            &&& r.obj_miss == st.obj_miss
            &&& r.byte_miss == st.byte_miss
            &&& r.measured == st.measured
            &&& r.measured_bytes == st.measured_bytes
            &&& r.flash_hits == st.flash_hits
            &&& r.promotions == st.promotions
            &&& r.evictions == st.evictions
            &&& r.keys_ever_evicted == st.evicted_counts.dom().len()
            &&& r.keys_evicted_gt1 == repeated_keys(st.evicted_counts).len()
            &&& r.keys_ever_promoted == st.promoted_counts.dom().len()
            &&& r.keys_promoted_gt1 == repeated_keys(st.promoted_counts).len()
            &&& forall|k: u64| #[trigger] st.evicted_counts.contains_key(k) ==> st.evicted_counts[k]
                <= r.max_evictions_per_key
            &&& st.evicted_counts.dom().len() > 0 ==> exists|k: u64| #[trigger]
                st.evicted_counts.contains_key(k) && st.evicted_counts[k] == r.max_evictions_per_key
            &&& st.evicted_counts.dom().len() == 0 ==> r.max_evictions_per_key == 0
            &&& forall|k: u64| #[trigger] st.promoted_counts.contains_key(k) ==> st.promoted_counts[k]
                <= r.max_promotions_per_key
            &&& st.promoted_counts.dom().len() > 0 ==> exists|k: u64| #[trigger]
                st.promoted_counts.contains_key(k) && st.promoted_counts[k] == r.max_promotions_per_key
            &&& st.promoted_counts.dom().len() == 0 ==> r.max_promotions_per_key == 0
        }),
        final(promo).label_text() == old(promo).label_text(),
        final(admission).label_text() == old(admission).label_text(),
        final(policy).wf(),
        final(promo).wf(),
        first_touches_missed::<E, P, A>(
            sim_start::<E, P, A>(old(policy).model(), old(promo).model(), old(admission).model()),
            trace.keys@,
            trace.key_sizes@,
            trace.value_sizes@,
            mode,
            include_first_touch,
            key_spill_overhead,
            trace.keys@.len() as int,
        ),
        r.keys_ever_evicted + r.keys_evicted_gt1 <= r.evictions,
        r.max_evictions_per_key <= r.evictions,
        r.keys_evicted_gt1 <= r.keys_ever_evicted,
        (r.evictions == 0) == (r.keys_ever_evicted == 0),
        (r.keys_ever_evicted == 0) == (r.max_evictions_per_key == 0),
        (r.keys_evicted_gt1 > 0) == (r.max_evictions_per_key >= 2),
        r.keys_ever_promoted + r.keys_promoted_gt1 <= r.promotions,
        r.max_promotions_per_key <= r.promotions,
        r.keys_promoted_gt1 <= r.keys_ever_promoted,
        (r.promotions == 0) == (r.keys_ever_promoted == 0),
        (r.keys_ever_promoted == 0) == (r.max_promotions_per_key == 0),
        (r.keys_promoted_gt1 > 0) == (r.max_promotions_per_key >= 2),
{
    let n = trace.keys.len();
    let ghost keys = trace.keys@;
    let ghost vals = trace.value_sizes@;
    let ghost cap = policy.capacity();
    let ghost all0 = old(promo).promotes_all();
    let ghost none0 = old(promo).promotes_none();
    let ghost adm_all = old(admission).admits_all();
    let ghost adm_none = old(admission).admits_none();
    let ghost start = sim_start::<E, P, A>(policy.model(), promo.model(), admission.model());
    let ghost tall0 = old(policy).takes_all();
    let ghost es = entry_sizes(trace.key_sizes@, trace.value_sizes@, mode, key_spill_overhead);
    let ghost fits = tall0 && adm_all && !include_first_touch && 0 < cap && first_total(
        keys,
        es,
        n as int,
    ) <= cap;
    let mut flash: FxHashSet<u64> = fx_set_new();
    let mut seen: FxHashSet<u64> = fx_set_new();
    let mut obj_miss: u64 = 0;
    let mut byte_miss: u64 = 0;
    let mut measured: u64 = 0;
    let mut measured_bytes: u64 = 0;
    let mut flash_hits: u64 = 0;
    let mut promotions: u64 = 0;
    let mut evictions: u64 = 0;
    let mut per_key_evictions = ChurnStats::new();
    let mut per_key_promotions = ChurnStats::new();
    proof {
        assert(keys.subrange(0, 0).to_set() =~= Set::<u64>::empty());
        lemma_measured_bounds(keys, vals, 0, n as int, include_first_touch);
        policy.lemma_wf();
        assert(policy.resident() =~= Set::<u64>::empty());
    }
    let mut t: usize = 0;
    while t < n
        invariant
            n == keys.len(),
            keys == trace.keys@,
            vals == trace.value_sizes@,
            trace.key_sizes@.len() == n,
            vals.len() == n,
            n <= room_limit(),
            n <= u32::MAX,
            mode is KeySpilling ==> forall|i: int|
                0 <= i < n ==> trace.key_sizes@[i] + vals[i] <= u64::MAX,
            measured_value_bytes(keys, vals, n as int, include_first_touch) <= u64::MAX,
            t <= n,
            seen@ == keys.subrange(0, t as int).to_set(),
            measured == measured_count(keys, t as int, include_first_touch),
            measured_bytes == measured_value_bytes(keys, vals, t as int, include_first_touch),
            obj_miss + flash_hits <= measured,
            byte_miss <= measured_bytes,
            promotions <= flash_hits,
            all0 ==> promo.promotes_all() && promotions == flash_hits,
            none0 ==> promo.promotes_none() && promotions == 0,
            adm_all ==> admission.admits_all(),
            adm_none ==> admission.admits_none(),
            policy.wf(),
            policy.settled(),
            policy.clock_ok(t as u64),
            policy.capacity() == cap,
            budget_ok(cap, entry_sizes(trace.key_sizes@, vals, mode, key_spill_overhead)),
            policy.bytes() <= size_sum(es, t as int),
            policy.footprint() <= t,
            evictions + policy.resident().len() <= t,
            promo.wf(),
            promo.clock_ok(t as u64),
            per_key_evictions.wf(),
            per_key_evictions.recorded() == evictions,
            per_key_promotions.wf(),
            per_key_promotions.recorded() == promotions,
            cap == 0 && adm_all ==> policy.resident().len() == 0 && flash@ == Set::<u64>::empty()
                && obj_miss == measured && byte_miss == measured_bytes
                && flash_hits == 0 && evictions == 0,
            none0 && adm_none ==> policy.resident().len() == 0 && flash@ == seen@ && flash_hits
                == measured_count(keys, t as int, false) && obj_miss + flash_hits == measured
                && evictions == 0,
            policy.takes_all() == tall0,
            start == sim_start::<E, P, A>(old(policy).model(), old(promo).model(), old(admission).model()),
            ({
                let st = sim_run::<E, P, A>(
                    start,
                    keys,
                    trace.key_sizes@,
                    vals,
                    mode,
                    include_first_touch,
                    key_spill_overhead,
                    t as int,
                );
                &&& policy.model() == st.policy
                &&& promo.model() == st.promo
                &&& admission.model() == st.admission
                &&& flash@ == st.flash
                &&& seen@ == st.seen
                &&& obj_miss == st.obj_miss
                &&& byte_miss == st.byte_miss
                &&& measured == st.measured
                &&& measured_bytes == st.measured_bytes
                &&& flash_hits == st.flash_hits
                &&& promotions == st.promotions
                &&& evictions == st.evictions
                &&& per_key_evictions.counts() == st.evicted_counts
                &&& per_key_promotions.counts() == st.promoted_counts
            }),
            adm_none ==> evictions + policy.resident().len() <= promotions,
            promo.label_text() == old(promo).label_text(),
            admission.label_text() == old(admission).label_text(),
            policy.resident().subset_of(seen@),
            forall|i: int|
                0 <= i < t ==> #[trigger] first_touch_missed::<E, P, A>(
                    start,
                    keys,
                    trace.key_sizes@,
                    vals,
                    mode,
                    include_first_touch,
                    key_spill_overhead,
                    i,
                ),
            es == entry_sizes(trace.key_sizes@, vals, mode, key_spill_overhead),
            fits == (tall0 && adm_all && !include_first_touch && 0 < cap && first_total(
                keys,
                es,
                n as int,
            ) <= cap),
            fits ==> {
                &&& 0 < cap
                &&& first_total(keys, es, n as int) <= cap
                &&& !include_first_touch
                &&& policy.resident() == seen@
                &&& flash@ == Set::<u64>::empty()
                &&& policy.bytes() == first_total(keys, es, t as int)
                &&& obj_miss == 0
                &&& byte_miss == 0
                &&& flash_hits == 0
                &&& promotions == 0
                &&& evictions == 0
            },
        decreases n - t,
    {
        let k = trace.keys[t];
        let vsz = trace.value_sizes[t];
        let ghost st0 = sim_run::<E, P, A>(
            start,
            keys,
            trace.key_sizes@,
            vals,
            mode,
            include_first_touch,
            key_spill_overhead,
            t as int,
        );
        proof {
            policy.lemma_wf();
        }
        let entry_size = match mode {
            SpillMode::KeySpilling => (trace.key_sizes[t] + trace.value_sizes[t]).saturating_sub(
                key_spill_overhead,
            ),
            SpillMode::NoKeySpilling => trace.value_sizes[t],
        };
        let ghost seen0 = seen@;
        let ghost flash0 = flash@;
        let first_touch = fx_set_insert(&mut seen, k);
        proof {
            lemma_seen_step(keys, t as int);
            assert(first_touch == !is_repeat(keys, t as int));
            lemma_measured_bounds(keys, vals, t as int + 1, n as int, include_first_touch);
            lemma_measured_bounds(keys, vals, t as int, t as int, include_first_touch);
            lemma_measured_bounds(keys, vals, t as int + 1, t as int + 1, false);
        }
        let counted = !(first_touch && !include_first_touch);
        proof {
            assert(first_touch_missed::<E, P, A>(
                start,
                keys,
                trace.key_sizes@,
                vals,
                mode,
                include_first_touch,
                key_spill_overhead,
                t as int,
            ));
            policy.lemma_admits(k, entry_size);
            assert(entry_size == es[t as int]);
            if policy.admits(k, entry_size) {
                policy.lemma_wf();
                lemma_room_for_entry(policy.bytes(), cap, es, t as int);
            }
            if fits {
                lemma_first_total_mono(keys, es, t as int + 1, n as int);
                if !first_touch {
                    assert(seen0.insert(k) =~= seen0);
                }
            }
        }
        if policy.contains(k) {
            // 1. DRAM hit.
            policy.touch(k, t as u64);
            if counted {
                measured = measured + 1;
                measured_bytes = measured_bytes + vsz;
            }
        } else if !first_touch && fx_set_contains(&flash, k) {
            // 2. Flash hit.
            flash_hits = flash_hits + 1;
            proof {
                promo.lemma_promote_ok(k, t as u64);
            }
            if promo.should_promote(k, t as u64) {
                promotions = promotions + 1;
                per_key_promotions.record(k);
                fx_set_remove(&mut flash, k);
                admit_and_spill(
                    policy,
                    &mut flash,
                    &mut per_key_evictions,
                    &mut evictions,
                    k,
                    entry_size,
                    t as u64,
                    n,
                );
            }
            if counted {
                measured = measured + 1;
                measured_bytes = measured_bytes + vsz;
            }
        } else {
            // 3. True miss: the admission policy picks DRAM or flash.
            proof {
                if fits {
                    assert(!seen0.contains(k));
                    assert(!is_repeat(keys, t as int));
                    lemma_first_total_mono(keys, es, t as int, t as int);
                    assert(first_total(keys, es, t as int + 1) == first_total(keys, es, t as int)
                        + es[t as int]);
                    policy.lemma_takes_all(k, entry_size);
                }
            }
            if admission.admit_to_dram(k, t as u64) {
                admit_and_spill(
                    policy,
                    &mut flash,
                    &mut per_key_evictions,
                    &mut evictions,
                    k,
                    entry_size,
                    t as u64,
                    n,
                );
            } else {
                fx_set_insert(&mut flash, k);
            }
            if counted {
                measured = measured + 1;
                measured_bytes = measured_bytes + vsz;
                obj_miss = obj_miss + 1;
                byte_miss = byte_miss + vsz;
            }
        }
        proof {
            policy.lemma_clock(t as u64, (t + 1) as u64);
            promo.lemma_clock(t as u64, (t + 1) as u64);
            policy.lemma_wf();
            if cap == 0 && adm_all {
                assert(flash@ =~= Set::<u64>::empty());
            }
            if none0 && adm_none {
                assert(flash@ =~= seen@);
            }
        }
        t = t + 1;
    }
    proof {
        per_key_evictions.lemma_summary();
        per_key_promotions.lemma_summary();
    }
    SimCounts {
        obj_miss,
        byte_miss,
        measured,
        measured_bytes,
        flash_hits,
        promotions,
        evictions,
        keys_ever_evicted: per_key_evictions.keys(),
        keys_ever_promoted: per_key_promotions.keys(),
        max_evictions_per_key: per_key_evictions.max(),
        max_promotions_per_key: per_key_promotions.max(),
        keys_evicted_gt1: per_key_evictions.repeated(),
        keys_promoted_gt1: per_key_promotions.repeated(),
    }
}

} // verus!
