use mrc_sim::admission::{AdmitToDram, AdmitToFlash};
use mrc_sim::churn::ChurnStats;
use mrc_sim::fifo::Fifo;
use mrc_sim::lfu::AllkeysLfu;
use mrc_sim::random::AllkeysRandom;
use mrc_sim::lru::AllkeysLru;
use mrc_sim::promotion::{AlwaysPromote, NeverPromote, RecentReuse, SecondHit};
use mrc_sim::sim::{capacity_range, policy_capacity, simulate_two_tier, trace_budget_fits, trace_fits, SimCounts, SpillMode, Trace};
use mrc_sim::truelru::TrueLru;

fn sample_trace() -> Trace {
    let keys: Vec<u64> = vec![1, 2, 3, 1, 4, 2, 5, 1, 3, 2, 6, 1];
    let n = keys.len();
    Trace {
        workload: "sample".to_string(),
        keys,
        key_sizes: vec![2; n],
        value_sizes: vec![10; n],
        total_key_bytes: 12,
        total_value_bytes: 60,
        total_bytes: 72,
        n_unique: 6,
    }
}

fn churn(c: &SimCounts) -> (u64, u64, u64, u64, u64, u64) {
    (
        c.keys_ever_evicted,
        c.max_evictions_per_key,
        c.keys_evicted_gt1,
        c.keys_ever_promoted,
        c.max_promotions_per_key,
        c.keys_promoted_gt1,
    )
}

#[test]
fn exact_lru_with_promotion_on_every_flash_hit() {
    let t = sample_trace();
    let mut p = TrueLru::new(30);
    let c = simulate_two_tier(&t, &mut p, &mut AlwaysPromote, &mut AdmitToDram, SpillMode::NoKeySpilling, false, 16);
    assert_eq!((c.obj_miss, c.byte_miss, c.measured, c.measured_bytes), (0, 0, 6, 60));
    assert_eq!((c.flash_hits, c.promotions, c.evictions), (5, 5, 8));
    assert_eq!(churn(&c), (5, 2, 3, 3, 2, 2));
}

#[test]
fn flash_admission_without_promotion_serves_repeats_from_flash() {
    let t = sample_trace();
    let mut p = TrueLru::new(30);
    let c = simulate_two_tier(&t, &mut p, &mut NeverPromote, &mut AdmitToFlash, SpillMode::NoKeySpilling, false, 16);
    assert_eq!((c.obj_miss, c.measured, c.flash_hits, c.promotions, c.evictions), (0, 6, 6, 0, 0));
    assert_eq!(churn(&c), (0, 0, 0, 0, 0, 0));
}

#[test]
fn flash_admission_with_second_hit_promotion() {
    let t = sample_trace();
    let mut p = TrueLru::new(30);
    let mut promo = SecondHit::new(2);
    let c = simulate_two_tier(&t, &mut p, &mut promo, &mut AdmitToFlash, SpillMode::NoKeySpilling, false, 16);
    assert_eq!((c.obj_miss, c.measured, c.flash_hits, c.promotions, c.evictions), (0, 6, 5, 2, 0));
    assert_eq!(churn(&c), (0, 0, 0, 2, 1, 0));
}

#[test]
fn first_touches_measured_with_recent_reuse() {
    let t = sample_trace();
    let mut p = TrueLru::new(20);
    let mut promo = RecentReuse::new(3);
    let c = simulate_two_tier(&t, &mut p, &mut promo, &mut AdmitToDram, SpillMode::NoKeySpilling, true, 16);
    assert_eq!((c.obj_miss, c.byte_miss, c.measured, c.measured_bytes), (6, 60, 12, 120));
    assert_eq!((c.flash_hits, c.promotions, c.evictions), (6, 0, 4));
    assert_eq!(churn(&c), (4, 1, 0, 0, 0, 0));
}

#[test]
fn zero_capacity_misses_every_measured_access() {
    let t = sample_trace();
    let mut p = TrueLru::new(0);
    let c = simulate_two_tier(&t, &mut p, &mut AlwaysPromote, &mut AdmitToDram, SpillMode::KeySpilling, false, 16);
    assert_eq!((c.obj_miss, c.byte_miss, c.measured, c.measured_bytes), (6, 60, 6, 60));
    assert_eq!((c.flash_hits, c.promotions, c.evictions), (0, 0, 0));
}

#[test]
fn sampled_lru_with_key_spilling() {
    let t = sample_trace();
    let mut p = AllkeysLru::new(20, 5, 42);
    let c = simulate_two_tier(&t, &mut p, &mut AlwaysPromote, &mut AdmitToDram, SpillMode::KeySpilling, false, 4);
    assert_eq!((c.obj_miss, c.measured, c.flash_hits, c.promotions, c.evictions), (0, 6, 4, 4, 8));
    assert_eq!(churn(&c), (5, 3, 2, 3, 2, 1));
}

#[test]
fn policy_capacity_and_sweep_range() {
    let t = sample_trace();
    assert_eq!(policy_capacity(&t, 100, SpillMode::KeySpilling, 16), 4);
    assert_eq!(policy_capacity(&t, 5, SpillMode::KeySpilling, 16), 0);
    assert_eq!(policy_capacity(&t, 100, SpillMode::NoKeySpilling, 16), 88);
    assert_eq!(policy_capacity(&t, 10, SpillMode::NoKeySpilling, 16), 0);
    assert_eq!(capacity_range(&t, SpillMode::KeySpilling, 16), (96, 72));
    assert_eq!(capacity_range(&t, SpillMode::NoKeySpilling, 16), (12, 72));
}

#[test]
fn churn_counts_per_key() {
    let mut c = ChurnStats::new();
    assert_eq!((c.keys(), c.max(), c.repeated()), (0, 0, 0));
    c.record(3);
    c.record(4);
    c.record(3);
    c.record(3);
    c.record(5);
    c.record(5);
    assert_eq!((c.keys(), c.max(), c.repeated()), (3, 3, 2));
}

#[test]
fn full_capacity_without_key_spilling_caches_everything() {
    let t = sample_trace();
    let cap = policy_capacity(&t, t.total_bytes, SpillMode::NoKeySpilling, 16);
    assert_eq!(cap, 60);
    let mut p = TrueLru::new(cap);
    let c = simulate_two_tier(&t, &mut p, &mut AlwaysPromote, &mut AdmitToDram, SpillMode::NoKeySpilling, false, 16);
    assert_eq!((c.obj_miss, c.byte_miss, c.flash_hits, c.promotions, c.evictions), (0, 0, 0, 0, 0));
    assert_eq!(c.measured, 6);
    let mut r = AllkeysRandom::new(cap, 42);
    let c = simulate_two_tier(&t, &mut r, &mut NeverPromote, &mut AdmitToDram, SpillMode::NoKeySpilling, false, 16);
    assert_eq!((c.obj_miss, c.flash_hits, c.evictions), (0, 0, 0));
}

#[test]
fn full_capacity_with_key_spilling_caches_everything() {
    let t = sample_trace();
    // Each key and value (12 bytes) outweighs the 4-byte spill entry.
    let cap = policy_capacity(&t, t.total_bytes, SpillMode::KeySpilling, 4);
    assert_eq!(cap, 48);
    let mut p = Fifo::new(cap);
    let c = simulate_two_tier(&t, &mut p, &mut AlwaysPromote, &mut AdmitToDram, SpillMode::KeySpilling, false, 4);
    assert_eq!((c.obj_miss, c.byte_miss, c.flash_hits, c.evictions), (0, 0, 0, 0));
    let mut l = AllkeysLfu::new(cap, 5, 10, 1, 1000, 42);
    let c = simulate_two_tier(&t, &mut l, &mut AlwaysPromote, &mut AdmitToDram, SpillMode::KeySpilling, false, 4);
    assert_eq!((c.obj_miss, c.flash_hits, c.evictions), (0, 0, 0));
}

#[test]
fn spill_entries_larger_than_key_and_value_leave_no_budget() {
    let t = sample_trace();
    // 16-byte spill entries outweigh each 12-byte key and value: the
    // reserved bytes exceed the whole trace.
    assert_eq!(policy_capacity(&t, t.total_bytes, SpillMode::KeySpilling, 16), 0);
}

#[test]
fn trace_bounds_for_a_run() {
    let t = sample_trace();
    assert!(trace_fits(&t, SpillMode::KeySpilling, true));
    let mut short = sample_trace();
    short.value_sizes.pop();
    assert!(!trace_fits(&short, SpillMode::NoKeySpilling, false));
    let mut big = sample_trace();
    big.key_sizes[3] = u64::MAX;
    assert!(!trace_fits(&big, SpillMode::KeySpilling, false));
    assert!(trace_fits(&big, SpillMode::NoKeySpilling, false));
    let mut heavy = sample_trace();
    heavy.value_sizes[0] = u64::MAX;
    // The first access of key 1 is not measured unless first touches are.
    assert!(trace_fits(&heavy, SpillMode::NoKeySpilling, false));
    assert!(!trace_fits(&heavy, SpillMode::NoKeySpilling, true));
}

#[test]
fn flash_admission_fills_dram_only_by_promotion() {
    let t = sample_trace();
    let mut p = TrueLru::new(10);
    let c = simulate_two_tier(&t, &mut p, &mut AlwaysPromote, &mut AdmitToFlash, SpillMode::NoKeySpilling, false, 16);
    assert_eq!((c.obj_miss, c.measured, c.flash_hits, c.promotions, c.evictions), (0, 6, 6, 6, 5));
    assert_eq!(churn(&c), (3, 2, 2, 3, 3, 2));
    assert!(c.evictions <= c.promotions);
}

fn small_trace(keys: Vec<u64>, value_size: u64) -> Trace {
    let n = keys.len();
    let mut distinct = keys.clone();
    distinct.sort();
    distinct.dedup();
    Trace {
        workload: "w".to_string(),
        keys,
        key_sizes: vec![0; n],
        value_sizes: vec![value_size; n],
        total_key_bytes: 0,
        total_value_bytes: value_size * distinct.len() as u64,
        total_bytes: value_size * distinct.len() as u64,
        n_unique: distinct.len(),
    }
}

#[test]
fn fifo_promotion_evicts_to_flash() {
    let t = small_trace(vec![1, 2, 1], 10);
    let mut p = Fifo::new(10);
    let c = simulate_two_tier(&t, &mut p, &mut AlwaysPromote, &mut AdmitToDram, SpillMode::KeySpilling, false, 0);
    assert_eq!((c.obj_miss, c.measured, c.flash_hits, c.promotions, c.evictions), (0, 1, 1, 1, 2));
    assert_eq!(churn(&c), (2, 1, 0, 1, 1, 0));
}

#[test]
fn second_hit_from_flash_with_exact_lru() {
    let t = small_trace(vec![7, 7, 7], 4);
    let mut p = TrueLru::new(100);
    let mut promo = SecondHit::new(10);
    let c = simulate_two_tier(&t, &mut p, &mut promo, &mut AdmitToFlash, SpillMode::KeySpilling, false, 0);
    assert_eq!((c.obj_miss, c.measured, c.flash_hits, c.promotions, c.evictions), (0, 2, 2, 1, 0));
}

#[test]
fn identical_runs_agree() {
    let t = sample_trace();
    let run = || {
        let mut p = AllkeysLru::new(20, 5, 42);
        let c = simulate_two_tier(&t, &mut p, &mut AlwaysPromote, &mut AdmitToDram, SpillMode::KeySpilling, false, 4);
        (c.obj_miss, c.flash_hits, c.promotions, c.evictions, churn(&c))
    };
    assert_eq!(run(), run());
}

#[test]
fn budget_bound_for_a_run() {
    let t = sample_trace();
    assert!(trace_budget_fits(&t, SpillMode::NoKeySpilling, 16, 100));
    assert!(trace_budget_fits(&t, SpillMode::NoKeySpilling, 16, u64::MAX - 10));
    // All entries together fit in u64, so any budget will do.
    assert!(trace_budget_fits(&t, SpillMode::NoKeySpilling, 16, u64::MAX - 9));
    assert!(trace_budget_fits(&t, SpillMode::NoKeySpilling, 16, u64::MAX));
    // Entries larger than the budget are never taken in.
    assert!(trace_budget_fits(&t, SpillMode::NoKeySpilling, 16, 9));
    let huge = Trace {
        workload: "huge".to_string(),
        keys: vec![1, 2],
        key_sizes: vec![0, 0],
        value_sizes: vec![u64::MAX - 5, 10],
        total_key_bytes: 0,
        total_value_bytes: 0,
        total_bytes: 0,
        n_unique: 2,
    };
    assert!(trace_budget_fits(&huge, SpillMode::NoKeySpilling, 16, 100));
    assert!(!trace_budget_fits(&huge, SpillMode::NoKeySpilling, 16, u64::MAX - 5));
}

#[test]
fn first_touches_add_one_true_miss_per_key() {
    let t = sample_trace();
    let mut pa = AllkeysLru::new(25, 5, 42);
    let mut pb = AllkeysLru::new(25, 5, 42);
    let with = simulate_two_tier(&t, &mut pa, &mut SecondHit::new(4), &mut AdmitToDram, SpillMode::NoKeySpilling, true, 16);
    let without = simulate_two_tier(&t, &mut pb, &mut SecondHit::new(4), &mut AdmitToDram, SpillMode::NoKeySpilling, false, 16);
    assert_eq!(with.obj_miss, without.obj_miss + t.n_unique as u64);
    assert_eq!(with.byte_miss, without.byte_miss + t.total_value_bytes);
    assert_eq!((with.flash_hits, with.promotions, with.evictions), (without.flash_hits, without.promotions, without.evictions));
    assert_eq!(with.measured, without.measured + t.n_unique as u64);
}
