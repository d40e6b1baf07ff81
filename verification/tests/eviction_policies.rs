use mrc_sim::eviction::EvictionPolicy;
use mrc_sim::fifo::Fifo;
use mrc_sim::lfu::AllkeysLfu;
use mrc_sim::lru::AllkeysLru;
use mrc_sim::random::AllkeysRandom;
use mrc_sim::rng::xorshift;
use mrc_sim::s3fifo::S3Fifo;
use mrc_sim::truelru::TrueLru;

#[test]
fn xorshift_steps_match_known_values() {
    let mut s: u64 = 42;
    assert_eq!(xorshift(&mut s), 45454805674);
    assert_eq!(s, 45454805674);
    assert_eq!(xorshift(&mut s), 11532217803599905471);
    assert_eq!(xorshift(&mut s), 10021416941527320954);
    let mut one: u64 = 1;
    assert_eq!(xorshift(&mut one), 1082269761);
}

#[test]
fn fifo_evicts_oldest_first() {
    let mut f = Fifo::new(10);
    assert!(f.admit_entry(1, 4, 0).is_empty());
    assert!(f.admit_entry(2, 4, 1).is_empty());
    f.touch(1, 2);
    assert_eq!(f.admit_entry(3, 4, 3), vec![1]);
    assert!(!f.contains(1));
    assert!(f.contains(2));
    assert!(f.contains(3));
}

#[test]
fn fifo_access_reports_hits_and_admits_misses() {
    let mut f = Fifo::new(10);
    assert!(!f.access(7, 5, 0));
    assert!(f.contains(7));
    assert!(f.access(7, 5, 1));
    assert!(!f.access(8, 11, 2));
    assert!(!f.contains(8));
}

#[test]
fn fifo_skips_removed_entries() {
    let mut f = Fifo::new(10);
    f.admit_entry(1, 5, 0);
    f.admit_entry(2, 5, 1);
    f.remove(1);
    assert!(!f.contains(1));
    assert!(f.admit_entry(3, 5, 2).is_empty());
    // The stale entry of 1 is skipped; 2 is the oldest resident key.
    assert_eq!(f.admit_entry(4, 5, 3), vec![2]);
    assert!(f.contains(3));
    assert!(f.contains(4));
    assert_eq!(f.admit_entry(5, 5, 4), vec![3]);
}

#[test]
fn zero_capacity_admits_nothing() {
    let mut f = Fifo::new(0);
    assert!(f.admit_entry(1, 0, 0).is_empty());
    assert!(!f.contains(1));
    let mut t = TrueLru::new(0);
    assert!(!t.access(1, 0, 0));
    assert!(!t.contains(1));
    let mut r = AllkeysRandom::new(0, 1);
    assert!(!r.access(1, 1, 0));
    assert!(!r.contains(1));
}

#[test]
fn oversized_entries_are_refused() {
    let mut l = AllkeysLru::new(10, 5, 42);
    assert!(l.admit_entry(1, 11, 0).is_empty());
    assert!(!l.contains(1));
    let mut f = AllkeysLfu::new(10, 5, 10, 1, 1000, 42);
    assert!(!f.access(1, 11, 0));
    assert!(!f.contains(1));
}

#[test]
fn truelru_evicts_least_recently_used() {
    let mut t = TrueLru::new(10);
    assert!(t.admit_entry(1, 4, 0).is_empty());
    assert!(t.admit_entry(2, 4, 1).is_empty());
    t.touch(1, 2);
    assert_eq!(t.admit_entry(3, 4, 3), vec![2]);
    assert!(t.contains(1));
    assert!(!t.contains(2));
    assert!(t.access(1, 4, 4));
    // 3 is now the oldest.
    assert!(!t.access(4, 4, 5));
    assert!(!t.contains(3));
    assert!(t.contains(1));
    assert!(t.contains(4));
}

#[test]
fn truelru_evicts_several_for_a_large_entry() {
    let mut t = TrueLru::new(10);
    t.admit_entry(1, 3, 0);
    t.admit_entry(2, 3, 1);
    t.admit_entry(3, 3, 2);
    assert_eq!(t.admit_entry(4, 9, 3), vec![1, 2, 3]);
    assert!(t.contains(4));
}

#[test]
fn truelru_remove_frees_room_and_reuses_nodes() {
    let mut t = TrueLru::new(10);
    t.admit_entry(1, 5, 0);
    t.admit_entry(2, 5, 1);
    t.remove(1);
    assert!(!t.contains(1));
    assert!(t.admit_entry(3, 5, 2).is_empty());
    assert_eq!(t.admit_entry(4, 5, 3), vec![2]);
    t.remove(99);
    assert!(t.contains(3));
    assert!(t.contains(4));
}

#[test]
fn random_evictions_follow_the_seeded_generator() {
    let mut r = AllkeysRandom::new(30, 7);
    let mut got = Vec::new();
    for k in 1..8u64 {
        got.push(r.admit_entry(k, 10, k));
    }
    let expected: Vec<Vec<u64>> = vec![vec![], vec![], vec![], vec![4], vec![1], vec![6], vec![7]];
    assert_eq!(got, expected);
    for k in [2u64, 3, 5] {
        assert!(r.contains(k));
    }
}

#[test]
fn sampled_lru_evictions_follow_the_seeded_generator() {
    let mut l = AllkeysLru::new(30, 5, 7);
    let mut got = Vec::new();
    for k in 1..8u64 {
        got.push(l.admit_entry(k, 10, k));
        l.touch(1, k);
    }
    let expected: Vec<Vec<u64>> = vec![vec![], vec![], vec![], vec![1], vec![2], vec![3], vec![4]];
    assert_eq!(got, expected);
    for k in [5u64, 6, 7] {
        assert!(l.contains(k));
    }
}

#[test]
fn sampled_lru_keeps_everything_that_fits() {
    let mut l = AllkeysLru::new(100, 5, 42);
    for k in 0..10u64 {
        assert!(!l.access(k, 10, k));
    }
    for k in 0..10u64 {
        assert!(l.contains(k));
    }
    assert!(l.admit_entry(10, 1, 11).len() == 1);
}

#[test]
fn lfu_evictions_follow_the_seeded_generator() {
    let mut f = AllkeysLfu::new(30, 5, 10, 1, 1000, 7);
    let mut got = Vec::new();
    for k in 1..8u64 {
        got.push(f.admit_entry(k, 10, k * 1000));
    }
    let expected: Vec<Vec<u64>> = vec![vec![], vec![], vec![], vec![1], vec![2], vec![3], vec![4]];
    assert_eq!(got, expected);
}

#[test]
fn lru_and_random_remove_drop_the_key() {
    let mut l = AllkeysLru::new(100, 5, 42);
    l.admit_entry(1, 10, 0);
    l.admit_entry(2, 10, 1);
    l.remove(1);
    assert!(!l.contains(1));
    assert!(l.contains(2));
    let mut r = AllkeysRandom::new(100, 42);
    r.admit_entry(1, 10, 0);
    r.remove(1);
    assert!(!r.contains(1));
    let mut f = AllkeysLfu::new(100, 5, 10, 1, 1000, 42);
    f.admit_entry(1, 10, 0);
    f.remove(1);
    assert!(!f.contains(1));
}

#[test]
fn s3fifo_small_queue_ghosts_and_main() {
    let mut s = S3Fifo::with_targets(100, 20, 0);
    for k in 1..11u64 {
        assert!(s.admit_entry(k, 10, k).is_empty());
    }
    // Over budget: the oldest small entry, never reused, leaves for the ghost queue.
    assert_eq!(s.admit_entry(11, 10, 11), vec![1]);
    // A reused small entry moves to main; the next unused one is evicted.
    s.touch(2, 12);
    assert_eq!(s.admit_entry(12, 10, 13), vec![3]);
    assert!(s.contains(2));
    // A key the ghost queue remembers goes to main.
    assert_eq!(s.admit_entry(1, 10, 14), vec![4]);
    assert!(s.contains(1));
    assert!(s.access(1, 10, 15));
    // Too large for the budget, or for the small target.
    assert!(!s.access(99, 101, 16));
    assert!(!s.contains(99));
    assert!(s.admit_entry(98, 30, 17).is_empty());
    assert!(!s.contains(98));
    assert!(!s.access(97, 10, 18));
    assert!(s.contains(97));
    assert!(!s.contains(4));
}

#[test]
fn s3fifo_remove_and_zero_budget() {
    let mut s = S3Fifo::with_targets(100, 20, 0);
    s.admit_entry(1, 10, 0);
    s.remove(1);
    assert!(!s.contains(1));
    let mut z = S3Fifo::with_targets(0, 1, 0);
    assert!(!z.access(1, 0, 0));
    assert!(!z.contains(1));
}

#[test]
fn lfu_keeps_frequently_used_keys_until_they_decay() {
    let mut f = AllkeysLfu::new(30, 5, 10, 1, 1000, 7);
    for k in 1..4u64 {
        assert!(f.admit_entry(k, 10, k * 1000).is_empty());
    }
    for i in 0..50u64 {
        f.touch(1, 4000 + i);
    }
    assert_eq!(f.admit_entry(4, 10, 5000), vec![2]);
    assert!(f.contains(1));
    // Two hundred minutes later every counter has decayed to zero.
    assert_eq!(f.admit_entry(5, 10, 200000), vec![4]);
}

#[test]
fn lfu_with_zero_log_factor_counts_every_use() {
    let mut f = AllkeysLfu::new(30, 5, 0, 0, 1000, 9);
    for k in 1..4u64 {
        f.admit_entry(k, 10, k);
    }
    for i in 0..5u64 {
        f.touch(2, 10 + i);
    }
    assert_eq!(f.admit_entry(4, 10, 20), vec![3]);
    assert!(f.contains(2));
}

#[test]
fn s3fifo_keeps_a_reused_key_over_a_one_hit_key() {
    let mut s = S3Fifo::with_targets(4, 1, 100);
    for k in 1..5u64 {
        assert!(!s.access(k, 1, k));
    }
    assert!(s.access(1, 1, 5));
    assert!(!s.access(5, 1, 6));
    assert!(s.contains(1));
    assert!(!s.contains(2));
    assert!(s.contains(5));
}

#[test]
fn fifo_admission_skips_stale_entries_in_a_tight_budget() {
    let mut f = Fifo::new(2);
    assert!(f.admit_entry(1, 1, 0).is_empty());
    assert!(f.admit_entry(2, 1, 1).is_empty());
    f.remove(1);
    assert!(f.admit_entry(3, 1, 2).is_empty());
    assert_eq!(f.admit_entry(4, 1, 3), vec![2]);
    assert!(!f.contains(2));
    assert!(f.contains(3));
    assert!(f.contains(4));
}

#[test]
fn lfu_decay_saturates() {
    // One decay step per minute, one time unit per minute.
    let mut f = AllkeysLfu::new(20, 5, 0, 1, 1, 2);
    f.admit_entry(1, 10, 0);
    for _ in 0..5 {
        f.touch(1, 0);
    }
    f.admit_entry(2, 10, 0);
    // 256 minutes later every counter has decayed to 0: the steps do not
    // wrap round to 0, so key 1 (counter 10) has lost its lead.
    assert_eq!(f.admit_entry(3, 10, 256), vec![1]);
}
