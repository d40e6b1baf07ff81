use mrc_sim::admission::{AdmissionPolicy, AdmitToDram, AdmitToFlash};
use mrc_sim::promotion::{AlwaysPromote, NeverPromote, PromotionPolicy, RecentReuse, SecondHit};

#[test]
fn always_and_never_promote() {
    let mut a = AlwaysPromote;
    let mut n = NeverPromote;
    assert!(a.should_promote(1, 0));
    assert!(!n.should_promote(1, 0));
    assert_eq!(a.label(), "always");
    assert_eq!(n.label(), "never");
}

#[test]
fn second_hit_promotes_on_the_second_flash_hit() {
    let mut p = SecondHit::new(2);
    assert!(!p.should_promote(7, 0));
    assert!(p.should_promote(7, 1));
    // The promotion removed the key: the next hit is a first hit again.
    assert!(!p.should_promote(7, 2));
    assert!(p.should_promote(7, 3));
    assert_eq!(p.label(), "second-hit-2");
}

#[test]
fn second_hit_forgets_keys_that_leave_the_window() {
    let mut p = SecondHit::new(2);
    assert!(!p.should_promote(1, 0));
    assert!(!p.should_promote(2, 1));
    // The ring is full: 3 takes the slot of 1.
    assert!(!p.should_promote(3, 2));
    assert!(!p.should_promote(1, 3));
    // 1 took the slot of 2.
    assert!(p.should_promote(3, 4));
    assert!(!p.should_promote(2, 5));
}

#[test]
fn second_hit_slot_freed_by_a_promotion_is_reused_in_turn() {
    let mut p = SecondHit::new(2);
    assert!(!p.should_promote(1, 0));
    assert!(!p.should_promote(2, 1));
    assert!(p.should_promote(1, 2));
    // The ring is full (slot of 1 empty, 2): 3 takes slot 0, then 4 takes
    // slot 1 and pushes 2 out.
    assert!(!p.should_promote(3, 3));
    assert!(!p.should_promote(4, 4));
    assert!(!p.should_promote(2, 5));
    assert!(p.should_promote(4, 6));
}

#[test]
fn second_hit_window_of_zero_can_be_built() {
    let p = SecondHit::new(0);
    assert_eq!(p.label(), "second-hit-0");
}

#[test]
fn second_hit_window_of_one() {
    let mut p = SecondHit::new(1);
    assert!(!p.should_promote(1, 0));
    assert!(!p.should_promote(2, 1));
    assert!(!p.should_promote(1, 2));
    assert!(p.should_promote(1, 3));
}

#[test]
fn recent_reuse_promotes_within_the_threshold() {
    let mut p = RecentReuse::new(5);
    assert!(!p.should_promote(1, 10));
    assert!(p.should_promote(1, 15));
    assert!(!p.should_promote(1, 21));
    assert!(p.should_promote(1, 21));
    assert!(!p.should_promote(2, 22));
    assert_eq!(p.label(), "reuse-within-5");
    // Times are per key: another key may come at an earlier time.
    assert!(!p.should_promote(3, 4));
    assert!(p.should_promote(3, 6));
}

#[test]
fn recent_reuse_with_zero_threshold() {
    let mut p = RecentReuse::new(0);
    assert!(!p.should_promote(4, 3));
    assert!(p.should_promote(4, 3));
    assert!(!p.should_promote(4, 4));
    assert_eq!(p.label(), "reuse-within-0");
}

#[test]
fn admission_policies_and_labels() {
    let mut d = AdmitToDram;
    let mut f = AdmitToFlash;
    assert!(d.admit_to_dram(1, 0));
    assert!(!f.admit_to_dram(1, 0));
    assert_eq!(d.label(), "admit-dram");
    assert_eq!(f.label(), "admit-flash");
}
