use mrc_sim::eviction::EvictionPolicy;
use mrc_sim::names::{make_policy, Policy};
use mrc_sim::names::{
    admission_kind, policy_kind, promotion_kind, spill_modes, AdmissionKind, PolicyKind, PromotionKind,
    PromotionNameError,
};
use mrc_sim::promotion::{AlwaysPromote, NeverPromote, PromotionPolicy, RecentReuse, SecondHit};
use mrc_sim::sim::SpillMode;

#[test]
fn policy_names() {
    assert_eq!(policy_kind("allkeys-lru"), Some(PolicyKind::AllkeysLru));
    assert_eq!(policy_kind("allkeys-truelru"), Some(PolicyKind::AllkeysTrueLru));
    assert_eq!(policy_kind("allkeys-lfu"), Some(PolicyKind::AllkeysLfu));
    assert_eq!(policy_kind("allkeys-random"), Some(PolicyKind::AllkeysRandom));
    assert_eq!(policy_kind("fifo"), Some(PolicyKind::Fifo));
    assert_eq!(policy_kind("s3-fifo"), Some(PolicyKind::S3Fifo));
    assert_eq!(policy_kind("s3-fifo:s=0.2:g=0.5"), Some(PolicyKind::S3Fifo));
    assert_eq!(policy_kind("lru"), None);
    assert_eq!(policy_kind("allkeys-lru "), None);
    assert_eq!(policy_kind(""), None);
}

#[test]
fn promotion_names() {
    assert_eq!(promotion_kind("always"), Ok(PromotionKind::Always));
    assert_eq!(promotion_kind("never"), Ok(PromotionKind::Never));
    assert_eq!(promotion_kind("second-hit-50000"), Ok(PromotionKind::SecondHit(50000)));
    assert_eq!(promotion_kind("second-hit-+3"), Ok(PromotionKind::SecondHit(3)));
    assert_eq!(promotion_kind("reuse-within-1000"), Ok(PromotionKind::RecentReuse(1000)));
    assert_eq!(promotion_kind("reuse-within-0"), Ok(PromotionKind::RecentReuse(0)));
}

#[test]
fn promotion_name_errors() {
    assert_eq!(promotion_kind("second-hit-"), Err(PromotionNameError::BadWindow));
    assert_eq!(promotion_kind("second-hit-x"), Err(PromotionNameError::BadWindow));
    assert_eq!(promotion_kind("second-hit--1"), Err(PromotionNameError::BadWindow));
    assert_eq!(promotion_kind("reuse-within-1.5"), Err(PromotionNameError::BadThreshold));
    assert_eq!(
        promotion_kind("reuse-within-18446744073709551616"),
        Err(PromotionNameError::BadThreshold)
    );
    assert_eq!(promotion_kind("sometimes"), Err(PromotionNameError::Unknown));
    assert_eq!(promotion_kind("Always"), Err(PromotionNameError::Unknown));
}

#[test]
fn admission_names() {
    assert_eq!(admission_kind("admit-dram"), Some(AdmissionKind::Dram));
    assert_eq!(admission_kind("admit-flash"), Some(AdmissionKind::Flash));
    assert_eq!(admission_kind("admit"), None);
}

#[test]
fn spill_mode_names() {
    assert_eq!(spill_modes("key-spilling"), Some(vec![SpillMode::KeySpilling]));
    assert_eq!(spill_modes("no-key-spilling"), Some(vec![SpillMode::NoKeySpilling]));
    assert_eq!(spill_modes("both"), Some(vec![SpillMode::KeySpilling, SpillMode::NoKeySpilling]));
    assert_eq!(spill_modes("all"), None);
    assert_eq!(SpillMode::KeySpilling.label(), "key-spilling");
    assert_eq!(SpillMode::NoKeySpilling.label(), "no-key-spilling");
}

#[test]
fn names_build_policies_with_their_settings() {
    assert!(matches!(make_policy(PolicyKind::AllkeysLru, 10), Some(Policy::Lru(_))));
    assert!(matches!(make_policy(PolicyKind::AllkeysTrueLru, 10), Some(Policy::TrueLru(_))));
    assert!(matches!(make_policy(PolicyKind::AllkeysLfu, 10), Some(Policy::Lfu(_))));
    assert!(matches!(make_policy(PolicyKind::AllkeysRandom, 10), Some(Policy::Random(_))));
    assert!(make_policy(PolicyKind::S3Fifo, 10).is_none());
    match make_policy(PolicyKind::Fifo, 10) {
        Some(Policy::Fifo(mut f)) => {
            assert!(f.admit_entry(1, 10, 0).is_empty());
            assert_eq!(f.admit_entry(2, 1, 1), vec![1]);
        }
        _ => panic!("fifo builds a Fifo"),
    }
}

#[test]
fn promotion_labels_read_back() {
    assert_eq!(promotion_kind(&AlwaysPromote.label()), Ok(PromotionKind::Always));
    assert_eq!(promotion_kind(&NeverPromote.label()), Ok(PromotionKind::Never));
    assert_eq!(promotion_kind(&SecondHit::new(0).label()), Ok(PromotionKind::SecondHit(0)));
    assert_eq!(promotion_kind(&SecondHit::new(1024).label()), Ok(PromotionKind::SecondHit(1024)));
    assert_eq!(promotion_kind(&RecentReuse::new(37).label()), Ok(PromotionKind::RecentReuse(37)));
    assert_eq!(
        promotion_kind(&RecentReuse::new(u64::MAX).label()),
        Ok(PromotionKind::RecentReuse(u64::MAX))
    );
}
