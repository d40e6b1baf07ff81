//! The names by which policies and spill modes are chosen.
use vstd::prelude::*;
use crate::sim::SpillMode;
use crate::eviction::EvictionPolicy;
use crate::fifo::Fifo;
use crate::lfu::{AllkeysLfu, LfuTables};
use crate::lru::AllkeysLru;
use crate::random::AllkeysRandom;
use crate::truelru::TrueLru;
use crate::promotion::{AlwaysPromote, NeverPromote, PromotionPolicy, RecentReuse, SecondHit};
use crate::text::{decimal, lemma_decimal_reads_back, parse_u64, parse_u64_spec, parse_usize, parse_usize_spec, str_eq, str_starts_with, str_strip_prefix};

verus! {

/// The eviction policies there are.
#[derive(Clone, Copy, PartialEq, Eq, Debug)]
pub enum PolicyKind {
    AllkeysLru,
    AllkeysTrueLru,
    AllkeysLfu,
    AllkeysRandom,
    Fifo,
    /// Any name that starts with `s3-fifo`; what follows carries its
    /// parameters.
    S3Fifo,
}

/// The eviction policy a name stands for.
pub open spec fn policy_kind_spec(name: Seq<char>) -> Option<PolicyKind> {
    if "s3-fifo"@.is_prefix_of(name) {
        Some(PolicyKind::S3Fifo)
    } else if name == "allkeys-lru"@ {
        Some(PolicyKind::AllkeysLru)
    } else if name == "allkeys-truelru"@ {
        Some(PolicyKind::AllkeysTrueLru)
    } else if name == "allkeys-lfu"@ {
        Some(PolicyKind::AllkeysLfu)
    } else if name == "allkeys-random"@ {
        Some(PolicyKind::AllkeysRandom)
    } else if name == "fifo"@ {
        Some(PolicyKind::Fifo)
    } else {
        None
    }
}

/// The eviction policy named `name`; `None` for an unknown name.
pub fn policy_kind(name: &str) -> (r: Option<PolicyKind>)
    ensures
        r == policy_kind_spec(name@),
{
    if str_starts_with(name, "s3-fifo") {
        Some(PolicyKind::S3Fifo)
    } else if str_eq(name, "allkeys-lru") {
        Some(PolicyKind::AllkeysLru)
    } else if str_eq(name, "allkeys-truelru") {
        Some(PolicyKind::AllkeysTrueLru)
    } else if str_eq(name, "allkeys-lfu") {
        Some(PolicyKind::AllkeysLfu)
    } else if str_eq(name, "allkeys-random") {
        Some(PolicyKind::AllkeysRandom)
    } else if str_eq(name, "fifo") {
        Some(PolicyKind::Fifo)
    } else {
        None
    }
}

/// A policy as a name builds it.
pub enum Policy {
    Lru(AllkeysLru),
    TrueLru(TrueLru),
    Lfu(AllkeysLfu),
    Random(AllkeysRandom),
    Fifo(Fifo),
}

/// An empty policy, ready for a run, with budget `cap` and no admission
/// filter of its own.
pub open spec fn fresh<E: EvictionPolicy>(p: E, cap: u64) -> bool {
    &&& p.wf()
    &&& p.settled()
    &&& p.footprint() == 0
    &&& p.capacity() == cap as int
    &&& p.bytes() == 0
    &&& p.resident() == Set::<u64>::empty()
    &&& p.clock_ok(0)
    &&& p.takes_all()
}

/// The policy a name builds with a budget of `cap` bytes, with the settings
/// of Valkey's defaults: 5 samples per eviction and seed 42 (so generator
/// state 43) for the sampled policies, and for LFU a log factor of 10, a
/// decay time of 1 minute and 1000 time units per minute. S3-FIFO takes its
/// targets as ratios of the budget and is built elsewhere: `None`.
pub fn make_policy(kind: PolicyKind, cap: u64) -> (r: Option<Policy>)
    ensures
        kind is AllkeysLru ==> (r matches Some(Policy::Lru(p)) && fresh(p, cap) && p.model() == (
            Seq::<u64>::empty(),
            Seq::<u64>::empty(),
            Seq::<u64>::empty(),
            43u64,
            0int,
            cap,
            5usize,
        )),
        kind is AllkeysTrueLru ==> (r matches Some(Policy::TrueLru(p)) && fresh(p, cap) && p.model() == (
            Seq::<(u64, u64)>::empty(),
            Map::<u64, u64>::empty(),
            0int,
            cap,
        )),
        kind is AllkeysLfu ==> (r matches Some(Policy::Lfu(p)) && fresh(p, cap) && p.model() == (
            LfuTables {
                keys: Seq::<u64>::empty(),
                sizes: Seq::<u64>::empty(),
                counters: Seq::<u8>::empty(),
                decays: Seq::<u64>::empty(),
            },
            43u64,
            0int,
            cap,
            (5usize, 10u64, 1u64, 1000u64),
        )),
        kind is AllkeysRandom ==> (r matches Some(Policy::Random(p)) && fresh(p, cap) && p.model() == (
            Seq::<u64>::empty(),
            Seq::<u64>::empty(),
            43u64,
            0int,
            cap,
        )),
        kind is Fifo ==> (r matches Some(Policy::Fifo(p)) && fresh(p, cap) && p.model() == (
            Seq::<(u64, u64)>::empty(),
            Map::<u64, u64>::empty(),
            0int,
            cap,
        )),
        kind is S3Fifo ==> r is None,
{
    proof {
        assert(42u64 | 1u64 == 43u64) by (bit_vector);
    }
    match kind {
        PolicyKind::AllkeysLru => Some(Policy::Lru(AllkeysLru::new(cap, 5, 42))),
        PolicyKind::AllkeysTrueLru => Some(Policy::TrueLru(TrueLru::new(cap))),
        PolicyKind::AllkeysLfu => Some(Policy::Lfu(AllkeysLfu::new(cap, 5, 10, 1, 1000, 42))),
        PolicyKind::AllkeysRandom => Some(Policy::Random(AllkeysRandom::new(cap, 42))),
        PolicyKind::Fifo => Some(Policy::Fifo(Fifo::new(cap))),
        PolicyKind::S3Fifo => None,
    }
}

/// The promotion policies there are, with their parameter.
#[derive(Clone, Copy, PartialEq, Eq, Debug)]
pub enum PromotionKind {
    Always,
    Never,
    /// `second-hit-N`: promote on a second flash hit within `N` first hits.
    SecondHit(usize),
    /// `reuse-within-N`: promote when the flash hit comes within `N` of the
    /// previous one.
    RecentReuse(u64),
}

/// Why a promotion name was refused.
#[derive(Clone, Copy, PartialEq, Eq, Debug)]
pub enum PromotionNameError {
    /// `second-hit-` followed by something other than a window size.
    BadWindow,
    /// `reuse-within-` followed by something other than a threshold.
    BadThreshold,
    /// None of the names.
    Unknown,
}

/// The promotion policy a name stands for.
pub open spec fn promotion_kind_spec(name: Seq<char>) -> Result<PromotionKind, PromotionNameError> {
    if "second-hit-"@.is_prefix_of(name) {
        match parse_usize_spec(name.skip("second-hit-"@.len() as int)) {
            Some(n) => Ok(PromotionKind::SecondHit(n)),
            None => Err(PromotionNameError::BadWindow),
        }
    } else if "reuse-within-"@.is_prefix_of(name) {
        match parse_u64_spec(name.skip("reuse-within-"@.len() as int)) {
            Some(n) => Ok(PromotionKind::RecentReuse(n)),
            None => Err(PromotionNameError::BadThreshold),
        }
    } else if name == "always"@ {
        Ok(PromotionKind::Always)
    } else if name == "never"@ {
        Ok(PromotionKind::Never)
    } else {
        Err(PromotionNameError::Unknown)
    }
}

/// The promotion policy named `name`: `always`, `never`, `second-hit-N` or
/// `reuse-within-N`.
pub fn promotion_kind(name: &str) -> (r: Result<PromotionKind, PromotionNameError>)
    ensures
        r == promotion_kind_spec(name@),
{
    if let Some(n) = str_strip_prefix(name, "second-hit-") {
        match parse_usize(n) {
            Some(w) => Ok(PromotionKind::SecondHit(w)),
            None => Err(PromotionNameError::BadWindow),
        }
    } else if let Some(n) = str_strip_prefix(name, "reuse-within-") {
        match parse_u64(n) {
            Some(th) => Ok(PromotionKind::RecentReuse(th)),
            None => Err(PromotionNameError::BadThreshold),
        }
    } else if str_eq(name, "always") {
        Ok(PromotionKind::Always)
    } else if str_eq(name, "never") {
        Ok(PromotionKind::Never)
    } else {
        Err(PromotionNameError::Unknown)
    }
}

/// The admission policies there are.
#[derive(Clone, Copy, PartialEq, Eq, Debug)]
pub enum AdmissionKind {
    Dram,
    Flash,
}

/// The admission policy named `name` (`admit-dram` or `admit-flash`).
pub fn admission_kind(name: &str) -> (r: Option<AdmissionKind>)
    ensures
        r == (if name@ == "admit-dram"@ {
            Some(AdmissionKind::Dram)
        } else if name@ == "admit-flash"@ {
            Some(AdmissionKind::Flash)
        } else {
            None
        }),
{
    if str_eq(name, "admit-dram") {
        Some(AdmissionKind::Dram)
    } else if str_eq(name, "admit-flash") {
        Some(AdmissionKind::Flash)
    } else {
        None
    }
}

/// The spill modes that `name` selects (`key-spilling`, `no-key-spilling`
/// or `both`, in that order).
pub fn spill_modes(name: &str) -> (r: Option<Vec<SpillMode>>)
    ensures
        name@ == "key-spilling"@ ==> r is Some && r->0@ == seq![SpillMode::KeySpilling],
        name@ == "no-key-spilling"@ ==> r is Some && r->0@ == seq![SpillMode::NoKeySpilling],
        name@ == "both"@ ==> r is Some && r->0@ == seq![SpillMode::KeySpilling, SpillMode::NoKeySpilling],
        name@ != "key-spilling"@ && name@ != "no-key-spilling"@ && name@ != "both"@ ==> r is None,
{
    proof {
        reveal_strlit("key-spilling");
        reveal_strlit("no-key-spilling");
        reveal_strlit("both");
        assert("key-spilling"@[0] != "no-key-spilling"@[0]);
        assert("key-spilling"@[0] != "both"@[0]);
        assert("no-key-spilling"@[0] != "both"@[0]);
    }
    if str_eq(name, "key-spilling") {
        Some(vec![SpillMode::KeySpilling])
    } else if str_eq(name, "no-key-spilling") {
        Some(vec![SpillMode::NoKeySpilling])
    } else if str_eq(name, "both") {
        Some(vec![SpillMode::KeySpilling, SpillMode::NoKeySpilling])
    } else {
        None
    }
}

/// A promotion policy's label names it again: read by `promotion_kind`, the
/// label of each policy gives the same kind of policy with the same window or
/// threshold.
pub proof fn lemma_promotion_labels_read_back(
    a: AlwaysPromote,
    n: NeverPromote,
    s: SecondHit,
    r: RecentReuse,
)
    ensures
        promotion_kind_spec(a.label_text()) == Ok::<PromotionKind, PromotionNameError>(
            PromotionKind::Always,
        ),
        promotion_kind_spec(n.label_text()) == Ok::<PromotionKind, PromotionNameError>(
            PromotionKind::Never,
        ),
        promotion_kind_spec(s.label_text()) == Ok::<PromotionKind, PromotionNameError>(
            PromotionKind::SecondHit(s.window()),
        ),
        promotion_kind_spec(r.label_text()) == Ok::<PromotionKind, PromotionNameError>(
            PromotionKind::RecentReuse(r.threshold()),
        ),
{
    reveal_strlit("always");
    reveal_strlit("never");
    reveal_strlit("second-hit-");
    reveal_strlit("reuse-within-");
    let sh = "second-hit-"@;
    let rw = "reuse-within-"@;
    assert(!sh.is_prefix_of("always"@)) by {
        assert(sh[0] != "always"@[0]);
    }
    assert(!rw.is_prefix_of("always"@)) by {
        assert(rw[0] != "always"@[0]);
    }
    assert(!sh.is_prefix_of("never"@)) by {
        assert(sh[0] != "never"@[0]);
    }
    assert(!rw.is_prefix_of("never"@)) by {
        assert(rw[0] != "never"@[0]);
    }

    let w = s.window();
    let ls = sh + decimal(w as nat);
    lemma_decimal_reads_back(w as nat);
    assert(sh.is_prefix_of(ls)) by {
        assert(ls.subrange(0, sh.len() as int) =~= sh);
    }
    assert(ls.skip(sh.len() as int) =~= decimal(w as nat));

    let th = r.threshold();
    let lr = rw + decimal(th as nat);
    lemma_decimal_reads_back(th as nat);
    assert(!sh.is_prefix_of(lr)) by {
        assert(lr[0] == rw[0]);
        assert(sh[0] != rw[0]);
    }
    assert(rw.is_prefix_of(lr)) by {
        assert(lr.subrange(0, rw.len() as int) =~= rw);
    }
    assert(lr.skip(rw.len() as int) =~= decimal(th as nat));
}

} // verus!
