//! s3-fifo: a small FIFO for new keys, a main FIFO with second-chance
//! frequency bits for keys that proved reuse, and a ghost FIFO remembering
//! keys recently evicted from the small queue (scan resistance).
//!
//! `remove` only unbinds a key's frequency; its queue entry and its bytes
//! stay until the entry reaches the front, where it is skipped.
use vstd::prelude::*;
use std::collections::VecDeque;
use rustc_hash::FxHashMap;
use crate::eviction::{EvictionPolicy, room_limit};
use crate::fifo::{qkeys, qsum, lemma_qsum_push, lemma_qsum_nonneg};
use crate::fxmap::{fx_map_new, fx_map_get, fx_map_insert, fx_map_remove, fx_map_contains};

verus! {

/// The abstract state of an s3-fifo cache.
pub struct S3View {
    pub small: Seq<(u64, u64)>,
    pub small_freq: Map<u64, u8>,
    pub small_bytes: int,
    pub main: Seq<(u64, u64)>,
    pub main_freq: Map<u64, u8>,
    pub main_bytes: int,
    pub ghost_keys: Set<u64>,
    pub ghost_queue: Seq<u64>,
}

pub open spec fn min3(f: u8) -> u8 {
    if f < 3 {
        f
    } else {
        3
    }
}

/// One round of main-queue eviction with `budget` pops: a stale entry is
/// dropped, an entry with frequency `f >= 1` goes to the back with
/// `min(f, 3) - 1`, an entry with frequency 0 is evicted. Gives the queue,
/// frequencies and bytes after, and the evicted key if any.
pub open spec fn main_rot(mq: Seq<(u64, u64)>, mf: Map<u64, u8>, mb: int, budget: nat) -> (
    Seq<(u64, u64)>,
    Map<u64, u8>,
    int,
    Option<u64>,
)
    decreases budget,
{
    if budget == 0 || mq.len() == 0 {
        (mq, mf, mb, None)
    } else {
        let e = mq[0];
        let rest = mq.drop_first();
        if !mf.contains_key(e.0) {
            main_rot(rest, mf, mb, (budget - 1) as nat)
        } else if mf[e.0] >= 1 {
            main_rot(rest.push(e), mf.insert(e.0, (min3(mf[e.0]) - 1) as u8), mb, (budget - 1) as nat)
        } else {
            (rest, mf.remove(e.0), mb - e.1, Some(e.0))
        }
    }
}

/// What a small-queue pop did.
pub enum SmallPop {
    /// The first live entry had been used again: it moved to main.
    Promoted,
    /// The first live entry had not: it left the cache.
    Evicted(u64),
    /// Only stale entries were left.
    Empty,
}

/// Pops the small queue up to its first live entry and moves it to main
/// (frequency 0) or out of the cache. Gives small queue, frequencies and
/// bytes, main queue, frequencies and bytes, and what happened.
pub open spec fn small_pop(
    sq: Seq<(u64, u64)>,
    sf: Map<u64, u8>,
    sb: int,
    mq: Seq<(u64, u64)>,
    mf: Map<u64, u8>,
    mb: int,
) -> (Seq<(u64, u64)>, Map<u64, u8>, int, Seq<(u64, u64)>, Map<u64, u8>, int, SmallPop)
    decreases sq.len(),
{
    if sq.len() == 0 {
        (sq, sf, sb, mq, mf, mb, SmallPop::Empty)
    } else {
        let e = sq[0];
        let rest = sq.drop_first();
        if !sf.contains_key(e.0) {
            small_pop(rest, sf, sb, mq, mf, mb)
        } else if sf[e.0] >= 1 {
            (rest, sf.remove(e.0), sb - e.1, mq.push(e), mf.insert(e.0, 0), mb + e.1, SmallPop::Promoted)
        } else {
            (rest, sf.remove(e.0), sb - e.1, mq, mf, mb, SmallPop::Evicted(e.0))
        }
    }
}

/// Drops the oldest ghost entries (and unbinds their keys) while more than
/// `cap` remain.
pub open spec fn ghost_trim(gq: Seq<u64>, g: Set<u64>, cap: int) -> (Seq<u64>, Set<u64>)
    decreases gq.len(),
{
    if gq.len() > cap && gq.len() > 0 {
        ghost_trim(gq.drop_first(), g.remove(gq[0]), cap)
    } else {
        (gq, g)
    }
}

/// The ghost queue after remembering `k`: at most `max(ghost_target, 100)`
/// entries are kept.
pub open spec fn ghost_add(gq: Seq<u64>, g: Set<u64>, k: u64, ghost_target: usize) -> (Seq<u64>, Set<u64>) {
    let cap: int = if ghost_target > 100 { ghost_target as int } else { 100 };
    ghost_trim(gq.push(k), g.insert(k), cap)
}

/// Trimming drops exactly the oldest entries beyond `cap`, and forgets
/// their keys.
pub proof fn lemma_ghost_trim(gq: Seq<u64>, g: Set<u64>, cap: int)
    requires
        cap >= 0,
    ensures
        ({
            let d = if gq.len() > cap { gq.len() - cap } else { 0 };
            let r = ghost_trim(gq, g, cap);
            &&& r.0 == gq.subrange(d, gq.len() as int)
            &&& forall|x: u64| #[trigger] r.1.contains(x) <==> g.contains(x) && !gq.subrange(0, d).contains(x)
        }),
    decreases gq.len(),
{
    if gq.len() > cap && gq.len() > 0 {
        let q1 = gq.drop_first();
        let g1 = g.remove(gq[0]);
        lemma_ghost_trim(q1, g1, cap);
        let d = gq.len() - cap;
        assert(q1.subrange(d - 1, q1.len() as int) =~= gq.subrange(d, gq.len() as int));
        let r = ghost_trim(q1, g1, cap);
        assert forall|x: u64| #[trigger] r.1.contains(x) <==> g.contains(x) && !gq.subrange(0, d).contains(x) by {
            let a = gq.subrange(0, d);
            let b = q1.subrange(0, d - 1);
            if a.contains(x) {
                let j = choose|j: int| 0 <= j < a.len() && a[j] == x;
                if j > 0 {
                    assert(b[j - 1] == x);
                }
            }
            if b.contains(x) {
                let j = choose|j: int| 0 <= j < b.len() && b[j] == x;
                assert(a[j + 1] == x);
            }
            assert(a[0] == gq[0]);
        }
    } else {
        assert(gq.subrange(0, gq.len() as int) =~= gq);
        assert(gq.subrange(0, 0) =~= Seq::<u64>::empty());
    }
}

/// A key evicted from small is remembered: the ghost queue after
/// `ghost_add` ends with `k` and holds at most `max(ghost_target, 100)`
/// entries (the oldest are dropped, in order, and their keys forgotten);
/// `k` is among the remembered keys unless an older entry of `k` itself was
/// dropped, so always when the queue did not hold `k` before.
pub proof fn lemma_ghost_remembers(gq: Seq<u64>, g: Set<u64>, k: u64, ghost_target: usize)
    ensures
        ({
            let cap: int = if ghost_target > 100 { ghost_target as int } else { 100 };
            let q = gq.push(k);
            let d = if q.len() > cap { q.len() - cap } else { 0 };
            let r = ghost_add(gq, g, k, ghost_target);
            &&& 1 <= r.0.len() <= cap
            &&& r.0.last() == k
            &&& r.0 == q.subrange(d, q.len() as int)
            &&& forall|x: u64| #[trigger] r.1.contains(x) <==> (g.contains(x) || x == k) && !gq.subrange(0, d).contains(x)
            &&& !gq.contains(k) ==> r.1.contains(k)
            &&& gq.len() < cap ==> r.0 == gq.push(k) && r.1 == g.insert(k)
        }),
{
    let cap: int = if ghost_target > 100 { ghost_target as int } else { 100 };
    let q = gq.push(k);
    let d = if q.len() > cap { q.len() - cap } else { 0 };
    lemma_ghost_trim(q, g.insert(k), cap);
    assert(q.subrange(0, d) =~= gq.subrange(0, d));
    let r = ghost_add(gq, g, k, ghost_target);
    assert(r.0[r.0.len() - 1] == q[q.len() - 1]);
    if !gq.contains(k) {
        if gq.subrange(0, d).contains(k) {
            let j = choose|j: int| 0 <= j < d && gq.subrange(0, d)[j] == k;
            assert(gq[j] == k);
        }
    }
    if gq.len() < cap {
        assert(q.subrange(0, q.len() as int) =~= q);
        assert(r.1 =~= g.insert(k));
    }
}

/// Second chance in main: in a main-queue eviction round, an entry with
/// frequency at least 1 is not evicted when it is popped; it moves to the
/// back with frequency `min(f, 3) - 1`. So when the first `i` entries are
/// live with frequency at least 1 and entry `i` is live with frequency 0
/// (distinct keys, within the round's pops), the round evicts entry `i`,
/// and the entries before it end up, in order, at the back of main.
pub proof fn lemma_main_second_chance(mq: Seq<(u64, u64)>, mf: Map<u64, u8>, mb: int, budget: nat, i: int)
    requires
        0 <= i < mq.len(),
        i < budget,
        forall|j: int| #![trigger mq[j]] 0 <= j < i ==> mf.contains_key(mq[j].0) && mf[mq[j].0] >= 1,
        mf.contains_key(mq[i].0),
        mf[mq[i].0] == 0,
        forall|a: int, b: int| 0 <= a < b <= i ==> mq[a].0 != mq[b].0,
    ensures
        ({
            let r = main_rot(mq, mf, mb, budget);
            &&& r.3 == Some(mq[i].0)
            &&& r.0 == mq.subrange(i + 1, mq.len() as int) + mq.subrange(0, i)
            &&& r.2 == mb - mq[i].1
            &&& !r.1.contains_key(mq[i].0)
            &&& forall|j: int|
                0 <= j < i ==> r.1.contains_key(#[trigger] mq[j].0) && r.1[mq[j].0] as int == min3(mf[mq[j].0]) - 1
            &&& forall|k: u64|
                (forall|j: int| 0 <= j <= i ==> mq[j].0 != k) ==> (#[trigger] r.1.contains_key(k) == mf.contains_key(k)
                    && (mf.contains_key(k) ==> r.1[k] == mf[k]))
        }),
    decreases i,
{
    let e = mq[0];
    let rest = mq.drop_first();
    if i == 0 {
        assert(mq.subrange(1, mq.len() as int) + mq.subrange(0, 0) =~= rest);
    } else {
        assert(mf.contains_key(mq[0].0) && mf[mq[0].0] >= 1);
        let q2 = rest.push(e);
        let f2 = mf.insert(e.0, (min3(mf[e.0]) - 1) as u8);
        assert forall|j: int| #![trigger q2[j]] 0 <= j < i - 1 implies f2.contains_key(q2[j].0) && f2[q2[j].0] >= 1 by {
            assert(q2[j] == mq[j + 1]);
            assert(mf.contains_key(mq[j + 1].0) && mf[mq[j + 1].0] >= 1);
            assert(mq[0].0 != mq[j + 1].0);
        }
        assert(q2[i - 1] == mq[i]);
        assert(mq[0].0 != mq[i].0);
        assert forall|a: int, b: int| 0 <= a < b <= i - 1 implies q2[a].0 != q2[b].0 by {
            assert(q2[a] == mq[a + 1]);
            assert(q2[b] == mq[b + 1]);
        }
        lemma_main_second_chance(q2, f2, mb, (budget - 1) as nat, i - 1);
        let r = main_rot(q2, f2, mb, (budget - 1) as nat);
        assert(main_rot(mq, mf, mb, budget) == r);
        assert(q2.subrange(i, q2.len() as int) + q2.subrange(0, i - 1) =~= mq.subrange(i + 1, mq.len() as int)
            + mq.subrange(0, i));
        assert forall|j: int| 0 <= j < i implies r.1.contains_key(#[trigger] mq[j].0) && r.1[mq[j].0] as int
            == min3(mf[mq[j].0]) - 1 by {
            if j == 0 {
                assert forall|jj: int| 0 <= jj <= i - 1 implies q2[jj].0 != e.0 by {
                    assert(q2[jj] == mq[jj + 1]);
                }
            } else {
                assert(q2[j - 1] == mq[j]);
                assert(mq[0].0 != mq[j].0);
                assert(mf.contains_key(mq[j].0) && mf[mq[j].0] >= 1);
            }
        }
        assert forall|k: u64|
            (forall|j: int| 0 <= j <= i ==> mq[j].0 != k) implies (#[trigger] r.1.contains_key(k) == mf.contains_key(k)
                && (mf.contains_key(k) ==> r.1[k] == mf[k])) by {
            assert(mq[0].0 != k);
            assert forall|jj: int| 0 <= jj <= i - 1 implies q2[jj].0 != k by {
                assert(q2[jj] == mq[jj + 1]);
                assert(mq[jj + 1].0 != k);
            }
        }
    }
}

pub proof fn lemma_main_rot_len(mq: Seq<(u64, u64)>, mf: Map<u64, u8>, mb: int, budget: nat)
    ensures
        main_rot(mq, mf, mb, budget).0.len() <= mq.len(),
        main_rot(mq, mf, mb, budget).3 is Some ==> main_rot(mq, mf, mb, budget).0.len() < mq.len(),
    decreases budget,
{
    if budget == 0 || mq.len() == 0 {
    } else {
        let e = mq[0];
        let rest = mq.drop_first();
        if !mf.contains_key(e.0) {
            lemma_main_rot_len(rest, mf, mb, (budget - 1) as nat);
        } else if mf[e.0] >= 1 {
            lemma_main_rot_len(rest.push(e), mf.insert(e.0, (min3(mf[e.0]) - 1) as u8), mb, (budget - 1) as nat);
        }
    }
}

pub proof fn lemma_small_pop_len(
    sq: Seq<(u64, u64)>,
    sf: Map<u64, u8>,
    sb: int,
    mq: Seq<(u64, u64)>,
    mf: Map<u64, u8>,
    mb: int,
)
    ensures
        ({
            let p = small_pop(sq, sf, sb, mq, mf, mb);
            &&& sq.len() > 0 ==> p.0.len() < sq.len()
            &&& p.0.len() <= sq.len()
            &&& p.3.len() <= mq.len() + 1
            &&& p.6 is Evicted ==> p.3 == mq && p.4 == mf && p.5 == mb
            &&& p.6 is Empty ==> p.3 == mq && p.4 == mf && p.5 == mb && p.0.len() == 0
        }),
    decreases sq.len(),
{
    if sq.len() > 0 {
        let e = sq[0];
        if !sf.contains_key(e.0) {
            lemma_small_pop_len(sq.drop_first(), sf, sb, mq, mf, mb);
        }
    }
}

/// The eviction loop: while over budget, evict from main when main is over
/// its target or small is empty; else pop small (a reused key moves to main
/// and the loop goes on, an unused one is evicted). Stops early when main
/// has nothing to give. Gives the state after and the evicted keys in order.
pub open spec fn s3_evict(v: S3View, ghost_target: usize, cap: int, main_target: int) -> (S3View, Seq<u64>)
    decreases 2 * v.small.len() + v.main.len(),
{
    if v.small_bytes + v.main_bytes <= cap {
        (v, Seq::empty())
    } else if v.main_bytes > main_target || v.small.len() == 0 {
        let r = main_rot(v.main, v.main_freq, v.main_bytes, (v.main.len() * 3 + 1) as nat);
        let v2 = S3View { main: r.0, main_freq: r.1, main_bytes: r.2, ..v };
        match r.3 {
            Some(k) => {
                proof {
                    lemma_main_rot_len(v.main, v.main_freq, v.main_bytes, (v.main.len() * 3 + 1) as nat);
                }
                let rest = s3_evict(v2, ghost_target, cap, main_target);
                (rest.0, seq![k] + rest.1)
            },
            None => (v2, Seq::empty()),
        }
    } else {
        let p = small_pop(v.small, v.small_freq, v.small_bytes, v.main, v.main_freq, v.main_bytes);
        proof {
            lemma_small_pop_len(v.small, v.small_freq, v.small_bytes, v.main, v.main_freq, v.main_bytes);
        }
        match p.6 {
            SmallPop::Evicted(k) => {
                let g = ghost_add(v.ghost_queue, v.ghost_keys, k, ghost_target);
                let v2 = S3View {
                    small: p.0,
                    small_freq: p.1,
                    small_bytes: p.2,
                    ghost_queue: g.0,
                    ghost_keys: g.1,
                    ..v
                };
                let rest = s3_evict(v2, ghost_target, cap, main_target);
                (rest.0, seq![k] + rest.1)
            },
            _ => {
                let v1 = S3View {
                    small: p.0,
                    small_freq: p.1,
                    small_bytes: p.2,
                    main: p.3,
                    main_freq: p.4,
                    main_bytes: p.5,
                    ..v
                };
                s3_evict(v1, ghost_target, cap, main_target)
            },
        }
    }
}

/// A main round that evicts nothing leaves the main byte count alone.
pub proof fn lemma_main_rot_bytes(mq: Seq<(u64, u64)>, mf: Map<u64, u8>, mb: int, budget: nat)
    ensures
        main_rot(mq, mf, mb, budget).3 is None ==> main_rot(mq, mf, mb, budget).2 == mb,
    decreases budget,
{
    if budget == 0 || mq.len() == 0 {
    } else {
        let e = mq[0];
        let rest = mq.drop_first();
        if !mf.contains_key(e.0) {
            lemma_main_rot_bytes(rest, mf, mb, (budget - 1) as nat);
        } else if mf[e.0] >= 1 {
            lemma_main_rot_bytes(rest.push(e), mf.insert(e.0, (min3(mf[e.0]) - 1) as u8), mb, (budget - 1) as nat);
        }
    }
}

/// A small pop that evicts nothing keeps the total of small and main.
pub proof fn lemma_small_pop_bytes(
    sq: Seq<(u64, u64)>,
    sf: Map<u64, u8>,
    sb: int,
    mq: Seq<(u64, u64)>,
    mf: Map<u64, u8>,
    mb: int,
)
    ensures
        ({
            let p = small_pop(sq, sf, sb, mq, mf, mb);
            p.6 !is Evicted ==> p.2 + p.5 == sb + mb
        }),
    decreases sq.len(),
{
    if sq.len() > 0 {
        let e = sq[0];
        if !sf.contains_key(e.0) {
            lemma_small_pop_bytes(sq.drop_first(), sf, sb, mq, mf, mb);
        }
    }
}

/// An eviction round that evicts nothing keeps the total bytes.
pub proof fn lemma_s3_evict_bytes(v: S3View, gt: usize, cap: int, mt: int)
    ensures
        ({
            let r = s3_evict(v, gt, cap, mt);
            r.1.len() == 0 ==> r.0.small_bytes + r.0.main_bytes == v.small_bytes + v.main_bytes
        }),
    decreases 2 * v.small.len() + v.main.len(),
{
    let r = s3_evict(v, gt, cap, mt);
    if v.small_bytes + v.main_bytes <= cap {
    } else if v.main_bytes > mt || v.small.len() == 0 {
        lemma_main_rot_bytes(v.main, v.main_freq, v.main_bytes, (v.main.len() * 3 + 1) as nat);
        let m = main_rot(v.main, v.main_freq, v.main_bytes, (v.main.len() * 3 + 1) as nat);
        if m.3 is Some {
            assert(r.1[0] == m.3->0);
        }
    } else {
        let p = small_pop(v.small, v.small_freq, v.small_bytes, v.main, v.main_freq, v.main_bytes);
        lemma_small_pop_bytes(v.small, v.small_freq, v.small_bytes, v.main, v.main_freq, v.main_bytes);
        lemma_small_pop_len(v.small, v.small_freq, v.small_bytes, v.main, v.main_freq, v.main_bytes);
        match p.6 {
            SmallPop::Evicted(k) => {
                assert(r.1[0] == k);
            },
            _ => {
                let v1 = S3View {
                    small: p.0,
                    small_freq: p.1,
                    small_bytes: p.2,
                    main: p.3,
                    main_freq: p.4,
                    main_bytes: p.5,
                    ..v
                };
                lemma_s3_evict_bytes(v1, gt, cap, mt);
            },
        }
    }
}

/// The state after taking a new key in: to main (frequency 0) if the ghost
/// queue remembers it, else to small (frequency 0).
pub open spec fn s3_insert(v: S3View, key: u64, size: u64) -> S3View {
    if v.ghost_keys.contains(key) {
        S3View {
            ghost_keys: v.ghost_keys.remove(key),
            main: v.main.push((key, size)),
            main_freq: v.main_freq.insert(key, 0),
            main_bytes: v.main_bytes + size,
            ..v
        }
    } else {
        S3View {
            small: v.small.push((key, size)),
            small_freq: v.small_freq.insert(key, 0),
            small_bytes: v.small_bytes + size,
            ..v
        }
    }
}

/// The ghost target after taking in an entry of `size`: set from the main
/// target when it was still 0.
pub open spec fn ghost_target_after(ghost_target: usize, main_target: u64, size: u64) -> usize {
    if ghost_target == 0 && size > 0 {
        let q = main_target / size;
        (if q > 100 { q } else { 100 }) as usize
    } else {
        ghost_target
    }
}

/// Structure every state keeps: bound keys have queue entries, small and
/// main keys are disjoint, byte counts cover their queues and fit in `u64`,
/// and the queues fit the slot bound.
pub open spec fn s3_shape(v: S3View) -> bool {
    &&& v.small_freq.dom().finite()
    &&& v.main_freq.dom().finite()
    &&& forall|k: u64| #[trigger] v.small_freq.contains_key(k) ==> qkeys(v.small).contains(k)
    &&& forall|k: u64| #[trigger] v.main_freq.contains_key(k) ==> qkeys(v.main).contains(k)
    &&& forall|k: u64| #[trigger] v.small_freq.contains_key(k) ==> !v.main_freq.contains_key(k)
    &&& v.small_bytes >= qsum(v.small)
    &&& v.main_bytes >= qsum(v.main)
    &&& v.small_bytes + v.main_bytes <= u64::MAX
    &&& v.small.len() + v.main.len() <= room_limit()
}

/// A queue without stale or repeated entries whose total is `bytes`.
pub open spec fn queue_exact(q: Seq<(u64, u64)>, f: Map<u64, u8>, bytes: int) -> bool {
    &&& qkeys(q).no_duplicates()
    &&& forall|j: int| 0 <= j < q.len() ==> #[trigger] f.contains_key(q[j].0)
    &&& bytes == qsum(q)
}

/// No stale entries anywhere.
pub open spec fn s3_exact(v: S3View) -> bool {
    &&& queue_exact(v.small, v.small_freq, v.small_bytes)
    &&& queue_exact(v.main, v.main_freq, v.main_bytes)
}

/// Whether a new key of `size` bytes is taken in: a budget above 0 that
/// holds it, not resident yet, and either remembered by the ghost queue or
/// no larger than the small target.
pub open spec fn s3_admits(v: S3View, capacity: u64, small_target: u64, key: u64, size: u64) -> bool {
    &&& capacity > 0
    &&& size <= capacity
    &&& !s3_resident(v).contains(key)
    &&& (v.ghost_keys.contains(key) || size <= small_target)
}

/// One more use of `k`, its frequency capped at 3.
pub open spec fn bump_freq(m: Map<u64, u8>, k: u64) -> Map<u64, u8> {
    if m[k] < 3 {
        m.insert(k, (m[k] + 1) as u8)
    } else {
        m
    }
}

/// The state after a use of `key`: its frequency in main, else in small,
/// goes up.
pub open spec fn s3_touch(v: S3View, key: u64) -> S3View {
    if v.main_freq.contains_key(key) {
        S3View { main_freq: bump_freq(v.main_freq, key), ..v }
    } else if v.small_freq.contains_key(key) {
        S3View { small_freq: bump_freq(v.small_freq, key), ..v }
    } else {
        v
    }
}

pub struct S3Fifo {
    capacity: u64,
    small_target: u64,
    main_target: u64,
    small_bytes: u64,
    small_queue: VecDeque<(u64, u64)>,
    small_freq: FxHashMap<u64, u8>,
    main_bytes: u64,
    main_queue: VecDeque<(u64, u64)>,
    main_freq: FxHashMap<u64, u8>,
    ghost_set: FxHashMap<u64, ()>,
    ghost_queue: VecDeque<u64>,
    ghost_target: usize,
}

impl S3Fifo {
    pub closed spec fn state(&self) -> S3View {
        S3View {
            small: self.small_queue@,
            small_freq: self.small_freq@,
            small_bytes: self.small_bytes as int,
            main: self.main_queue@,
            main_freq: self.main_freq@,
            main_bytes: self.main_bytes as int,
            ghost_keys: self.ghost_set@.dom(),
            ghost_queue: self.ghost_queue@,
        }
    }

    /// Budget, small target, main target.
    pub closed spec fn targets(&self) -> (u64, u64, u64) {
        (self.capacity, self.small_target, self.main_target)
    }

    pub closed spec fn ghost_target(&self) -> usize {
        self.ghost_target
    }

    /// An empty cache with budget `capacity_bytes`, whose small queue aims
    /// at `small_target` bytes (main gets the rest) and whose ghost queue
    /// keeps `max(ghost_target, 100)` keys.
    pub fn with_targets(capacity_bytes: u64, small_target: u64, ghost_target: usize) -> (r: Self)
        ensures
            r.model() == (
                S3View {
                    small: Seq::<(u64, u64)>::empty(),
                    small_freq: Map::<u64, u8>::empty(),
                    small_bytes: 0,
                    main: Seq::<(u64, u64)>::empty(),
                    main_freq: Map::<u64, u8>::empty(),
                    main_bytes: 0,
                    ghost_keys: Set::<u64>::empty(),
                    ghost_queue: Seq::<u64>::empty(),
                },
                (capacity_bytes, small_target, (if capacity_bytes >= small_target {
                    capacity_bytes - small_target
                } else {
                    0
                }) as u64),
                ghost_target,
            ),
            r.capacity() == capacity_bytes as int,
            r.bytes() == 0,
            r.resident() == Set::<u64>::empty(),
            r.clock_ok(0),
            r.takes_all() == (capacity_bytes <= small_target),
            r.wf(),
            r.settled(),
            r.footprint() == 0,
            r.resident() == Set::<u64>::empty(),
            r.targets() == (capacity_bytes, small_target, (if capacity_bytes >= small_target {
                capacity_bytes - small_target
            } else {
                0
            }) as u64),
            r.ghost_target() == ghost_target,
            r.state().small == Seq::<(u64, u64)>::empty(),
            r.state().main == Seq::<(u64, u64)>::empty(),
            r.state().ghost_queue == Seq::<u64>::empty(),
            r.state().ghost_keys == Set::<u64>::empty(),
    {
        let r = S3Fifo {
            capacity: capacity_bytes,
            small_target,
            main_target: capacity_bytes.saturating_sub(small_target),
            small_bytes: 0,
            small_queue: VecDeque::new(),
            small_freq: fx_map_new(),
            main_bytes: 0,
            main_queue: VecDeque::new(),
            main_freq: fx_map_new(),
            ghost_set: fx_map_new(),
            ghost_queue: VecDeque::new(),
            ghost_target,
        };
        proof {
            assert(r.small_freq@ =~= Map::<u64, u8>::empty());
            assert(r.main_freq@ =~= Map::<u64, u8>::empty());
            assert(r.small_freq@.dom() =~= Set::<u64>::empty());
            assert(r.main_freq@.dom() =~= Set::<u64>::empty());
            assert(r.ghost_set@.dom() =~= Set::<u64>::empty());
            assert(r.small_freq@.dom().union(r.main_freq@.dom()) =~= Set::<u64>::empty());
        }
        r
    }

    fn total_bytes(&self) -> (r: u64)
        requires
            s3_shape(self.state()),
        ensures
            r == self.small_bytes + self.main_bytes,
    {
        self.small_bytes + self.main_bytes
    }

    /// Evicts from main: up to `3 * len + 1` pops, rotating entries with a
    /// frequency left and evicting the first without one.
    fn evict_main(&mut self) -> (r: Option<u64>)
        requires
            s3_shape(old(self).state()),
        ensures
            s3_shape(final(self).state()),
            ({
                let v = old(self).state();
                let m = main_rot(v.main, v.main_freq, v.main_bytes, (v.main.len() * 3 + 1) as nat);
                &&& final(self).state() == S3View { main: m.0, main_freq: m.1, main_bytes: m.2, ..v }
                &&& r == m.3
            }),
            final(self).targets() == old(self).targets(),
            final(self).ghost_target == old(self).ghost_target,
    {
        let ghost v = self.state();
        let ghost target = main_rot(v.main, v.main_freq, v.main_bytes, (v.main.len() * 3 + 1) as nat);
        let mut budget: usize = self.main_queue.len() * 3 + 1;
        while budget > 0
            invariant
                s3_shape(self.state()),
                self.state() == (S3View {
                    main: self.main_queue@,
                    main_freq: self.main_freq@,
                    main_bytes: self.main_bytes as int,
                    ..v
                }),
                main_rot(self.main_queue@, self.main_freq@, self.main_bytes as int, budget as nat)
                    == target,
                v == old(self).state(),
                target == main_rot(v.main, v.main_freq, v.main_bytes, (v.main.len() * 3 + 1) as nat),
                self.targets() == old(self).targets(),
                self.ghost_target == old(self).ghost_target,
            decreases budget,
        {
            let ghost b0 = budget;
            budget = budget - 1;
            let ghost mq = self.main_queue@;
            let ghost mf = self.main_freq@;
            let ghost mb = self.main_bytes as int;
            let ghost pre = self.state();
            if let Some((k, sz)) = self.main_queue.pop_front() {
                proof {
                    assert(self.main_queue@ =~= mq.drop_first());
                    lemma_pop_shape_main(pre);
                }
                proof {
                    assert(main_rot(mq, mf, mb, b0 as nat) == (if !mf.contains_key(k) {
                        main_rot(mq.drop_first(), mf, mb, budget as nat)
                    } else if mf[k] >= 1 {
                        main_rot(mq.drop_first().push((k, sz)), mf.insert(k, (min3(mf[k]) - 1) as u8), mb, budget as nat)
                    } else {
                        (mq.drop_first(), mf.remove(k), mb - sz, Some(k))
                    }));
                }
                let freq = match fx_map_remove(&mut self.main_freq, k) {
                    Some(f) => f,
                    None => {
                        proof {
                            assert(self.main_freq@ =~= mf);
                        }
                        continue;
                    },
                };
                if freq >= 1 {
                    let new_freq: u8 = (if freq < 3 { freq } else { 3 }) - 1;
                    self.main_queue.push_back((k, sz));
                    fx_map_insert(&mut self.main_freq, k, new_freq);
                    proof {
                        assert(self.main_freq@ =~= mf.insert(k, new_freq));
                        lemma_rotate_shape(pre, new_freq);
                    }
                } else {
                    proof {
                        lemma_qsum_nonneg(mq.drop_first());
                        assert(qsum(mq) == sz + qsum(mq.drop_first()));
                    }
                    self.main_bytes = self.main_bytes - sz;
                    return Some(k);
                }
            } else {
                proof {
                    assert(mq.len() == 0);
                    assert(self.main_queue@ == mq);
                }
                return None;
            }
        }
        None
    }

    /// Remembers `key` in the ghost queue, dropping the oldest entries
    /// beyond `max(ghost_target, 100)`.
    fn add_ghost(&mut self, key: u64)
        ensures
            ({
                let v = old(self).state();
                let g = ghost_add(v.ghost_queue, v.ghost_keys, key, old(self).ghost_target);
                final(self).state() == S3View { ghost_queue: g.0, ghost_keys: g.1, ..v }
            }),
            final(self).targets() == old(self).targets(),
            final(self).ghost_target == old(self).ghost_target,
    {
        let ghost v = self.state();
        self.ghost_queue.push_back(key);
        fx_map_insert(&mut self.ghost_set, key, ());
        proof {
            assert(self.ghost_set@.dom() =~= v.ghost_keys.insert(key));
        }
        let cap: usize = if self.ghost_target > 100 { self.ghost_target } else { 100 };
        let ghost target = ghost_add(v.ghost_queue, v.ghost_keys, key, self.ghost_target);
        while self.ghost_queue.len() > cap
            invariant
                cap as int == (if old(self).ghost_target > 100 { old(self).ghost_target as int } else { 100 }),
                ghost_trim(self.ghost_queue@, self.ghost_set@.dom(), cap as int) == target,
                target == ghost_add(v.ghost_queue, v.ghost_keys, key, old(self).ghost_target),
                v == old(self).state(),
                self.state() == (S3View { ghost_queue: self.ghost_queue@, ghost_keys: self.ghost_set@.dom(), ..v }),
                self.targets() == old(self).targets(),
                self.ghost_target == old(self).ghost_target,
            decreases self.ghost_queue@.len(),
        {
            let ghost gq = self.ghost_queue@;
            let ghost gk = self.ghost_set@.dom();
            if let Some(old_key) = self.ghost_queue.pop_front() {
                fx_map_remove(&mut self.ghost_set, old_key);
                proof {
                    assert(self.ghost_queue@ =~= gq.drop_first());
                    assert(self.ghost_set@.dom() =~= gk.remove(gq[0]));
                }
            }
        }
    }

    /// Pops small up to its first live entry: one used again moves to main
    /// (frequency 0); one not used again leaves the cache for the ghost
    /// queue. Gives the evicted key, and whether a key left the cache.
    fn evict_small(&mut self) -> (r: (Option<u64>, bool))
        requires
            s3_shape(old(self).state()),
        ensures
            s3_shape(final(self).state()),
            ({
                let v = old(self).state();
                let p = small_pop(v.small, v.small_freq, v.small_bytes, v.main, v.main_freq, v.main_bytes);
                match p.6 {
                    SmallPop::Evicted(k) => {
                        let g = ghost_add(v.ghost_queue, v.ghost_keys, k, old(self).ghost_target);
                        &&& final(self).state() == S3View {
                            small: p.0,
                            small_freq: p.1,
                            small_bytes: p.2,
                            ghost_queue: g.0,
                            ghost_keys: g.1,
                            ..v
                        }
                        &&& r == (Some(k), true)
                    },
                    _ => {
                        &&& final(self).state() == S3View {
                            small: p.0,
                            small_freq: p.1,
                            small_bytes: p.2,
                            main: p.3,
                            main_freq: p.4,
                            main_bytes: p.5,
                            ..v
                        }
                        &&& r == (None::<u64>, false)
                    },
                }
            }),
            final(self).targets() == old(self).targets(),
            final(self).ghost_target == old(self).ghost_target,
    {
        let ghost v = self.state();
        let ghost target = small_pop(v.small, v.small_freq, v.small_bytes, v.main, v.main_freq, v.main_bytes);
        proof {
            lemma_small_pop(v);
        }
        loop
            invariant
                v == old(self).state(),
                target == small_pop(v.small, v.small_freq, v.small_bytes, v.main, v.main_freq, v.main_bytes),
                s3_shape(S3View {
                    small: target.0,
                    small_freq: target.1,
                    small_bytes: target.2,
                    main: target.3,
                    main_freq: target.4,
                    main_bytes: target.5,
                    ..v
                }),
                small_pop(
                    self.small_queue@,
                    self.small_freq@,
                    self.small_bytes as int,
                    v.main,
                    v.main_freq,
                    v.main_bytes,
                ) == target,
                self.state() == (S3View {
                    small: self.small_queue@,
                    small_freq: self.small_freq@,
                    ..v
                }),
                self.small_bytes >= qsum(self.small_queue@),
                self.small_bytes + self.main_bytes <= u64::MAX,
                self.targets() == old(self).targets(),
                self.ghost_target == old(self).ghost_target,
            decreases self.small_queue@.len(),
        {
            let ghost sq = self.small_queue@;
            let ghost sf = self.small_freq@;
            match self.small_queue.pop_front() {
                Some((k, sz)) => {
                    proof {
                        assert(self.small_queue@ =~= sq.drop_first());
                        lemma_qsum_nonneg(sq.drop_first());
                        assert(qsum(sq) == sz + qsum(sq.drop_first()));
                    }
                    let freq = match fx_map_remove(&mut self.small_freq, k) {
                        Some(f) => f,
                        None => {
                            proof {
                                assert(self.small_freq@ =~= sf);
                            }
                            continue;
                        },
                    };
                    self.small_bytes = self.small_bytes - sz;
                    if freq >= 1 {
                        self.main_queue.push_back((k, sz));
                        fx_map_insert(&mut self.main_freq, k, 0);
                        self.main_bytes = self.main_bytes + sz;
                        return (None, false);
                    } else {
                        self.add_ghost(k);
                        return (Some(k), true);
                    }
                },
                None => {
                    return (None, false);
                },
            }
        }
    }

    /// Evicts while over budget; hands back the evicted keys in order.
    fn evict(&mut self) -> (evicted: Vec<u64>)
        requires
            s3_shape(old(self).state()),
        ensures
            s3_shape(final(self).state()),
            (final(self).state(), evicted@) == s3_evict(
                old(self).state(),
                old(self).ghost_target,
                old(self).capacity as int,
                old(self).main_target as int,
            ),
            final(self).targets() == old(self).targets(),
            final(self).ghost_target == old(self).ghost_target,
    {
        let mut evicted: Vec<u64> = Vec::new();
        let ghost gt = self.ghost_target;
        let ghost cap = self.capacity as int;
        let ghost mt = self.main_target as int;
        let ghost target = s3_evict(self.state(), gt, cap, mt);
        while self.total_bytes() > self.capacity
            invariant_except_break
                s3_shape(self.state()),
                self.targets() == old(self).targets(),
                self.ghost_target == gt,
                gt == old(self).ghost_target,
                cap == old(self).capacity as int,
                mt == old(self).main_target as int,
                target == s3_evict(old(self).state(), gt, cap, mt),
                ({
                    let r = s3_evict(self.state(), gt, cap, mt);
                    &&& r.0 == target.0
                    &&& target.1 == evicted@ + r.1
                }),
            ensures
                s3_shape(self.state()),
                self.targets() == old(self).targets(),
                self.ghost_target == gt,
                self.state() == target.0,
                evicted@ == target.1,
            decreases 2 * self.state().small.len() + self.state().main.len(),
        {
            let ghost v = self.state();
            let ghost pre_ev = evicted@;
            proof {
                lemma_main_rot_len(v.main, v.main_freq, v.main_bytes, (v.main.len() * 3 + 1) as nat);
                lemma_small_pop_len(v.small, v.small_freq, v.small_bytes, v.main, v.main_freq, v.main_bytes);
            }
            if self.main_bytes > self.main_target || self.small_queue.len() == 0 {
                if let Some(k) = self.evict_main() {
                    evicted.push(k);
                    proof {
                        let r = s3_evict(self.state(), gt, cap, mt);
                        assert(pre_ev + (seq![k] + r.1) =~= evicted@ + r.1);
                    }
                } else {
                    proof {
                        assert(evicted@ + Seq::<u64>::empty() =~= evicted@);
                    }
                    break;
                }
            } else {
                let (k, freed) = self.evict_small();
                if freed {
                    if let Some(k) = k {
                        evicted.push(k);
                        proof {
                            let r = s3_evict(self.state(), gt, cap, mt);
                            assert(pre_ev + (seq![k] + r.1) =~= evicted@ + r.1);
                        }
                    }
                }
            }
        }
        proof {
            if self.small_bytes + self.main_bytes <= self.capacity {
                assert(evicted@ + Seq::<u64>::empty() =~= evicted@);
            }
        }
        evicted
    }

    /// Whether `key` has a frequency in small or main.
    fn is_resident(&self, key: u64) -> (r: bool)
        ensures
            r == s3_resident(self.state()).contains(key),
    {
        fx_map_contains(&self.small_freq, key) || fx_map_contains(&self.main_freq, key)
    }

    /// Takes a new key in (to main if the ghost queue remembers it, to small
    /// if it fits the small target); false when refused.
    fn take_in(&mut self, key: u64, value_size: u64) -> (taken: bool)
        requires
            s3_shape(old(self).state()),
            !s3_resident(old(self).state()).contains(key),
            old(self).state().ghost_keys.contains(key) || value_size <= old(self).small_target ==> {
                &&& old(self).small_bytes + old(self).main_bytes + value_size <= u64::MAX
                &&& old(self).state().small.len() + old(self).state().main.len() < room_limit()
            },
        ensures
            taken == (old(self).state().ghost_keys.contains(key) || value_size <= old(self).small_target),
            taken ==> final(self).state() == s3_insert(old(self).state(), key, value_size),
            !taken ==> final(self).state() == old(self).state(),
            s3_shape(final(self).state()),
            final(self).targets() == old(self).targets(),
            final(self).ghost_target == old(self).ghost_target,
    {
        let ghost v = self.state();
        if fx_map_remove(&mut self.ghost_set, key).is_some() {
            self.main_queue.push_back((key, value_size));
            fx_map_insert(&mut self.main_freq, key, 0);
            self.main_bytes = self.main_bytes + value_size;
            proof {
                lemma_insert_shape(v, key, value_size);
            }
            true
        } else {
            proof {
                assert(self.ghost_set@.dom() =~= v.ghost_keys);
            }
            if value_size > self.small_target {
                return false;
            }
            self.small_queue.push_back((key, value_size));
            fx_map_insert(&mut self.small_freq, key, 0);
            self.small_bytes = self.small_bytes + value_size;
            proof {
                lemma_insert_shape(v, key, value_size);
            }
            true
        }
    }

    /// The ghost target after taking in an entry of `value_size` bytes.
    fn update_ghost_target(&mut self, value_size: u64)
        ensures
            final(self).ghost_target == ghost_target_after(
                old(self).ghost_target,
                old(self).main_target,
                value_size,
            ),
            final(self).state() == old(self).state(),
            final(self).targets() == old(self).targets(),
    {
        if self.ghost_target == 0 && value_size > 0 {
            let q = self.main_target / value_size;
            self.ghost_target = (if q > 100 { q } else { 100 }) as usize;
        }
    }

    /// Records a use of `key`: its frequency in main, else in small, goes up
    /// (at most 3). True iff the key was resident.
    fn bump(&mut self, key: u64) -> (hit: bool)
        requires
            s3_shape(old(self).state()),
        ensures
            hit == s3_resident(old(self).state()).contains(key),
            final(self).state() == s3_touch(old(self).state(), key),
            s3_shape(final(self).state()),
            final(self).targets() == old(self).targets(),
            final(self).ghost_target == old(self).ghost_target,
    {
        let ghost v = self.state();
        if let Some(f) = fx_map_get(&self.main_freq, key) {
            if f < 3 {
                fx_map_insert(&mut self.main_freq, key, f + 1);
            }
            proof {
                assert(self.main_freq@.dom() =~= v.main_freq.dom());
            }
            return true;
        }
        if let Some(f) = fx_map_get(&self.small_freq, key) {
            if f < 3 {
                fx_map_insert(&mut self.small_freq, key, f + 1);
            }
            proof {
                assert(self.small_freq@.dom() =~= v.small_freq.dom());
            }
            return true;
        }
        false
    }
}

/// Popping the front of main keeps the shape for the keys not popped.
proof fn lemma_pop_shape_main(v: S3View)
    requires
        s3_shape(v),
        v.main.len() > 0,
    ensures
        s3_shape(S3View { main: v.main.drop_first(), main_freq: v.main_freq.remove(v.main[0].0), ..v }),
        !v.main_freq.contains_key(v.main[0].0) ==> s3_shape(S3View { main: v.main.drop_first(), ..v }),
        v.main[0].1 <= v.main_bytes,
{
    let q = v.main;
    let q2 = q.drop_first();
    lemma_qsum_nonneg(q2);
    assert forall|k: u64| #[trigger] v.main_freq.remove(q[0].0).contains_key(k) implies qkeys(q2).contains(k) by {
        assert(qkeys(q).contains(k));
        let j = choose|j: int| 0 <= j < qkeys(q).len() && qkeys(q)[j] == k;
        assert(j != 0);
        assert(qkeys(q2)[j - 1] == k);
    }
    if !v.main_freq.contains_key(q[0].0) {
        assert forall|k: u64| #[trigger] v.main_freq.contains_key(k) implies qkeys(q2).contains(k) by {
            assert(qkeys(q).contains(k));
            let j = choose|j: int| 0 <= j < qkeys(q).len() && qkeys(q)[j] == k;
            assert(j != 0);
            assert(qkeys(q2)[j - 1] == k);
        }
    }
}

/// Rotating the front entry of main to the back with a new frequency keeps
/// the shape.
proof fn lemma_rotate_shape(v: S3View, f: u8)
    requires
        s3_shape(v),
        v.main.len() > 0,
        v.main_freq.contains_key(v.main[0].0),
    ensures
        s3_shape(S3View {
            main: v.main.drop_first().push(v.main[0]),
            main_freq: v.main_freq.insert(v.main[0].0, f),
            ..v
        }),
{
    let q = v.main;
    let e = q[0];
    let q2 = q.drop_first().push(e);
    lemma_qsum_push(q.drop_first(), e);
    assert forall|k: u64| #[trigger] v.main_freq.insert(e.0, f).contains_key(k) implies qkeys(q2).contains(k) by {
        if k == e.0 {
            assert(qkeys(q2)[q2.len() - 1] == k);
        } else {
            assert(qkeys(q).contains(k));
            let j = choose|j: int| 0 <= j < qkeys(q).len() && qkeys(q)[j] == k;
            assert(j != 0);
            assert(qkeys(q2)[j - 1] == k);
        }
    }
}


/// Keys bound in a frequency map have queue entries; the byte count covers
/// the queue.
pub open spec fn queue_shape(q: Seq<(u64, u64)>, f: Map<u64, u8>, bytes: int) -> bool {
    &&& f.dom().finite()
    &&& forall|k: u64| #[trigger] f.contains_key(k) ==> qkeys(q).contains(k)
    &&& bytes >= qsum(q)
}

/// The sum of `min(freq, 3)` over the entries of a queue: how many more
/// rotations it can take before some entry runs out of frequency.
pub open spec fn potential(q: Seq<(u64, u64)>, f: Map<u64, u8>) -> int
    decreases q.len(),
{
    if q.len() == 0 {
        0
    } else {
        min3(f[q[0].0]) as int + potential(q.drop_first(), f)
    }
}

pub proof fn lemma_potential_bound(q: Seq<(u64, u64)>, f: Map<u64, u8>)
    ensures
        0 <= potential(q, f) <= 3 * q.len(),
    decreases q.len(),
{
    if q.len() > 0 {
        lemma_potential_bound(q.drop_first(), f);
    }
}

pub proof fn lemma_potential_push(q: Seq<(u64, u64)>, f: Map<u64, u8>, e: (u64, u64))
    ensures
        potential(q.push(e), f) == potential(q, f) + min3(f[e.0]),
    decreases q.len(),
{
    if q.len() > 0 {
        assert(q.push(e).drop_first() =~= q.drop_first().push(e));
        assert(q.push(e)[0] == q[0]);
        lemma_potential_push(q.drop_first(), f, e);
        assert(potential(q.push(e), f) == min3(f[q[0].0]) as int + potential(q.drop_first().push(e), f));
        assert(potential(q, f) == min3(f[q[0].0]) as int + potential(q.drop_first(), f));
    } else {
        assert(q.push(e).drop_first() =~= Seq::<(u64, u64)>::empty());
        assert(q.push(e)[0] == e);
        assert(potential(q.push(e), f) == min3(f[e.0]) as int + potential(Seq::<(u64, u64)>::empty(), f));
        assert(potential(q, f) == 0);
    }
}

pub proof fn lemma_potential_frame(q: Seq<(u64, u64)>, f: Map<u64, u8>, k: u64, x: u8)
    requires
        !qkeys(q).contains(k),
    ensures
        potential(q, f.insert(k, x)) == potential(q, f),
    decreases q.len(),
{
    if q.len() > 0 {
        assert(qkeys(q)[0] == q[0].0);
        assert forall|j: int| 0 <= j < qkeys(q.drop_first()).len() implies qkeys(q.drop_first())[j] != k by {
            assert(qkeys(q.drop_first())[j] == qkeys(q)[j + 1]);
        }
        lemma_potential_frame(q.drop_first(), f, k, x);
    }
}

pub proof fn lemma_qkeys_drop(q: Seq<(u64, u64)>)
    requires
        q.len() > 0,
    ensures
        qkeys(q.drop_first()) == qkeys(q).drop_first(),
        qkeys(q)[0] == q[0].0,
{
    assert(qkeys(q.drop_first()) =~= qkeys(q).drop_first());
}

pub proof fn lemma_qkeys_push(q: Seq<(u64, u64)>, e: (u64, u64))
    ensures
        qkeys(q.push(e)) == qkeys(q).push(e.0),
{
    assert(qkeys(q.push(e)) =~= qkeys(q).push(e.0));
}

pub proof fn lemma_queue_exact_drop(q: Seq<(u64, u64)>, f: Map<u64, u8>, bytes: int)
    requires
        queue_exact(q, f, bytes),
        q.len() > 0,
    ensures
        f.contains_key(q[0].0),
        !qkeys(q.drop_first()).contains(q[0].0),
        queue_exact(q.drop_first(), f.remove(q[0].0), bytes - q[0].1),
        qsum(q) == q[0].1 + qsum(q.drop_first()),
{
    let q2 = q.drop_first();
    lemma_qkeys_drop(q);
    assert(f.contains_key(q[0].0));
    if qkeys(q2).contains(q[0].0) {
        let j = choose|j: int| 0 <= j < qkeys(q2).len() && qkeys(q2)[j] == q[0].0;
        assert(qkeys(q)[j + 1] == qkeys(q)[0]);
    }
    assert forall|j: int| 0 <= j < q2.len() implies #[trigger] f.remove(q[0].0).contains_key(q2[j].0) by {
        assert(q2[j] == q[j + 1]);
        assert(qkeys(q)[j + 1] != qkeys(q)[0]);
        assert(f.contains_key(q[j + 1].0));
    }
}

/// What a main-queue round keeps and changes.
pub proof fn lemma_main_rot(mq: Seq<(u64, u64)>, mf: Map<u64, u8>, mb: int, budget: nat)
    requires
        queue_shape(mq, mf, mb),
    ensures
        ({
            let r = main_rot(mq, mf, mb, budget);
            &&& queue_shape(r.0, r.1, r.2)
            &&& r.0.len() <= mq.len()
            &&& r.2 <= mb
            &&& r.3 matches Some(k) ==> mf.contains_key(k) && r.1.dom() == mf.dom().remove(k)
            &&& r.3 is None ==> r.1.dom() == mf.dom()
            &&& queue_exact(mq, mf, mb) ==> queue_exact(r.0, r.1, r.2)
            &&& queue_exact(mq, mf, mb) && mq.len() > 0 && budget > potential(mq, mf) ==> r.3 is Some
        }),
    decreases budget,
{
    lemma_qsum_nonneg(mq);
    lemma_potential_bound(mq, mf);
    if budget == 0 || mq.len() == 0 {
    } else {
        let e = mq[0];
        let rest = mq.drop_first();
        lemma_qkeys_drop(mq);
        lemma_qsum_nonneg(rest);
        assert(qsum(mq) == e.1 + qsum(rest));
        if !mf.contains_key(e.0) {
            assert forall|k: u64| #[trigger] mf.contains_key(k) implies qkeys(rest).contains(k) by {
                let j = choose|j: int| 0 <= j < qkeys(mq).len() && qkeys(mq)[j] == k;
                assert(j != 0);
                assert(qkeys(rest)[j - 1] == k);
            }
            lemma_main_rot(rest, mf, mb, (budget - 1) as nat);
            if queue_exact(mq, mf, mb) {
                assert(mf.contains_key(mq[0].0));
            }
        } else if mf[e.0] >= 1 {
            let nf = (min3(mf[e.0]) - 1) as u8;
            let q2 = rest.push(e);
            let f2 = mf.insert(e.0, nf);
            lemma_qsum_push(rest, e);
            lemma_qkeys_push(rest, e);
            assert forall|k: u64| #[trigger] f2.contains_key(k) implies qkeys(q2).contains(k) by {
                if k == e.0 {
                    assert(qkeys(q2)[q2.len() - 1] == k);
                } else {
                    let j = choose|j: int| 0 <= j < qkeys(mq).len() && qkeys(mq)[j] == k;
                    assert(j != 0);
                    assert(qkeys(q2)[j - 1] == k);
                }
            }
            assert(f2.dom() =~= mf.dom().insert(e.0));
            assert(mf.dom().insert(e.0) =~= mf.dom());
            lemma_main_rot(q2, f2, mb, (budget - 1) as nat);
            if queue_exact(mq, mf, mb) {
                lemma_queue_exact_drop(mq, mf, mb);
                crate::seqs::lemma_push_set(qkeys(rest), e.0);
                assert forall|j: int| 0 <= j < q2.len() implies #[trigger] f2.contains_key(q2[j].0) by {
                    if j < rest.len() {
                        assert(q2[j] == rest[j]);
                        assert(mq[j + 1] == rest[j]);
                        assert(mf.contains_key(mq[j + 1].0));
                    }
                }
                assert(queue_exact(q2, f2, mb));
                lemma_potential_push(rest, f2, e);
                lemma_potential_frame(rest, mf, e.0, nf);
                assert(potential(mq, mf) == min3(mf[e.0]) + potential(rest, mf));
                assert(potential(q2, f2) == potential(mq, mf) - 1);
            }
        } else {
            let f2 = mf.remove(e.0);
            assert forall|k: u64| #[trigger] f2.contains_key(k) implies qkeys(rest).contains(k) by {
                let j = choose|j: int| 0 <= j < qkeys(mq).len() && qkeys(mq)[j] == k;
                assert(j != 0);
                assert(qkeys(rest)[j - 1] == k);
            }
            if queue_exact(mq, mf, mb) {
                lemma_queue_exact_drop(mq, mf, mb);
            }
        }
    }
}

/// The keys resident in a state: those with a frequency in small or main.
pub open spec fn s3_resident(v: S3View) -> Set<u64> {
    v.small_freq.dom().union(v.main_freq.dom())
}

/// What popping the small queue keeps and changes.
pub proof fn lemma_small_pop(v: S3View)
    requires
        s3_shape(v),
    ensures
        ({
            let p = small_pop(v.small, v.small_freq, v.small_bytes, v.main, v.main_freq, v.main_bytes);
            let v2 = S3View {
                small: p.0,
                small_freq: p.1,
                small_bytes: p.2,
                main: p.3,
                main_freq: p.4,
                main_bytes: p.5,
                ..v
            };
            &&& s3_shape(v2)
            &&& p.6 matches SmallPop::Evicted(k) ==> v.small_freq.contains_key(k) && s3_resident(v2)
                == s3_resident(v).remove(k)
            &&& !(p.6 is Evicted) ==> s3_resident(v2) == s3_resident(v)
            &&& p.2 + p.5 <= v.small_bytes + v.main_bytes
            &&& s3_exact(v) ==> s3_exact(v2)
            &&& s3_exact(v) && v.small.len() > 0 ==> !(p.6 is Empty)
            &&& p.6 is Promoted ==> p.3.len() > 0
        }),
    decreases v.small.len(),
{
    let sq = v.small;
    let sf = v.small_freq;
    lemma_qsum_nonneg(sq);
    lemma_qsum_nonneg(v.main);
    if sq.len() == 0 {
    } else {
        let e = sq[0];
        let rest = sq.drop_first();
        lemma_qkeys_drop(sq);
        lemma_qsum_nonneg(rest);
        assert(qsum(sq) == e.1 + qsum(rest));
        if !sf.contains_key(e.0) {
            assert forall|k: u64| #[trigger] sf.contains_key(k) implies qkeys(rest).contains(k) by {
                let j = choose|j: int| 0 <= j < qkeys(sq).len() && qkeys(sq)[j] == k;
                assert(j != 0);
                assert(qkeys(rest)[j - 1] == k);
            }
            lemma_small_pop(S3View { small: rest, ..v });
            if s3_exact(v) {
                assert(sf.contains_key(sq[0].0));
            }
        } else {
            let f2 = sf.remove(e.0);
            assert forall|k: u64| #[trigger] f2.contains_key(k) implies qkeys(rest).contains(k) by {
                let j = choose|j: int| 0 <= j < qkeys(sq).len() && qkeys(sq)[j] == k;
                assert(j != 0);
                assert(qkeys(rest)[j - 1] == k);
            }
            if s3_exact(v) {
                lemma_queue_exact_drop(sq, sf, v.small_bytes);
            }
            if sf[e.0] >= 1 {
                let mq2 = v.main.push(e);
                let mf2 = v.main_freq.insert(e.0, 0);
                lemma_qsum_push(v.main, e);
                lemma_qkeys_push(v.main, e);
                assert(!v.main_freq.contains_key(e.0));
                assert forall|k: u64| #[trigger] mf2.contains_key(k) implies qkeys(mq2).contains(k) by {
                    if k == e.0 {
                        assert(qkeys(mq2)[mq2.len() - 1] == k);
                    } else {
                        let j = choose|j: int| 0 <= j < qkeys(v.main).len() && qkeys(v.main)[j] == k;
                        assert(qkeys(mq2)[j] == k);
                    }
                }
                assert(s3_resident(S3View { small_freq: f2, main_freq: mf2, ..v }) =~= s3_resident(v));
                if s3_exact(v) {
                    assert(!qkeys(v.main).contains(e.0)) by {
                        if qkeys(v.main).contains(e.0) {
                            let j = choose|j: int| 0 <= j < qkeys(v.main).len() && qkeys(v.main)[j] == e.0;
                            assert(v.main_freq.contains_key(v.main[j].0));
                        }
                    }
                    crate::seqs::lemma_push_set(qkeys(v.main), e.0);
                    assert forall|j: int| 0 <= j < mq2.len() implies #[trigger] mf2.contains_key(mq2[j].0) by {
                        if j < v.main.len() {
                            assert(mq2[j] == v.main[j]);
                            assert(v.main_freq.contains_key(v.main[j].0));
                        }
                    }
                }
            } else {
                assert(s3_resident(S3View { small_freq: f2, ..v }) =~= s3_resident(v).remove(e.0));
            }
        }
    }
}

/// What a whole eviction round keeps and changes.
pub proof fn lemma_s3_evict(v: S3View, gt: usize, cap: int, mt: int)
    requires
        s3_shape(v),
        0 <= cap,
        0 <= mt,
    ensures
        ({
            let r = s3_evict(v, gt, cap, mt);
            &&& s3_shape(r.0)
            &&& s3_resident(r.0) == s3_resident(v).difference(r.1.to_set())
            &&& r.1.no_duplicates()
            &&& forall|i: int| 0 <= i < r.1.len() ==> s3_resident(v).contains(#[trigger] r.1[i])
            &&& r.0.small.len() + r.0.main.len() <= v.small.len() + v.main.len() + 0
            &&& v.small_bytes + v.main_bytes <= cap ==> r.1.len() == 0 && r.0 == v
            &&& s3_exact(v) ==> s3_exact(r.0) && r.0.small_bytes + r.0.main_bytes <= cap
        }),
    decreases 2 * v.small.len() + v.main.len(),
{
    lemma_qsum_nonneg(v.small);
    lemma_qsum_nonneg(v.main);
    if v.small_bytes + v.main_bytes <= cap {
        assert(s3_resident(v).difference(Seq::<u64>::empty().to_set()) =~= s3_resident(v));
    } else if v.main_bytes > mt || v.small.len() == 0 {
        let b = (v.main.len() * 3 + 1) as nat;
        let r = main_rot(v.main, v.main_freq, v.main_bytes, b);
        let v2 = S3View { main: r.0, main_freq: r.1, main_bytes: r.2, ..v };
        lemma_main_rot(v.main, v.main_freq, v.main_bytes, b);
        lemma_main_rot_len(v.main, v.main_freq, v.main_bytes, b);
        lemma_potential_bound(v.main, v.main_freq);
        lemma_qsum_nonneg(r.0);
        assert(s3_shape(v2));
        if s3_exact(v) {
            if v.main.len() == 0 {
                assert(v.main_bytes == 0);
                assert(v.small.len() == 0);
                assert(false);
            }
        }
        match r.3 {
            Some(k) => {
                lemma_s3_evict(v2, gt, cap, mt);
                let rest = s3_evict(v2, gt, cap, mt);
                assert(s3_resident(v2) =~= s3_resident(v).remove(k));
                lemma_prepend_evicted(s3_resident(v), k, s3_resident(v2), rest.1, s3_resident(rest.0));
            },
            None => {
                assert(s3_resident(v2) =~= s3_resident(v));
                assert(s3_resident(v).difference(Seq::<u64>::empty().to_set()) =~= s3_resident(v));
            },
        }
    } else {
        let p = small_pop(v.small, v.small_freq, v.small_bytes, v.main, v.main_freq, v.main_bytes);
        lemma_small_pop_len(v.small, v.small_freq, v.small_bytes, v.main, v.main_freq, v.main_bytes);
        lemma_small_pop(v);
        let v1 = S3View {
            small: p.0,
            small_freq: p.1,
            small_bytes: p.2,
            main: p.3,
            main_freq: p.4,
            main_bytes: p.5,
            ..v
        };
        match p.6 {
            SmallPop::Evicted(k) => {
                let g = ghost_add(v.ghost_queue, v.ghost_keys, k, gt);
                let v2 = S3View { ghost_queue: g.0, ghost_keys: g.1, ..v1 };
                assert(s3_resident(v2) == s3_resident(v1));
                lemma_s3_evict(v2, gt, cap, mt);
                let rest = s3_evict(v2, gt, cap, mt);
                lemma_prepend_evicted(s3_resident(v), k, s3_resident(v2), rest.1, s3_resident(rest.0));
            },
            _ => {
                lemma_s3_evict(v1, gt, cap, mt);
            },
        }
    }
}

/// Evicting `k` and then the keys of `rest` evicts `[k] + rest`.
pub proof fn lemma_prepend_evicted(r0: Set<u64>, k: u64, r1: Set<u64>, rest: Seq<u64>, r2: Set<u64>)
    requires
        r0.contains(k),
        r1 == r0.remove(k),
        r2 == r1.difference(rest.to_set()),
        rest.no_duplicates(),
        forall|i: int| 0 <= i < rest.len() ==> r1.contains(#[trigger] rest[i]),
    ensures
        r2 == r0.difference((seq![k] + rest).to_set()),
        (seq![k] + rest).no_duplicates(),
        forall|i: int| 0 <= i < (seq![k] + rest).len() ==> r0.contains(#[trigger] (seq![k] + rest)[i]),
{
    let ev = seq![k] + rest;
    assert forall|i: int| 0 <= i < ev.len() implies r0.contains(#[trigger] ev[i]) by {
        if i > 0 {
            assert(ev[i] == rest[i - 1]);
        }
    }
    assert forall|a: int, b: int| 0 <= a < ev.len() && 0 <= b < ev.len() && a != b implies ev[a] != ev[b] by {
        if a > 0 {
            assert(ev[a] == rest[a - 1]);
        }
        if b > 0 {
            assert(ev[b] == rest[b - 1]);
        }
    }
    assert forall|x: u64| #[trigger] r2.contains(x) <==> r0.difference(ev.to_set()).contains(x) by {
        if rest.to_set().contains(x) {
            let j = choose|j: int| 0 <= j < rest.len() && rest[j] == x;
            assert(ev[j + 1] == x);
            assert(ev.contains(x));
        }
        if ev.to_set().contains(x) && x != k {
            let j = choose|j: int| 0 <= j < ev.len() && ev[j] == x;
            assert(j > 0);
            assert(rest[j - 1] == x);
            assert(rest.contains(x));
        }
        assert(ev[0] == k);
        assert(ev.contains(k));
    }
    assert(r2 =~= r0.difference(ev.to_set()));
}


/// Taking a key in keeps the shape, and keeps a state without stale entries
/// so; the key becomes resident.
pub proof fn lemma_insert_shape(v: S3View, key: u64, size: u64)
    requires
        s3_shape(v),
        !s3_resident(v).contains(key),
        v.small_bytes + v.main_bytes + size <= u64::MAX,
        v.small.len() + v.main.len() < room_limit(),
    ensures
        s3_shape(s3_insert(v, key, size)),
        s3_exact(v) ==> s3_exact(s3_insert(v, key, size)),
        s3_resident(s3_insert(v, key, size)) == s3_resident(v).insert(key),
        s3_insert(v, key, size).small_bytes + s3_insert(v, key, size).main_bytes == v.small_bytes
            + v.main_bytes + size,
        s3_insert(v, key, size).small.len() + s3_insert(v, key, size).main.len() == v.small.len()
            + v.main.len() + 1,
{
    let w = s3_insert(v, key, size);
    let e = (key, size);
    lemma_qsum_push(v.small, e);
    lemma_qsum_push(v.main, e);
    lemma_qkeys_push(v.small, e);
    lemma_qkeys_push(v.main, e);
    assert(s3_resident(w) =~= s3_resident(v).insert(key));
    if v.ghost_keys.contains(key) {
        let q2 = v.main.push(e);
        assert forall|k: u64| #[trigger] w.main_freq.contains_key(k) implies qkeys(q2).contains(k) by {
            if k == key {
                assert(qkeys(q2)[q2.len() - 1] == k);
            } else {
                let j = choose|j: int| 0 <= j < qkeys(v.main).len() && qkeys(v.main)[j] == k;
                assert(qkeys(q2)[j] == k);
            }
        }
        if s3_exact(v) {
            assert(!qkeys(v.main).contains(key)) by {
                if qkeys(v.main).contains(key) {
                    let j = choose|j: int| 0 <= j < qkeys(v.main).len() && qkeys(v.main)[j] == key;
                    assert(v.main_freq.contains_key(v.main[j].0));
                }
            }
            crate::seqs::lemma_push_set(qkeys(v.main), key);
            assert forall|j: int| 0 <= j < q2.len() implies #[trigger] w.main_freq.contains_key(q2[j].0) by {
                if j < v.main.len() {
                    assert(q2[j] == v.main[j]);
                    assert(v.main_freq.contains_key(v.main[j].0));
                }
            }
        }
    } else {
        let q2 = v.small.push(e);
        assert forall|k: u64| #[trigger] w.small_freq.contains_key(k) implies qkeys(q2).contains(k) by {
            if k == key {
                assert(qkeys(q2)[q2.len() - 1] == k);
            } else {
                let j = choose|j: int| 0 <= j < qkeys(v.small).len() && qkeys(v.small)[j] == k;
                assert(qkeys(q2)[j] == k);
            }
        }
        if s3_exact(v) {
            assert(!qkeys(v.small).contains(key)) by {
                if qkeys(v.small).contains(key) {
                    let j = choose|j: int| 0 <= j < qkeys(v.small).len() && qkeys(v.small)[j] == key;
                    assert(v.small_freq.contains_key(v.small[j].0));
                }
            }
            crate::seqs::lemma_push_set(qkeys(v.small), key);
            assert forall|j: int| 0 <= j < q2.len() implies #[trigger] w.small_freq.contains_key(q2[j].0) by {
                if j < v.small.len() {
                    assert(q2[j] == v.small[j]);
                    assert(v.small_freq.contains_key(v.small[j].0));
                }
            }
        }
    }
}

impl EvictionPolicy for S3Fifo {
    type Model = (S3View, (u64, u64, u64), usize);

    /// Queues and frequencies, targets (budget, small, main), ghost target.
    open spec fn model(&self) -> Self::Model {
        (self.state(), self.targets(), self.ghost_target())
    }

    open spec fn model_resident(m: Self::Model) -> Set<u64> {
        s3_resident(m.0)
    }

    open spec fn model_touch(m: Self::Model, key: u64, t: u64) -> Self::Model {
        (s3_touch(m.0, key), m.1, m.2)
    }

    open spec fn model_bytes(m: Self::Model) -> int {
        m.0.small_bytes + m.0.main_bytes
    }

    open spec fn model_remove(m: Self::Model, key: u64) -> Self::Model {
        (
            S3View { small_freq: m.0.small_freq.remove(key), main_freq: m.0.main_freq.remove(key), ..m.0 },
            m.1,
            m.2,
        )
    }

    open spec fn model_admits(m: Self::Model, key: u64, value_size: u64) -> bool {
        s3_admits(m.0, m.1.0, m.1.1, key, value_size)
    }

    open spec fn model_admit(m: Self::Model, key: u64, value_size: u64, t: u64) -> (Self::Model, Seq<u64>) {
        if Self::model_admits(m, key, value_size) {
            let gt = ghost_target_after(m.2, m.1.2, value_size);
            let r = s3_evict(s3_insert(m.0, key, value_size), gt, m.1.0 as int, m.1.2 as int);
            ((r.0, m.1, gt), r.1)
        } else {
            (m, Seq::empty())
        }
    }

    closed spec fn wf(&self) -> bool {
        s3_shape(self.state())
    }

    closed spec fn resident(&self) -> Set<u64> {
        s3_resident(self.state())
    }

    closed spec fn bytes(&self) -> int {
        self.small_bytes + self.main_bytes
    }

    closed spec fn capacity(&self) -> int {
        self.capacity as int
    }

    closed spec fn settled(&self) -> bool {
        &&& s3_exact(self.state())
        &&& self.small_bytes + self.main_bytes <= self.capacity
    }

    closed spec fn admits(&self, key: u64, value_size: u64) -> bool {
        s3_admits(self.state(), self.capacity, self.small_target, key, value_size)
    }

    open spec fn clock_ok(&self, t: u64) -> bool {
        true
    }

    closed spec fn access_ok(&self, key: u64, value_size: u64) -> bool {
        self.admits(key, value_size) ==> {
            &&& self.small_bytes + self.main_bytes + value_size <= u64::MAX
            &&& self.footprint() < room_limit()
        }
    }

    open spec fn remove_ok(&self, key: u64) -> bool {
        true
    }

    closed spec fn footprint(&self) -> int {
        (self.small_queue@.len() + self.main_queue@.len()) as int
    }

    proof fn lemma_wf(&self) {
        let v = self.state();
        let a = qkeys(v.small).to_set();
        let b = qkeys(v.main).to_set();
        assert(s3_resident(v).subset_of(a.union(b)));
        vstd::seq_lib::seq_to_set_is_finite(qkeys(v.small));
        vstd::seq_lib::seq_to_set_is_finite(qkeys(v.main));
        qkeys(v.small).lemma_cardinality_of_set();
        qkeys(v.main).lemma_cardinality_of_set();
        vstd::set_lib::lemma_len_union(a, b);
        vstd::set_lib::lemma_len_subset(s3_resident(v), a.union(b));
        lemma_qsum_nonneg(v.small);
        lemma_qsum_nonneg(v.main);
    }

    proof fn lemma_admits(&self, key: u64, value_size: u64) {
    }

    closed spec fn takes_all(&self) -> bool {
        self.capacity <= self.small_target
    }

    proof fn lemma_takes_all(&self, key: u64, value_size: u64) {
    }

    proof fn lemma_clock(&self, t1: u64, t2: u64) {
    }

    proof fn lemma_access_ok(&self, key: u64, value_size: u64) {
    }

    fn access(&mut self, key: u64, value_size: u64, t: u64) -> (hit: bool)
        ensures
            hit ==> final(self).state() == s3_touch(old(self).state(), key),
            !hit && !old(self).admits(key, value_size) ==> final(self).state() == old(self).state(),
            !hit && old(self).admits(key, value_size) ==> final(self).state() == s3_evict(
                s3_insert(old(self).state(), key, value_size),
                old(self).ghost_target(),
                old(self).targets().0 as int,
                old(self).targets().2 as int,
            ).0,
            !hit && old(self).admits(key, value_size) ==> final(self).ghost_target()
                == ghost_target_after(old(self).ghost_target(), old(self).targets().2, value_size),
            hit || !old(self).admits(key, value_size) ==> final(self).ghost_target() == old(
                self,
            ).ghost_target(),
            final(self).targets() == old(self).targets(),
    {
        if self.bump(key) {
            return true;
        }
        if value_size > self.capacity || self.capacity == 0 {
            return false;
        }
        let ghost v = self.state();
        if !self.take_in(key, value_size) {
            return false;
        }
        let ghost w = self.state();
        proof {
            lemma_insert_shape(v, key, value_size);
            lemma_s3_evict(w, self.ghost_target, self.capacity as int, self.main_target as int);
        }
        self.evict();
        self.update_ghost_target(value_size);
        false
    }

    fn contains(&self, key: u64) -> (r: bool) {
        self.is_resident(key)
    }

    fn touch(&mut self, key: u64, t: u64)
        ensures
            final(self).state() == s3_touch(old(self).state(), key),
            final(self).ghost_target() == old(self).ghost_target(),
            final(self).targets() == old(self).targets(),
    {
        let ghost v = self.state();
        self.bump(key);
        proof {
            assert(s3_resident(s3_touch(v, key)) =~= s3_resident(v));
            if s3_exact(v) {
                assert(s3_exact(s3_touch(v, key)));
            }
        }
    }

    fn admit_entry(&mut self, key: u64, value_size: u64, t: u64) -> (evicted: Vec<u64>)
        ensures
            !old(self).admits(key, value_size) ==> final(self).state() == old(self).state()
                && final(self).ghost_target() == old(self).ghost_target(),
            old(self).admits(key, value_size) ==> {
                let gt = ghost_target_after(old(self).ghost_target(), old(self).targets().2, value_size);
                &&& final(self).ghost_target() == gt
                &&& (final(self).state(), evicted@) == s3_evict(
                    s3_insert(old(self).state(), key, value_size),
                    gt,
                    old(self).targets().0 as int,
                    old(self).targets().2 as int,
                )
            },
            final(self).targets() == old(self).targets(),
    {
        if value_size > self.capacity || self.capacity == 0 {
            return Vec::new();
        }
        if self.is_resident(key) {
            return Vec::new();
        }
        let ghost v = self.state();
        if !self.take_in(key, value_size) {
            return Vec::new();
        }
        self.update_ghost_target(value_size);
        let ghost w = self.state();
        proof {
            lemma_insert_shape(v, key, value_size);
            lemma_s3_evict(w, self.ghost_target, self.capacity as int, self.main_target as int);
            lemma_s3_evict_bytes(w, self.ghost_target, self.capacity as int, self.main_target as int);
        }
        self.evict()
    }

    fn remove(&mut self, key: u64)
        ensures
            final(self).state() == (S3View {
                small_freq: old(self).state().small_freq.remove(key),
                main_freq: old(self).state().main_freq.remove(key),
                ..old(self).state()
            }),
            final(self).ghost_target() == old(self).ghost_target(),
            final(self).targets() == old(self).targets(),
    {
        let ghost v = self.state();
        if let Some(_) = fx_map_remove(&mut self.small_freq, key) {
            proof {
                assert(!v.main_freq.contains_key(key));
                assert(v.main_freq.remove(key) =~= v.main_freq);
            }
        } else if let Some(_) = fx_map_remove(&mut self.main_freq, key) {
            proof {
                assert(v.small_freq.remove(key) =~= v.small_freq);
            }
        } else {
            proof {
                assert(v.small_freq.remove(key) =~= v.small_freq);
                assert(v.main_freq.remove(key) =~= v.main_freq);
            }
        }
        proof {
            let w = self.state();
            assert(s3_resident(w) =~= s3_resident(v).remove(key));
            assert forall|k: u64| #[trigger] w.small_freq.contains_key(k) implies qkeys(w.small).contains(k) by {
                assert(v.small_freq.contains_key(k));
            }
            assert forall|k: u64| #[trigger] w.main_freq.contains_key(k) implies qkeys(w.main).contains(k) by {
                assert(v.main_freq.contains_key(k));
            }
        }
    }
}

} // verus!
