//! fifo: evicts in order of arrival. `remove` unbinds a key at once but
//! leaves its queue entry behind; eviction skips such stale entries.
use vstd::prelude::*;
use std::collections::VecDeque;
use rustc_hash::FxHashMap;
use crate::eviction::{EvictionPolicy, room_limit};
use crate::fxmap::{fx_map_new, fx_map_insert, fx_map_remove, fx_map_contains};

verus! {

/// The keys of a queue of `(key, size)` entries.
pub open spec fn qkeys(q: Seq<(u64, u64)>) -> Seq<u64> {
    q.map_values(|e: (u64, u64)| e.0)
}

/// The total size of a queue of `(key, size)` entries.
pub open spec fn qsum(q: Seq<(u64, u64)>) -> int
    decreases q.len(),
{
    if q.len() == 0 {
        0
    } else {
        q[0].1 + qsum(q.drop_first())
    }
}

pub proof fn lemma_qsum_push(q: Seq<(u64, u64)>, x: (u64, u64))
    ensures
        qsum(q.push(x)) == qsum(q) + x.1,
    decreases q.len(),
{
    if q.len() > 0 {
        assert(q.push(x).drop_first() =~= q.drop_first().push(x));
        assert(q.push(x)[0] == q[0]);
        lemma_qsum_push(q.drop_first(), x);
    } else {
        assert(q.push(x).drop_first() =~= Seq::<(u64, u64)>::empty());
        assert(q.push(x)[0] == x);
        assert(qsum(Seq::<(u64, u64)>::empty()) == 0);
    }
}

pub proof fn lemma_qsum_nonneg(q: Seq<(u64, u64)>)
    ensures
        qsum(q) >= 0,
    decreases q.len(),
{
    if q.len() > 0 {
        lemma_qsum_nonneg(q.drop_first());
    }
}

/// Eviction as `admit_entry` runs it: while over budget and the queue is
/// not empty, pop the oldest entry; a live one is evicted, a stale one is
/// skipped. Gives the queue, bindings and bytes left, and the evicted keys.
pub open spec fn fifo_admit_drain(q: Seq<(u64, u64)>, r: Map<u64, u64>, rb: int, cap: int) -> (
    Seq<(u64, u64)>,
    Map<u64, u64>,
    int,
    Seq<u64>,
)
    decreases q.len(),
{
    if rb <= cap || q.len() == 0 {
        (q, r, rb, Seq::empty())
    } else if r.contains_key(q[0].0) {
        let rest = fifo_admit_drain(q.drop_first(), r.remove(q[0].0), rb - q[0].1, cap);
        (rest.0, rest.1, rest.2, seq![q[0].0] + rest.3)
    } else {
        fifo_admit_drain(q.drop_first(), r, rb, cap)
    }
}

/// Eviction as `access` runs it: while over budget, pop the oldest entry,
/// evicting it if live and skipping it if stale.
pub open spec fn fifo_access_drain(q: Seq<(u64, u64)>, r: Map<u64, u64>, rb: int, cap: int) -> (
    Seq<(u64, u64)>,
    Map<u64, u64>,
    int,
)
    decreases q.len(),
{
    if rb <= cap || q.len() == 0 {
        (q, r, rb)
    } else if r.contains_key(q[0].0) {
        fifo_access_drain(q.drop_first(), r.remove(q[0].0), rb - q[0].1, cap)
    } else {
        fifo_access_drain(q.drop_first(), r, rb, cap)
    }
}

/// The `access` eviction loop gets within budget before the queue runs dry
/// (it would spin forever otherwise).
pub open spec fn fifo_drains(q: Seq<(u64, u64)>, r: Map<u64, u64>, rb: int, cap: int) -> bool
    decreases q.len(),
{
    if rb <= cap {
        true
    } else if q.len() == 0 {
        false
    } else if r.contains_key(q[0].0) {
        fifo_drains(q.drop_first(), r.remove(q[0].0), rb - q[0].1, cap)
    } else {
        fifo_drains(q.drop_first(), r, rb, cap)
    }
}

/// Every bound key has a queue entry; every queued size fits the budget.
pub open spec fn fifo_shape(q: Seq<(u64, u64)>, r: Map<u64, u64>, cap: int) -> bool {
    &&& r.dom().finite()
    &&& forall|k: u64| #[trigger] r.contains_key(k) ==> qkeys(q).contains(k)
    &&& forall|j: int| 0 <= j < q.len() ==> #[trigger] q[j].1 <= cap
}

/// No stale entries: the queue holds each bound key once, with its size,
/// and the byte count is exact.
pub open spec fn fifo_exact(q: Seq<(u64, u64)>, r: Map<u64, u64>, rb: int) -> bool {
    &&& qkeys(q).no_duplicates()
    &&& forall|j: int| 0 <= j < q.len() ==> #[trigger] r.contains_key(q[j].0) && r[q[j].0] == q[j].1
    &&& rb == qsum(q)
}

pub proof fn lemma_shape_drop(q: Seq<(u64, u64)>, r: Map<u64, u64>, cap: int)
    requires
        fifo_shape(q, r, cap),
        q.len() > 0,
    ensures
        fifo_shape(q.drop_first(), r.remove(q[0].0), cap),
        !r.contains_key(q[0].0) ==> fifo_shape(q.drop_first(), r, cap),
{
    let q2 = q.drop_first();
    assert forall|k: u64| #[trigger] r.remove(q[0].0).contains_key(k) implies qkeys(q2).contains(k) by {
        assert(qkeys(q).contains(k));
        let j = choose|j: int| 0 <= j < qkeys(q).len() && qkeys(q)[j] == k;
        assert(j != 0);
        assert(qkeys(q2)[j - 1] == k);
    }
    if !r.contains_key(q[0].0) {
        assert forall|k: u64| #[trigger] r.contains_key(k) implies qkeys(q2).contains(k) by {
            assert(qkeys(q).contains(k));
            let j = choose|j: int| 0 <= j < qkeys(q).len() && qkeys(q)[j] == k;
            assert(j != 0);
            assert(qkeys(q2)[j - 1] == k);
        }
    }
    assert forall|j: int| 0 <= j < q2.len() implies #[trigger] q2[j].1 <= cap by {
        assert(q2[j] == q[j + 1]);
    }
}

pub proof fn lemma_exact_drop(q: Seq<(u64, u64)>, r: Map<u64, u64>, rb: int)
    requires
        fifo_exact(q, r, rb),
        q.len() > 0,
    ensures
        r.contains_key(q[0].0),
        r[q[0].0] == q[0].1,
        fifo_exact(q.drop_first(), r.remove(q[0].0), rb - q[0].1),
{
    let q2 = q.drop_first();
    assert(r.contains_key(q[0].0));
    assert forall|a: int, b: int| 0 <= a < qkeys(q2).len() && 0 <= b < qkeys(q2).len() && a != b implies qkeys(
        q2,
    )[a] != qkeys(q2)[b] by {
        assert(qkeys(q2)[a] == qkeys(q)[a + 1]);
        assert(qkeys(q2)[b] == qkeys(q)[b + 1]);
    }
    assert forall|j: int| 0 <= j < q2.len() implies #[trigger] r.remove(q[0].0).contains_key(q2[j].0)
        && r.remove(q[0].0)[q2[j].0] == q2[j].1 by {
        assert(q2[j] == q[j + 1]);
        assert(qkeys(q)[j + 1] != qkeys(q)[0]);
        assert(r.contains_key(q[j + 1].0));
    }
}

pub proof fn lemma_admit_drain(q: Seq<(u64, u64)>, r: Map<u64, u64>, rb: int, cap: int)
    requires
        fifo_shape(q, r, cap),
        0 <= cap,
        0 <= rb,
    ensures
        ({
            let d = fifo_admit_drain(q, r, rb, cap);
            &&& fifo_shape(d.0, d.1, cap)
            &&& 0 <= d.2
            &&& d.0.len() <= q.len()
            &&& d.1.dom() == r.dom().difference(d.3.to_set())
            &&& d.3.no_duplicates()
            &&& forall|i: int| 0 <= i < d.3.len() ==> r.contains_key(#[trigger] d.3[i])
            &&& rb <= cap ==> d.3.len() == 0
            &&& d.3.len() == 0 ==> d.2 == rb
            &&& fifo_exact(q, r, rb) ==> fifo_exact(d.0, d.1, d.2) && d.2 <= cap
        }),
    decreases q.len(),
{
    if rb <= cap || q.len() == 0 {
        assert(r.dom().difference(Seq::<u64>::empty().to_set()) =~= r.dom());
    } else if r.contains_key(q[0].0) {
        let k = q[0].0;
        assert(q[0].1 <= cap);
        lemma_shape_drop(q, r, cap);
        if fifo_exact(q, r, rb) {
            lemma_exact_drop(q, r, rb);
        }
        lemma_admit_drain(q.drop_first(), r.remove(k), rb - q[0].1, cap);
        let rest = fifo_admit_drain(q.drop_first(), r.remove(k), rb - q[0].1, cap);
        let ev = seq![k] + rest.3;
        assert forall|i: int| 0 <= i < ev.len() implies r.contains_key(#[trigger] ev[i]) by {
            if i > 0 {
                assert(ev[i] == rest.3[i - 1]);
            }
        }
        assert forall|a: int, b: int| 0 <= a < ev.len() && 0 <= b < ev.len() && a != b implies ev[a]
            != ev[b] by {
            if a > 0 {
                assert(ev[a] == rest.3[a - 1]);
            }
            if b > 0 {
                assert(ev[b] == rest.3[b - 1]);
            }
        }
        assert forall|x: u64| #[trigger] rest.1.dom().contains(x) <==> r.dom().difference(ev.to_set()).contains(x) by {
            if rest.3.to_set().contains(x) {
                let j = choose|j: int| 0 <= j < rest.3.len() && rest.3[j] == x;
                assert(ev[j + 1] == x);
                assert(ev.contains(x));
            }
            if ev.to_set().contains(x) && x != k {
                let j = choose|j: int| 0 <= j < ev.len() && ev[j] == x;
                assert(j > 0);
                assert(rest.3[j - 1] == x);
                assert(rest.3.contains(x));
            }
            assert(ev[0] == k);
            assert(ev.contains(k));
        }
        assert(rest.1.dom() =~= r.dom().difference(ev.to_set()));
    } else {
        lemma_shape_drop(q, r, cap);
        if fifo_exact(q, r, rb) {
            lemma_exact_drop(q, r, rb);
        }
        lemma_admit_drain(q.drop_first(), r, rb, cap);
    }
}

pub proof fn lemma_access_drain(q: Seq<(u64, u64)>, r: Map<u64, u64>, rb: int, cap: int)
    requires
        fifo_shape(q, r, cap),
        0 <= cap,
        0 <= rb,
        fifo_drains(q, r, rb, cap),
    ensures
        ({
            let d = fifo_access_drain(q, r, rb, cap);
            &&& fifo_shape(d.0, d.1, cap)
            &&& 0 <= d.2 <= cap
            &&& d.0.len() <= q.len()
            &&& d.1.dom().subset_of(r.dom())
            &&& fifo_exact(q, r, rb) ==> fifo_exact(d.0, d.1, d.2)
        }),
    decreases q.len(),
{
    if rb <= cap || q.len() == 0 {
    } else if r.contains_key(q[0].0) {
        assert(q[0].1 <= cap);
        lemma_shape_drop(q, r, cap);
        if fifo_exact(q, r, rb) {
            lemma_exact_drop(q, r, rb);
        }
        lemma_access_drain(q.drop_first(), r.remove(q[0].0), rb - q[0].1, cap);
    } else {
        lemma_shape_drop(q, r, cap);
        if fifo_exact(q, r, rb) {
            lemma_exact_drop(q, r, rb);
        }
        lemma_access_drain(q.drop_first(), r, rb, cap);
    }
}

pub proof fn lemma_exact_drains(q: Seq<(u64, u64)>, r: Map<u64, u64>, rb: int, cap: int)
    requires
        fifo_exact(q, r, rb),
        0 <= cap,
    ensures
        fifo_drains(q, r, rb, cap),
    decreases q.len(),
{
    if rb <= cap {
    } else if q.len() == 0 {
    } else {
        lemma_exact_drop(q, r, rb);
        lemma_exact_drains(q.drop_first(), r.remove(q[0].0), rb - q[0].1, cap);
    }
}

/// fifo with a byte budget.
pub struct Fifo {
    capacity_bytes: u64,
    resident_bytes: u64,
    queue: VecDeque<(u64, u64)>,
    resident: FxHashMap<u64, u64>,
}

impl Fifo {
    /// The queue of `(key, size)` entries, oldest first.
    pub closed spec fn queue(&self) -> Seq<(u64, u64)> {
        self.queue@
    }

    /// The resident keys and their sizes.
    pub closed spec fn bindings(&self) -> Map<u64, u64> {
        self.resident@
    }

    pub closed spec fn resident_bytes(&self) -> u64 {
        self.resident_bytes
    }

    pub closed spec fn capacity_bytes(&self) -> u64 {
        self.capacity_bytes
    }

    /// An empty cache with budget `capacity_bytes`.
    pub fn new(capacity_bytes: u64) -> (r: Self)
        ensures
            r.model() == (Seq::<(u64, u64)>::empty(), Map::<u64, u64>::empty(), 0int, capacity_bytes),
            r.capacity() == capacity_bytes as int,
            r.bytes() == 0,
            r.resident() == Set::<u64>::empty(),
            r.clock_ok(0),
            r.takes_all(),
            r.wf(),
            r.queue() == Seq::<(u64, u64)>::empty(),
            r.bindings().dom() == Set::<u64>::empty(),
            r.resident_bytes() == 0,
            r.capacity_bytes() == capacity_bytes,
            r.settled(),
            r.footprint() == 0,
    {
        let r = Fifo {
            capacity_bytes,
            resident_bytes: 0,
            queue: VecDeque::new(),
            resident: fx_map_new(),
        };
        proof {
            assert(r.resident@.dom() =~= Set::<u64>::empty());
        }
        r
    }

    /// Pops the oldest entry; evicts and returns its key if it is live.
    fn evict_one(&mut self) -> (r: Option<u64>)
        requires
            fifo_shape(old(self).queue@, old(self).resident@, old(self).capacity_bytes as int),
            old(self).resident_bytes > old(self).capacity_bytes,
        ensures
            final(self).capacity_bytes == old(self).capacity_bytes,
            ({
                let q = old(self).queue@;
                let m = old(self).resident@;
                if q.len() == 0 {
                    &&& r is None
                    &&& final(self).queue@ == q
                    &&& final(self).resident@ == m
                    &&& final(self).resident_bytes == old(self).resident_bytes
                } else if m.contains_key(q[0].0) {
                    &&& r == Some(q[0].0)
                    &&& final(self).queue@ == q.drop_first()
                    &&& final(self).resident@ == m.remove(q[0].0)
                    &&& final(self).resident_bytes == old(self).resident_bytes - q[0].1
                } else {
                    &&& r is None
                    &&& final(self).queue@ == q.drop_first()
                    &&& final(self).resident@ == m
                    &&& final(self).resident_bytes == old(self).resident_bytes
                }
            }),
    {
        if let Some((k, sz)) = self.queue.pop_front() {
            proof {
                assert(old(self).queue@[0].1 <= old(self).capacity_bytes);
                assert(self.queue@ =~= old(self).queue@.drop_first());
            }
            if fx_map_remove(&mut self.resident, k).is_some() {
                self.resident_bytes = self.resident_bytes - sz;
                return Some(k);
            }
            proof {
                assert(self.resident@ =~= old(self).resident@);
            }
        }
        None
    }

    /// Binds a new key and queues it last.
    fn insert_new(&mut self, key: u64, value_size: u64)
        requires
            !old(self).resident@.contains_key(key),
            old(self).resident_bytes + value_size <= u64::MAX,
        ensures
            final(self).queue@ == old(self).queue@.push((key, value_size)),
            final(self).resident@ == old(self).resident@.insert(key, value_size),
            final(self).resident_bytes == old(self).resident_bytes + value_size,
            final(self).capacity_bytes == old(self).capacity_bytes,
    {
        fx_map_insert(&mut self.resident, key, value_size);
        self.queue.push_back((key, value_size));
        self.resident_bytes = self.resident_bytes + value_size;
    }

    proof fn lemma_insert_shape(&self, key: u64, value_size: u64, q2: Seq<(u64, u64)>, m2: Map<u64, u64>)
        requires
            self.wf(),
            value_size <= self.capacity_bytes,
            q2 == self.queue@.push((key, value_size)),
            m2 == self.resident@.insert(key, value_size),
            !self.resident@.contains_key(key),
        ensures
            fifo_shape(q2, m2, self.capacity_bytes as int),
            fifo_exact(self.queue@, self.resident@, self.resident_bytes as int) ==> fifo_exact(
                q2,
                m2,
                self.resident_bytes + value_size,
            ),
    {
        let q = self.queue@;
        let m = self.resident@;
        assert forall|k: u64| #[trigger] m2.contains_key(k) implies qkeys(q2).contains(k) by {
            if k == key {
                assert(qkeys(q2)[q.len() as int] == key);
            } else {
                assert(qkeys(q).contains(k));
                let j = choose|j: int| 0 <= j < qkeys(q).len() && qkeys(q)[j] == k;
                assert(qkeys(q2)[j] == k);
            }
        }
        assert forall|j: int| 0 <= j < q2.len() implies #[trigger] q2[j].1 <= self.capacity_bytes by {
            if j < q.len() {
                assert(q2[j] == q[j]);
            }
        }
        if fifo_exact(q, m, self.resident_bytes as int) {
            lemma_qsum_push(q, (key, value_size));
            assert(!qkeys(q).contains(key)) by {
                if qkeys(q).contains(key) {
                    let j = choose|j: int| 0 <= j < qkeys(q).len() && qkeys(q)[j] == key;
                    assert(m.contains_key(q[j].0));
                }
            }
            assert(qkeys(q2) =~= qkeys(q).push(key));
            crate::seqs::lemma_push_set(qkeys(q), key);
            assert forall|j: int| 0 <= j < q2.len() implies #[trigger] m2.contains_key(q2[j].0)
                && m2[q2[j].0] == q2[j].1 by {
                if j < q.len() {
                    assert(q2[j] == q[j]);
                    assert(m.contains_key(q[j].0));
                    assert(qkeys(q)[j] == q[j].0);
                }
            }
        }
    }
}

impl EvictionPolicy for Fifo {
    type Model = (Seq<(u64, u64)>, Map<u64, u64>, int, u64);

    /// Queue, bindings, resident bytes, budget.
    open spec fn model(&self) -> Self::Model {
        (self.queue(), self.bindings(), self.resident_bytes() as int, self.capacity_bytes())
    }

    open spec fn model_resident(m: Self::Model) -> Set<u64> {
        m.1.dom()
    }

    open spec fn model_touch(m: Self::Model, key: u64, t: u64) -> Self::Model {
        m
    }

    open spec fn model_bytes(m: Self::Model) -> int {
        m.2
    }

    open spec fn model_remove(m: Self::Model, key: u64) -> Self::Model {
        (m.0, m.1.remove(key), if m.1.contains_key(key) { m.2 - m.1[key] } else { m.2 }, m.3)
    }

    open spec fn model_admits(m: Self::Model, key: u64, value_size: u64) -> bool {
        m.3 > 0 && value_size <= m.3 && !m.1.contains_key(key)
    }

    open spec fn model_admit(m: Self::Model, key: u64, value_size: u64, t: u64) -> (Self::Model, Seq<u64>) {
        if Self::model_admits(m, key, value_size) {
            let d = fifo_admit_drain(m.0.push((key, value_size)), m.1.insert(key, value_size), m.2 + value_size, m.3 as int);
            ((d.0, d.1, d.2, m.3), d.3)
        } else {
            (m, Seq::empty())
        }
    }

    closed spec fn wf(&self) -> bool {
        fifo_shape(self.queue@, self.resident@, self.capacity_bytes as int)
    }

    closed spec fn resident(&self) -> Set<u64> {
        self.resident@.dom()
    }

    closed spec fn bytes(&self) -> int {
        self.resident_bytes as int
    }

    closed spec fn capacity(&self) -> int {
        self.capacity_bytes as int
    }

    closed spec fn settled(&self) -> bool {
        &&& fifo_exact(self.queue@, self.resident@, self.resident_bytes as int)
        &&& self.resident_bytes <= self.capacity_bytes
    }

    closed spec fn admits(&self, key: u64, value_size: u64) -> bool {
        &&& self.capacity_bytes > 0
        &&& value_size <= self.capacity_bytes
        &&& !self.resident@.contains_key(key)
    }

    open spec fn clock_ok(&self, t: u64) -> bool {
        true
    }

    closed spec fn access_ok(&self, key: u64, value_size: u64) -> bool {
        self.admits(key, value_size) ==> {
            &&& self.resident_bytes + value_size <= u64::MAX
            &&& fifo_drains(
                self.queue@.push((key, value_size)),
                self.resident@.insert(key, value_size),
                self.resident_bytes + value_size,
                self.capacity_bytes as int,
            )
        }
    }

    open spec fn remove_ok(&self, key: u64) -> bool {
        self.bindings().contains_key(key) ==> self.bindings()[key] <= self.resident_bytes()
    }

    closed spec fn footprint(&self) -> int {
        self.queue@.len() as int
    }

    proof fn lemma_wf(&self) {
        let q = self.queue@;
        let m = self.resident@;
        assert(m.dom().subset_of(qkeys(q).to_set()));
        vstd::seq_lib::seq_to_set_is_finite(qkeys(q));
        qkeys(q).lemma_cardinality_of_set();
        vstd::set_lib::lemma_len_subset(m.dom(), qkeys(q).to_set());
    }

    proof fn lemma_admits(&self, key: u64, value_size: u64) {
    }

    open spec fn takes_all(&self) -> bool {
        true
    }

    proof fn lemma_takes_all(&self, key: u64, value_size: u64) {
    }

    proof fn lemma_clock(&self, t1: u64, t2: u64) {
    }

    proof fn lemma_access_ok(&self, key: u64, value_size: u64) {
        if self.admits(key, value_size) {
            let q2 = self.queue@.push((key, value_size));
            let m2 = self.resident@.insert(key, value_size);
            self.lemma_insert_shape(key, value_size, q2, m2);
            lemma_exact_drains(q2, m2, self.resident_bytes + value_size, self.capacity_bytes as int);
        }
    }

    fn access(&mut self, key: u64, value_size: u64, t: u64) -> (hit: bool)
        ensures
            hit || !old(self).admits(key, value_size) ==> *final(self) == *old(self),
            !hit && old(self).admits(key, value_size) ==> {
                let d = fifo_access_drain(
                    old(self).queue().push((key, value_size)),
                    old(self).bindings().insert(key, value_size),
                    old(self).resident_bytes() + value_size,
                    old(self).capacity_bytes() as int,
                );
                &&& final(self).queue() == d.0
                &&& final(self).bindings() == d.1
                &&& final(self).resident_bytes() == d.2
            },
            final(self).capacity_bytes() == old(self).capacity_bytes(),
    {
        if fx_map_contains(&self.resident, key) {
            return true;
        }
        if value_size > self.capacity_bytes || self.capacity_bytes == 0 {
            return false;
        }
        proof {
            self.lemma_insert_shape(
                key,
                value_size,
                self.queue@.push((key, value_size)),
                self.resident@.insert(key, value_size),
            );
        }
        self.insert_new(key, value_size);
        let ghost start = fifo_access_drain(
            self.queue@,
            self.resident@,
            self.resident_bytes as int,
            self.capacity_bytes as int,
        );
        proof {
            lemma_access_drain(
                self.queue@,
                self.resident@,
                self.resident_bytes as int,
                self.capacity_bytes as int,
            );
        }
        while self.resident_bytes > self.capacity_bytes
            invariant
                fifo_shape(self.queue@, self.resident@, self.capacity_bytes as int),
                self.capacity_bytes == old(self).capacity_bytes,
                fifo_drains(
                    self.queue@,
                    self.resident@,
                    self.resident_bytes as int,
                    self.capacity_bytes as int,
                ),
                fifo_access_drain(
                    self.queue@,
                    self.resident@,
                    self.resident_bytes as int,
                    self.capacity_bytes as int,
                ) == start,
            decreases self.queue@.len(),
        {
            proof {
                assert(self.queue@.len() > 0);
                lemma_shape_drop(self.queue@, self.resident@, self.capacity_bytes as int);
            }
            self.evict_one();
        }
        proof {
            lemma_wf_len(self);
        }
        false
    }

    fn contains(&self, key: u64) -> (r: bool) {
        fx_map_contains(&self.resident, key)
    }

    fn touch(&mut self, key: u64, t: u64)
        ensures
            *final(self) == *old(self),
    {
    }

    fn admit_entry(&mut self, key: u64, value_size: u64, t: u64) -> (evicted: Vec<u64>)
        ensures
            !old(self).admits(key, value_size) ==> *final(self) == *old(self),
            old(self).admits(key, value_size) ==> {
                let d = fifo_admit_drain(
                    old(self).queue().push((key, value_size)),
                    old(self).bindings().insert(key, value_size),
                    old(self).resident_bytes() + value_size,
                    old(self).capacity_bytes() as int,
                );
                &&& final(self).queue() == d.0
                &&& final(self).bindings() == d.1
                &&& final(self).resident_bytes() == d.2
                &&& evicted@ == d.3
            },
            final(self).capacity_bytes() == old(self).capacity_bytes(),
    {
        let mut evicted: Vec<u64> = Vec::new();
        if value_size > self.capacity_bytes || self.capacity_bytes == 0 {
            return evicted;
        }
        if fx_map_contains(&self.resident, key) {
            return evicted;
        }
        proof {
            self.lemma_insert_shape(
                key,
                value_size,
                self.queue@.push((key, value_size)),
                self.resident@.insert(key, value_size),
            );
        }
        self.insert_new(key, value_size);
        let ghost start = fifo_admit_drain(
            self.queue@,
            self.resident@,
            self.resident_bytes as int,
            self.capacity_bytes as int,
        );
        let ghost mid_q = self.queue@;
        let ghost mid_m = self.resident@;
        let ghost mid_rb = self.resident_bytes as int;
        proof {
            lemma_admit_drain(mid_q, mid_m, mid_rb, self.capacity_bytes as int);
        }
        while self.resident_bytes > self.capacity_bytes && self.queue.len() > 0
            invariant
                fifo_shape(self.queue@, self.resident@, self.capacity_bytes as int),
                self.capacity_bytes == old(self).capacity_bytes,
                ({
                    let d = fifo_admit_drain(
                        self.queue@,
                        self.resident@,
                        self.resident_bytes as int,
                        self.capacity_bytes as int,
                    );
                    &&& d.0 == start.0
                    &&& d.1 == start.1
                    &&& d.2 == start.2
                    &&& start.3 == evicted@ + d.3
                }),
            decreases self.queue@.len(),
        {
            let ghost pre_q = self.queue@;
            let ghost pre_m = self.resident@;
            let ghost pre_ev = evicted@;
            proof {
                lemma_shape_drop(self.queue@, self.resident@, self.capacity_bytes as int);
            }
            if let Some(v) = self.evict_one() {
                evicted.push(v);
                proof {
                    let d = fifo_admit_drain(
                        self.queue@,
                        self.resident@,
                        self.resident_bytes as int,
                        self.capacity_bytes as int,
                    );
                    assert(pre_ev + (seq![pre_q[0].0] + d.3) =~= evicted@ + d.3);
                }
            }
        }
        proof {
            assert(evicted@ + Seq::<u64>::empty() =~= evicted@);
            lemma_wf_len(self);
        }
        evicted
    }

    fn remove(&mut self, key: u64)
        ensures
            !old(self).bindings().contains_key(key) ==> final(self).resident_bytes()
                == old(self).resident_bytes(),
            old(self).bindings().contains_key(key) ==> final(self).resident_bytes()
                == old(self).resident_bytes() - old(self).bindings()[key],
            final(self).bindings() == old(self).bindings().remove(key),
            final(self).queue() == old(self).queue(),
            final(self).capacity_bytes() == old(self).capacity_bytes(),
    {
        if let Some(sz) = fx_map_remove(&mut self.resident, key) {
            self.resident_bytes = self.resident_bytes - sz;
        } else {
            proof {
                assert(self.resident@ =~= old(self).resident@.remove(key));
            }
        }
        proof {
            assert forall|k: u64| #[trigger] self.resident@.contains_key(k) implies qkeys(self.queue@).contains(k) by {
                assert(old(self).resident@.contains_key(k));
            }
        }
    }
}

/// The resident set of a well-formed fifo is no larger than its queue.
proof fn lemma_wf_len(f: &Fifo)
    requires
        fifo_shape(f.queue@, f.resident@, f.capacity_bytes as int),
    ensures
        f.resident@.dom().len() <= f.queue@.len(),
{
    let q = f.queue@;
    let m = f.resident@;
    assert(m.dom().subset_of(qkeys(q).to_set()));
    vstd::seq_lib::seq_to_set_is_finite(qkeys(q));
    qkeys(q).lemma_cardinality_of_set();
    vstd::set_lib::lemma_len_subset(m.dom(), qkeys(q).to_set());
}

} // verus!
