//! Exact LRU: a doubly linked list kept in arrays (`prev`/`next` hold node
//! indices, `NIL` ends the list), with freed nodes reused. The list runs
//! from the least recently used entry (`head`, evicted first) to the most
//! recently used (`tail`).
use vstd::prelude::*;
use rustc_hash::FxHashMap;
use crate::eviction::{EvictionPolicy, room_limit};
use crate::fifo::{
    qkeys,
    qsum,
    fifo_shape,
    fifo_exact,
    fifo_admit_drain,
    lemma_qsum_push,
    lemma_qsum_nonneg,
    lemma_admit_drain,
    lemma_exact_drop,
};
use crate::fxmap::{fx_map_new, fx_map_get, fx_map_insert, fx_map_remove, fx_map_contains};

verus! {

/// The index that marks the end of the list.
pub const NIL: usize = usize::MAX;

/// The queue after its entry at `j` moved to the back.
pub open spec fn to_back(q: Seq<(u64, u64)>, j: int) -> Seq<(u64, u64)> {
    q.remove(j).push(q[j])
}

/// `prev`/`next`/`head`/`tail` link the distinct nodes `o`, all below `n`,
/// in that order, with `NIL` at both ends.
pub open spec fn list_ok(
    o: Seq<usize>,
    prev: Seq<usize>,
    next: Seq<usize>,
    head: usize,
    tail: usize,
    n: int,
) -> bool {
    &&& o.no_duplicates()
    &&& forall|i: int| 0 <= i < o.len() ==> #[trigger] o[i] < n
    &&& head == (if o.len() == 0 { NIL } else { o[0] })
    &&& tail == (if o.len() == 0 { NIL } else { o.last() })
    &&& forall|i: int|
        #![trigger next[o[i] as int]]
        0 <= i < o.len() ==> next[o[i] as int] == (if i + 1 < o.len() {
            o[i + 1]
        } else {
            NIL
        })
    &&& forall|i: int|
        #![trigger prev[o[i] as int]]
        0 <= i < o.len() ==> prev[o[i] as int] == (if i > 0 {
            o[i - 1]
        } else {
            NIL
        })
}

/// Removing position `j` keeps the other nodes distinct and below `n`.
proof fn lemma_remove_nodes(o: Seq<usize>, n: int, j: int)
    requires
        o.no_duplicates(),
        forall|i: int| 0 <= i < o.len() ==> #[trigger] o[i] < n,
        0 <= j < o.len(),
    ensures
        o.remove(j).no_duplicates(),
        forall|i: int| 0 <= i < o.remove(j).len() ==> #[trigger] o.remove(j)[i] < n,
        forall|i: int| 0 <= i < o.remove(j).len() ==> #[trigger] o.remove(j)[i] != o[j],
{
    let o2 = o.remove(j);
    o.remove_ensures(j);
    assert forall|i: int| 0 <= i < o2.len() implies #[trigger] o2[i] < n && o2[i] != o[j] by {
        if i < j {
            assert(o2[i] == o[i]);
        } else {
            assert(o2[i] == o[i + 1]);
        }
    }
    assert forall|a: int, b: int| 0 <= a < o2.len() && 0 <= b < o2.len() && a != b implies o2[a]
        != o2[b] by {
        let a1 = if a < j { a } else { a + 1 };
        let b1 = if b < j { b } else { b + 1 };
        assert(o2[a] == o[a1]);
        assert(o2[b] == o[b1]);
    }
}

/// After unlinking position `j`, `next` links the remaining nodes.
proof fn lemma_unlink_next(o: Seq<usize>, next: Seq<usize>, p: usize, x: usize, j: int)
    requires
        o.no_duplicates(),
        0 <= j < o.len(),
        p == (if j > 0 { o[j - 1] } else { NIL }),
        x == (if j + 1 < o.len() { o[j + 1] } else { NIL }),
        next.len() <= room_limit(),
        forall|i: int| 0 <= i < o.len() ==> #[trigger] o[i] < next.len(),
        forall|i: int|
            #![trigger next[o[i] as int]]
            0 <= i < o.len() ==> next[o[i] as int] == (if i + 1 < o.len() {
                o[i + 1]
            } else {
                NIL
            }),
    ensures
        ({
            let next2 = (if p != NIL { next.update(p as int, x) } else { next }).update(o[j] as int, NIL);
            let o2 = o.remove(j);
            forall|i: int|
                #![trigger next2[o2[i] as int]]
                0 <= i < o2.len() ==> next2[o2[i] as int] == (if i + 1 < o2.len() {
                    o2[i + 1]
                } else {
                    NIL
                })
        }),
{
    let idx = o[j];
    let next2 = (if p != NIL { next.update(p as int, x) } else { next }).update(idx as int, NIL);
    let o2 = o.remove(j);
    o.remove_ensures(j);
    assert forall|i: int| #![trigger next2[o2[i] as int]] 0 <= i < o2.len() implies next2[o2[i] as int] == (if i + 1
        < o2.len() {
        o2[i + 1]
    } else {
        NIL
    }) by {
        if i < j {
            assert(o2[i] == o[i]);
            assert(o[i] != idx);
            assert(next[o[i] as int] == o[i + 1]);
            if i + 1 < j {
                assert(o2[i + 1] == o[i + 1]);
                assert(o[i] != o[j - 1]);
            } else {
                assert(o[i] == p);
                if i + 1 < o2.len() {
                    assert(o2[i + 1] == o[j + 1]);
                }
            }
        } else {
            assert(o2[i] == o[i + 1]);
            assert(o[i + 1] != idx);
            assert(next[o[i + 1] as int] == (if i + 2 < o.len() { o[i + 2] } else { NIL }));
            if j > 0 {
                assert(o[i + 1] != o[j - 1]);
            }
            if i + 1 < o2.len() {
                assert(o2[i + 1] == o[i + 2]);
            }
        }
    }
}

/// After unlinking position `j`, `prev` links the remaining nodes.
proof fn lemma_unlink_prev(o: Seq<usize>, prev: Seq<usize>, p: usize, x: usize, j: int)
    requires
        o.no_duplicates(),
        0 <= j < o.len(),
        p == (if j > 0 { o[j - 1] } else { NIL }),
        x == (if j + 1 < o.len() { o[j + 1] } else { NIL }),
        prev.len() <= room_limit(),
        forall|i: int| 0 <= i < o.len() ==> #[trigger] o[i] < prev.len(),
        forall|i: int|
            #![trigger prev[o[i] as int]]
            0 <= i < o.len() ==> prev[o[i] as int] == (if i > 0 {
                o[i - 1]
            } else {
                NIL
            }),
    ensures
        ({
            let prev2 = (if x != NIL { prev.update(x as int, p) } else { prev }).update(o[j] as int, NIL);
            let o2 = o.remove(j);
            forall|i: int|
                #![trigger prev2[o2[i] as int]]
                0 <= i < o2.len() ==> prev2[o2[i] as int] == (if i > 0 {
                    o2[i - 1]
                } else {
                    NIL
                })
        }),
{
    let idx = o[j];
    let prev2 = (if x != NIL { prev.update(x as int, p) } else { prev }).update(idx as int, NIL);
    let o2 = o.remove(j);
    o.remove_ensures(j);
    assert forall|i: int| #![trigger prev2[o2[i] as int]] 0 <= i < o2.len() implies prev2[o2[i] as int] == (if i
        > 0 {
        o2[i - 1]
    } else {
        NIL
    }) by {
        if i < j {
            assert(o2[i] == o[i]);
            assert(o[i] != idx);
            assert(prev[o[i] as int] == (if i > 0 { o[i - 1] } else { NIL }));
            if j + 1 < o.len() {
                assert(o[i] != o[j + 1]);
            }
            if i > 0 {
                assert(o2[i - 1] == o[i - 1]);
            }
        } else {
            assert(o2[i] == o[i + 1]);
            assert(o[i + 1] != idx);
            if i == j {
                assert(o[i + 1] == x);
                if i > 0 {
                    assert(o2[i - 1] == o[j - 1]);
                }
            } else {
                assert(prev[o[i + 1] as int] == o[i]);
                assert(o[i + 1] != o[j + 1]);
                assert(o2[i - 1] == o[i]);
            }
        }
    }
}

/// Unlinking the node at position `j` leaves the list without it.
proof fn lemma_unlink(
    o: Seq<usize>,
    prev: Seq<usize>,
    next: Seq<usize>,
    head: usize,
    tail: usize,
    n: int,
    j: int,
)
    requires
        list_ok(o, prev, next, head, tail, n),
        n <= room_limit(),
        prev.len() == n,
        next.len() == n,
        0 <= j < o.len(),
    ensures
        ({
            let idx = o[j];
            let p = prev[idx as int];
            let x = next[idx as int];
            let next1 = if p != NIL { next.update(p as int, x) } else { next };
            let head1 = if p != NIL { head } else { x };
            let prev1 = if x != NIL { prev.update(x as int, p) } else { prev };
            let tail1 = if x != NIL { tail } else { p };
            &&& idx < n
            &&& p != NIL ==> p < n
            &&& x != NIL ==> x < n
            &&& list_ok(o.remove(j), prev1.update(idx as int, NIL), next1.update(idx as int, NIL), head1, tail1, n)
        }),
{
    let idx = o[j];
    let p = prev[idx as int];
    let x = next[idx as int];
    let o2 = o.remove(j);
    assert(o[j] == idx);
    if j > 0 {
        assert(o[j - 1] < n);
    }
    if j + 1 < o.len() {
        assert(o[j + 1] < n);
    }
    lemma_remove_nodes(o, n, j);
    lemma_unlink_next(o, next, p, x, j);
    lemma_unlink_prev(o, prev, p, x, j);
    o.remove_ensures(j);
    if o2.len() > 0 {
        if j == 0 {
            assert(o2[0] == o[1]);
        } else {
            assert(o2[0] == o[0]);
        }
        if j == o.len() - 1 {
            assert(o2.last() == o[j - 1]);
        } else {
            assert(o2.last() == o.last());
        }
    }
}

pub proof fn lemma_qsum_concat(a: Seq<(u64, u64)>, b: Seq<(u64, u64)>)
    ensures
        qsum(a + b) == qsum(a) + qsum(b),
    decreases a.len(),
{
    if a.len() == 0 {
        assert(a + b =~= b);
    } else {
        assert((a + b).drop_first() =~= a.drop_first() + b);
        assert((a + b)[0] == a[0]);
        lemma_qsum_concat(a.drop_first(), b);
    }
}

pub proof fn lemma_qsum_remove(q: Seq<(u64, u64)>, j: int)
    requires
        0 <= j < q.len(),
    ensures
        qsum(q.remove(j)) == qsum(q) - q[j].1,
{
    let a = q.subrange(0, j);
    let b = q.subrange(j + 1, q.len() as int);
    let one = seq![q[j]];
    assert(q =~= a + (one + b));
    assert(q.remove(j) =~= a + b);
    assert(one.drop_first() =~= Seq::<(u64, u64)>::empty());
    assert(qsum(Seq::<(u64, u64)>::empty()) == 0);
    assert(one[0] == q[j]);
    assert(qsum(one) == q[j].1);
    lemma_qsum_concat(a, one + b);
    lemma_qsum_concat(one, b);
    lemma_qsum_concat(a, b);
}

pub struct TrueLru {
    capacity_bytes: u64,
    resident_bytes: u64,
    keys: Vec<u64>,
    sizes: Vec<u64>,
    prev: Vec<usize>,
    next: Vec<usize>,
    key_to_node: FxHashMap<u64, usize>,
    head: usize,
    tail: usize,
    free: Vec<usize>,
    /// The nodes of the list, from head to tail.
    order: Ghost<Seq<usize>>,
}

impl TrueLru {
    /// The entries from least to most recently used: `(key, size)`.
    pub closed spec fn queue(&self) -> Seq<(u64, u64)> {
        Seq::new(
            self.order@.len(),
            |i: int| (self.keys@[self.order@[i] as int], self.sizes@[self.order@[i] as int]),
        )
    }

    /// The resident keys and their sizes.
    pub closed spec fn bindings(&self) -> Map<u64, u64> {
        self.key_to_node@.map_values(|n: usize| self.sizes@[n as int])
    }

    pub closed spec fn resident_bytes(&self) -> u64 {
        self.resident_bytes
    }

    pub closed spec fn capacity_bytes(&self) -> u64 {
        self.capacity_bytes
    }

    /// The arrays agree in length, and `prev`/`next`/`head`/`tail` link the
    /// nodes of `order` in that order.
    spec fn links_ok(&self) -> bool {
        let n = self.keys@.len();
        &&& self.sizes@.len() == n
        &&& self.prev@.len() == n
        &&& self.next@.len() == n
        &&& n <= room_limit()
        &&& list_ok(self.order@, self.prev@, self.next@, self.head, self.tail, n as int)
    }

    /// Free nodes are outside the list.
    spec fn free_ok(&self) -> bool {
        &&& self.free@.no_duplicates()
        &&& forall|i: int|
            0 <= i < self.free@.len() ==> #[trigger] self.free@[i] < self.keys@.len()
                && !self.order@.contains(self.free@[i])
    }

    /// The key map finds each listed node by its key, and only those.
    spec fn map_ok(&self) -> bool {
        let o = self.order@;
        let m = self.key_to_node@;
        &&& m.dom().finite()
        &&& forall|i: int|
            #![trigger o[i]]
            0 <= i < o.len() ==> m.contains_key(self.keys@[o[i] as int]) && m[self.keys@[o[i] as int]]
                == o[i]
        &&& forall|k: u64| #[trigger]
            m.contains_key(k) ==> o.contains(m[k]) && self.keys@[m[k] as int] == k
    }

    /// Every listed size fits the budget, the byte count is the listed
    /// total, and each node is either listed or free.
    spec fn count_ok(&self) -> bool {
        &&& forall|i: int|
            #![trigger self.order@[i]]
            0 <= i < self.order@.len() ==> self.sizes@[self.order@[i] as int] <= self.capacity_bytes
        &&& self.resident_bytes == qsum(self.queue())
        &&& self.order@.len() + self.free@.len() == self.keys@.len()
    }

    spec fn inv(&self) -> bool {
        &&& self.links_ok()
        &&& self.free_ok()
        &&& self.map_ok()
        &&& self.count_ok()
    }

    /// The queue and bindings of a consistent list: exact, with each key
    /// once and each size within budget.
    proof fn lemma_exact(&self)
        requires
            self.inv(),
        ensures
            fifo_shape(self.queue(), self.bindings(), self.capacity_bytes as int),
            fifo_exact(self.queue(), self.bindings(), self.resident_bytes as int),
            self.bindings().dom() == self.key_to_node@.dom(),
            self.queue().len() == self.order@.len(),
    {
        let o = self.order@;
        let q = self.queue();
        let r = self.bindings();
        let m = self.key_to_node@;
        assert(r.dom() =~= m.dom());
        assert forall|k: u64| #[trigger] r.contains_key(k) implies qkeys(q).contains(k) by {
            let j = choose|j: int| 0 <= j < o.len() && o[j] == m[k];
            assert(qkeys(q)[j] == k);
        }
        assert forall|j: int| 0 <= j < q.len() implies #[trigger] q[j].1 <= self.capacity_bytes by {
            assert(o[j] == o[j]);
        }
        assert forall|a: int, b: int| 0 <= a < qkeys(q).len() && 0 <= b < qkeys(q).len() && a != b implies qkeys(
            q,
        )[a] != qkeys(q)[b] by {
            assert(o[a] == o[a]);
            assert(o[b] == o[b]);
        }
        assert forall|j: int| 0 <= j < q.len() implies #[trigger] r.contains_key(q[j].0) && r[q[j].0]
            == q[j].1 by {
            assert(o[j] == o[j]);
        }
    }

    /// An empty cache with budget `capacity_bytes`.
    pub fn new(capacity_bytes: u64) -> (r: Self)
        ensures
            r.model() == (Seq::<(u64, u64)>::empty(), Map::<u64, u64>::empty(), 0int, capacity_bytes),
            r.capacity() == capacity_bytes as int,
            r.bytes() == 0,
            r.resident() == Set::<u64>::empty(),
            r.clock_ok(0),
            r.takes_all(),
            r.wf(),
            r.queue() == Seq::<(u64, u64)>::empty(),
            r.bindings().dom() == Set::<u64>::empty(),
            r.resident_bytes() == 0,
            r.capacity_bytes() == capacity_bytes,
            r.settled(),
            r.footprint() == 0,
    {
        let r = TrueLru {
            capacity_bytes,
            resident_bytes: 0,
            keys: Vec::new(),
            sizes: Vec::new(),
            prev: Vec::new(),
            next: Vec::new(),
            key_to_node: fx_map_new(),
            head: NIL,
            tail: NIL,
            free: Vec::new(),
            order: Ghost(Seq::empty()),
        };
        proof {
            assert(r.queue() =~= Seq::<(u64, u64)>::empty());
            assert(r.bindings().dom() =~= Set::<u64>::empty());
            assert(qsum(r.queue()) == 0);
        }
        r
    }

    /// Takes node `idx` (at position `j` of the list) out of the list.
    fn unlink(&mut self, idx: usize, Ghost(j): Ghost<int>)
        requires
            old(self).links_ok(),
            0 <= j < old(self).order@.len(),
            old(self).order@[j] == idx,
        ensures
            final(self).links_ok(),
            final(self).order@ == old(self).order@.remove(j),
            final(self).keys@ == old(self).keys@,
            final(self).sizes@ == old(self).sizes@,
            final(self).free@ == old(self).free@,
            final(self).key_to_node@ == old(self).key_to_node@,
            final(self).capacity_bytes == old(self).capacity_bytes,
            final(self).resident_bytes == old(self).resident_bytes,
    {
        proof {
            lemma_unlink(
                self.order@,
                self.prev@,
                self.next@,
                self.head,
                self.tail,
                self.keys@.len() as int,
                j,
            );
        }
        let p = self.prev[idx];
        let n = self.next[idx];
        if p != NIL {
            self.next[p] = n;
        } else {
            self.head = n;
        }
        if n != NIL {
            self.prev[n] = p;
        } else {
            self.tail = p;
        }
        self.prev[idx] = NIL;
        self.next[idx] = NIL;
        self.order = Ghost(self.order@.remove(j));
    }

    /// Appends node `idx`, which is not in the list, at the tail.
    fn push_back(&mut self, idx: usize)
        requires
            old(self).links_ok(),
            idx < old(self).keys@.len(),
            !old(self).order@.contains(idx),
        ensures
            final(self).links_ok(),
            final(self).order@ == old(self).order@.push(idx),
            final(self).keys@ == old(self).keys@,
            final(self).sizes@ == old(self).sizes@,
            final(self).free@ == old(self).free@,
            final(self).key_to_node@ == old(self).key_to_node@,
            final(self).capacity_bytes == old(self).capacity_bytes,
            final(self).resident_bytes == old(self).resident_bytes,
    {
        let ghost o = self.order@;
        let ghost o2 = o.push(idx);
        proof {
            if o.len() > 0 {
                assert(o[o.len() - 1] < self.keys@.len());
            }
        }
        self.prev[idx] = self.tail;
        self.next[idx] = NIL;
        if self.tail != NIL {
            let t = self.tail;
            self.next[t] = idx;
        }
        self.tail = idx;
        if self.head == NIL {
            self.head = idx;
        }
        self.order = Ghost(o2);
        proof {
            assert forall|i: int| 0 <= i < o2.len() implies #[trigger] o2[i] < self.keys@.len() by {
                if i < o.len() {
                    assert(o2[i] == o[i]);
                }
            }
            assert forall|a: int, b: int| 0 <= a < o2.len() && 0 <= b < o2.len() && a != b implies o2[a]
                != o2[b] by {
                if a < o.len() {
                    assert(o2[a] == o[a]);
                }
                if b < o.len() {
                    assert(o2[b] == o[b]);
                }
            }
            assert forall|i: int| #![trigger self.next@[o2[i] as int]] 0 <= i < o2.len() implies self.next@[o2[i] as int] == (
            if i + 1 < o2.len() {
                o2[i + 1]
            } else {
                NIL
            }) by {
                if i < o.len() {
                    assert(o2[i] == o[i]);
                    assert(o[i] != idx);
                    if i + 1 < o.len() {
                        assert(o2[i + 1] == o[i + 1]);
                        assert(o[i] != o[o.len() - 1]);
                    }
                }
            }
            assert forall|i: int| #![trigger self.prev@[o2[i] as int]] 0 <= i < o2.len() implies self.prev@[o2[i] as int] == (
            if i > 0 {
                o2[i - 1]
            } else {
                NIL
            }) by {
                if i < o.len() {
                    assert(o2[i] == o[i]);
                    assert(o[i] != idx);
                    if i > 0 {
                        assert(o2[i - 1] == o[i - 1]);
                    }
                } else if i > 0 {
                    assert(o2[i - 1] == o[o.len() - 1]);
                }
            }
            if o.len() > 0 {
                assert(o2[0] == o[0]);
            }
        }
    }

    /// A node for a new entry: a free one if any, else a new one at the end.
    fn alloc_node(&mut self, key: u64, size: u64) -> (idx: usize)
        requires
            old(self).links_ok(),
            old(self).free_ok(),
            old(self).order@.len() + old(self).free@.len() == old(self).keys@.len(),
            old(self).free@.len() > 0 || old(self).keys@.len() < room_limit(),
        ensures
            final(self).links_ok(),
            final(self).free_ok(),
            final(self).order@ == old(self).order@,
            final(self).order@.len() + final(self).free@.len() + 1 == final(self).keys@.len(),
            idx < final(self).keys@.len(),
            !final(self).order@.contains(idx),
            forall|i: int| 0 <= i < final(self).free@.len() ==> #[trigger] final(self).free@[i] != idx,
            final(self).keys@[idx as int] == key,
            final(self).sizes@[idx as int] == size,
            forall|x: usize|
                #![trigger old(self).order@.contains(x)]
                old(self).order@.contains(x) ==> final(self).keys@[x as int] == old(self).keys@[x as int]
                    && final(self).sizes@[x as int] == old(self).sizes@[x as int],
            final(self).keys@.len() <= old(self).keys@.len() + 1,
            final(self).key_to_node@ == old(self).key_to_node@,
            final(self).capacity_bytes == old(self).capacity_bytes,
            final(self).resident_bytes == old(self).resident_bytes,
    {
        if let Some(idx) = self.free.pop() {
            proof {
                assert(old(self).free@[old(self).free@.len() - 1] == idx);
            }
            self.keys[idx] = key;
            self.sizes[idx] = size;
            self.prev[idx] = NIL;
            self.next[idx] = NIL;
            proof {
                let o = self.order@;
                assert(list_ok(o, self.prev@, self.next@, self.head, self.tail, self.keys@.len() as int)) by {
                    assert forall|i: int| #![trigger self.next@[o[i] as int]] 0 <= i < o.len() implies self.next@[o[i] as int] == (
                    if i + 1 < o.len() {
                        o[i + 1]
                    } else {
                        NIL
                    }) by {
                        assert(old(self).next@[o[i] as int] == (if i + 1 < o.len() { o[i + 1] } else { NIL }));
                        assert(o[i] != idx);
                    }
                    assert forall|i: int| #![trigger self.prev@[o[i] as int]] 0 <= i < o.len() implies self.prev@[o[i] as int] == (
                    if i > 0 {
                        o[i - 1]
                    } else {
                        NIL
                    }) by {
                        assert(old(self).prev@[o[i] as int] == (if i > 0 { o[i - 1] } else { NIL }));
                        assert(o[i] != idx);
                    }
                }
                assert forall|i: int| 0 <= i < self.free@.len() implies #[trigger] self.free@[i] != idx by {
                    assert(self.free@[i] == old(self).free@[i]);
                    assert(old(self).free@.no_duplicates());
                }
            }
            idx
        } else {
            let idx = self.keys.len();
            self.keys.push(key);
            self.sizes.push(size);
            self.prev.push(NIL);
            self.next.push(NIL);
            proof {
                let o = self.order@;
                assert(!o.contains(idx)) by {
                    if o.contains(idx) {
                        let j = choose|j: int| 0 <= j < o.len() && o[j] == idx;
                        assert(o[j] < idx);
                    }
                }
                assert(list_ok(o, self.prev@, self.next@, self.head, self.tail, self.keys@.len() as int)) by {
                    assert forall|i: int| 0 <= i < o.len() implies #[trigger] o[i] < self.keys@.len() by {
                        assert(o[i] < old(self).keys@.len());
                    }
                    assert forall|i: int| #![trigger self.next@[o[i] as int]] 0 <= i < o.len() implies self.next@[o[i] as int] == (
                    if i + 1 < o.len() {
                        o[i + 1]
                    } else {
                        NIL
                    }) by {
                        assert(old(self).next@[o[i] as int] == (if i + 1 < o.len() { o[i + 1] } else { NIL }));
                        assert(o[i] < old(self).keys@.len());
                    }
                    assert forall|i: int| #![trigger self.prev@[o[i] as int]] 0 <= i < o.len() implies self.prev@[o[i] as int] == (
                    if i > 0 {
                        o[i - 1]
                    } else {
                        NIL
                    }) by {
                        assert(old(self).prev@[o[i] as int] == (if i > 0 { o[i - 1] } else { NIL }));
                        assert(o[i] < old(self).keys@.len());
                    }
                }
                assert forall|x: usize| #![trigger o.contains(x)] o.contains(x) implies self.keys@[x as int]
                    == old(self).keys@[x as int] && self.sizes@[x as int] == old(self).sizes@[x as int] by {
                    let j = choose|j: int| 0 <= j < o.len() && o[j] == x;
                    assert(o[j] < old(self).keys@.len());
                }
            }
            idx
        }
    }

    /// Lists a key that is not resident as the most recently used entry.
    fn insert_new(&mut self, key: u64, value_size: u64)
        requires
            old(self).inv(),
            !old(self).key_to_node@.contains_key(key),
            old(self).resident_bytes + value_size <= u64::MAX,
            value_size <= old(self).capacity_bytes,
            old(self).keys@.len() < room_limit(),
        ensures
            final(self).inv(),
            final(self).queue() == old(self).queue().push((key, value_size)),
            final(self).bindings() == old(self).bindings().insert(key, value_size),
            final(self).resident_bytes == old(self).resident_bytes + value_size,
            final(self).capacity_bytes == old(self).capacity_bytes,
            final(self).keys@.len() <= old(self).keys@.len() + 1,
    {
        let ghost o = self.order@;
        let ghost q = self.queue();
        let ghost m = self.key_to_node@;
        let ghost keys0 = self.keys@;
        let ghost sizes0 = self.sizes@;
        let idx = self.alloc_node(key, value_size);
        proof {
            assert forall|i: int| 0 <= i < o.len() implies #[trigger] keys0[o[i] as int] != key by {
                assert(m.contains_key(keys0[o[i] as int]));
            }
        }
        self.push_back(idx);
        fx_map_insert(&mut self.key_to_node, key, idx);
        self.resident_bytes = self.resident_bytes + value_size;
        proof {
            let o2 = self.order@;
            assert(o2 =~= o.push(idx));
            assert forall|i: int| 0 <= i < o.len() implies #[trigger] self.keys@[o[i] as int] == keys0[o[i]
                as int] && self.sizes@[o[i] as int] == sizes0[o[i] as int] by {
                assert(o.contains(o[i]));
            }
            assert(self.queue() =~= q.push((key, value_size))) by {
                assert forall|i: int| 0 <= i < q.len() implies #[trigger] self.queue()[i] == q[i] by {
                    assert(o2[i] == o[i]);
                }
            }
            lemma_qsum_push(q, (key, value_size));
            assert forall|i: int| 0 <= i < self.free@.len() implies #[trigger] self.free@[i] < self.keys@.len()
                && !o2.contains(self.free@[i]) by {
                assert(!o.contains(self.free@[i]));
                assert(self.free@[i] != idx);
                if o2.contains(self.free@[i]) {
                    let j = choose|j: int| 0 <= j < o2.len() && o2[j] == self.free@[i];
                    if j < o.len() {
                        assert(o[j] == self.free@[i]);
                    }
                }
            }
            let m2 = self.key_to_node@;
            assert forall|i: int| #![trigger o2[i]] 0 <= i < o2.len() implies m2.contains_key(self.keys@[o2[i] as int])
                && m2[self.keys@[o2[i] as int]] == o2[i] by {
                if i < o.len() {
                    assert(o2[i] == o[i]);
                    assert(m.contains_key(keys0[o[i] as int]));
                }
            }
            assert forall|k: u64| #[trigger] m2.contains_key(k) implies o2.contains(m2[k]) && self.keys@[m2[k] as int]
                == k by {
                if k == key {
                    assert(o2[o.len() as int] == idx);
                } else {
                    let j = choose|j: int| 0 <= j < o.len() && o[j] == m[k];
                    assert(o2[j] == m[k]);
                    assert(o.contains(m[k]));
                }
            }
            assert forall|i: int| #![trigger o2[i]] 0 <= i < o2.len() implies self.sizes@[o2[i] as int]
                <= self.capacity_bytes by {
                if i < o.len() {
                    assert(o2[i] == o[i]);
                    assert(sizes0[o[i] as int] <= self.capacity_bytes);
                }
            }
            assert(self.bindings() =~= old(self).bindings().insert(key, value_size)) by {
                assert forall|k: u64| #[trigger] m2.contains_key(k) && k != key implies self.sizes@[m2[k] as int]
                    == sizes0[m[k] as int] by {
                    assert(o.contains(m[k]));
                }
            }
        }
    }

    /// Evicts the least recently used entry; hands back its key.
    fn evict_lru(&mut self) -> (key: u64)
        requires
            old(self).inv(),
            old(self).order@.len() > 0,
        ensures
            final(self).inv(),
            key == old(self).queue()[0].0,
            final(self).queue() == old(self).queue().drop_first(),
            final(self).bindings() == old(self).bindings().remove(key),
            final(self).resident_bytes == old(self).resident_bytes - old(self).queue()[0].1,
            final(self).capacity_bytes == old(self).capacity_bytes,
            final(self).keys@.len() == old(self).keys@.len(),
    {
        let ghost o = self.order@;
        let ghost q = self.queue();
        let ghost m = self.key_to_node@;
        let idx = self.head;
        let key = self.keys[idx];
        let sz = self.sizes[idx];
        proof {
            assert(o[0] == idx);
            assert(q[0] == (key, sz));
            lemma_qsum_nonneg(q.drop_first());
        }
        self.unlink(idx, Ghost(0));
        self.free.push(idx);
        fx_map_remove(&mut self.key_to_node, key);
        self.resident_bytes = self.resident_bytes - sz;
        proof {
            let o2 = self.order@;
            let m2 = self.key_to_node@;
            assert(o2 =~= o.drop_first());
            assert(self.queue() =~= q.drop_first()) by {
                assert forall|i: int| 0 <= i < o2.len() implies #[trigger] self.queue()[i] == q.drop_first()[i] by {
                    assert(o2[i] == o[i + 1]);
                }
            }
            assert(!o2.contains(idx)) by {
                if o2.contains(idx) {
                    let j = choose|j: int| 0 <= j < o2.len() && o2[j] == idx;
                    assert(o[j + 1] == idx);
                }
            }
            assert forall|i: int| 0 <= i < self.free@.len() implies #[trigger] self.free@[i] < self.keys@.len()
                && !o2.contains(self.free@[i]) by {
                if i < old(self).free@.len() {
                    assert(self.free@[i] == old(self).free@[i]);
                    assert(!o.contains(self.free@[i]));
                    if o2.contains(self.free@[i]) {
                        let j = choose|j: int| 0 <= j < o2.len() && o2[j] == self.free@[i];
                        assert(o[j + 1] == self.free@[i]);
                    }
                }
            }
            assert forall|i: int| #![trigger o2[i]] 0 <= i < o2.len() implies m2.contains_key(self.keys@[o2[i] as int])
                && m2[self.keys@[o2[i] as int]] == o2[i] by {
                assert(o2[i] == o[i + 1]);
                assert(o[i + 1] == o[i + 1]);
                assert(o[i + 1] != o[0]);
            }
            assert forall|k: u64| #[trigger] m2.contains_key(k) implies o2.contains(m2[k]) && self.keys@[m2[k] as int]
                == k by {
                let j = choose|j: int| 0 <= j < o.len() && o[j] == m[k];
                assert(j != 0);
                assert(o2[j - 1] == m[k]);
            }
            assert forall|i: int| #![trigger o2[i]] 0 <= i < o2.len() implies self.sizes@[o2[i] as int]
                <= self.capacity_bytes by {
                assert(o2[i] == o[i + 1]);
                assert(o[i + 1] == o[i + 1]);
            }
            assert(self.bindings() =~= old(self).bindings().remove(key));
        }
        key
    }

    /// Makes node `idx` (at position `j`) the most recently used.
    fn move_to_back(&mut self, idx: usize, Ghost(j): Ghost<int>)
        requires
            old(self).inv(),
            0 <= j < old(self).order@.len(),
            old(self).order@[j] == idx,
        ensures
            final(self).inv(),
            final(self).queue() == to_back(old(self).queue(), j),
            final(self).bindings() == old(self).bindings(),
            final(self).resident_bytes == old(self).resident_bytes,
            final(self).capacity_bytes == old(self).capacity_bytes,
            final(self).keys@.len() == old(self).keys@.len(),
    {
        let ghost o = self.order@;
        let ghost q = self.queue();
        let ghost m = self.key_to_node@;
        if idx == self.tail {
            proof {
                assert(j == o.len() - 1) by {
                    if j != o.len() - 1 {
                        assert(o[j] == o[o.len() - 1]);
                    }
                }
                assert(to_back(q, j) =~= q);
            }
            return;
        }
        self.unlink(idx, Ghost(j));
        proof {
            let o1 = self.order@;
            assert(!o1.contains(idx)) by {
                if o1.contains(idx) {
                    let i = choose|i: int| 0 <= i < o1.len() && o1[i] == idx;
                    if i < j {
                        assert(o[i] == idx);
                    } else {
                        assert(o[i + 1] == idx);
                    }
                }
            }
        }
        self.push_back(idx);
        proof {
            let o2 = self.order@;
            assert(o2 =~= o.remove(j).push(o[j]));
            assert(self.queue() =~= to_back(q, j)) by {
                assert forall|i: int| 0 <= i < o2.len() implies #[trigger] self.queue()[i] == to_back(q, j)[i] by {
                    if i < j {
                        assert(o2[i] == o[i]);
                    } else if i < o.len() - 1 {
                        assert(o2[i] == o[i + 1]);
                    }
                }
            }
            assert forall|x: usize| o2.contains(x) <==> #[trigger] o.contains(x) by {
                if o.contains(x) {
                    let i = choose|i: int| 0 <= i < o.len() && o[i] == x;
                    if i < j {
                        assert(o2[i] == x);
                    } else if i == j {
                        assert(o2[o2.len() - 1] == x);
                    } else {
                        assert(o2[i - 1] == x);
                    }
                }
                if o2.contains(x) {
                    let i = choose|i: int| 0 <= i < o2.len() && o2[i] == x;
                    if i < j {
                        assert(o[i] == x);
                    } else if i < o.len() - 1 {
                        assert(o[i + 1] == x);
                    } else {
                        assert(o[j] == x);
                    }
                }
            }
            assert forall|i: int| 0 <= i < self.free@.len() implies #[trigger] self.free@[i] < self.keys@.len()
                && !o2.contains(self.free@[i]) by {
                assert(!o.contains(self.free@[i]));
            }
            assert forall|i: int| #![trigger o2[i]] 0 <= i < o2.len() implies m.contains_key(self.keys@[o2[i] as int])
                && m[self.keys@[o2[i] as int]] == o2[i] && self.sizes@[o2[i] as int] <= self.capacity_bytes by {
                if i < j {
                    assert(o2[i] == o[i]);
                } else if i < o.len() - 1 {
                    assert(o2[i] == o[i + 1]);
                    assert(o[i + 1] == o[i + 1]);
                } else {
                    assert(o2[i] == o[j]);
                }
            }
            assert forall|k: u64| #[trigger] m.contains_key(k) implies o2.contains(m[k]) by {
                assert(o.contains(m[k]));
            }
            lemma_qsum_push(q.remove(j), q[j]);
            lemma_qsum_remove(q, j);
        }
    }

    /// Where a resident key stands in the queue: at the position of its node.
    proof fn lemma_index(&self, key: u64)
        requires
            self.inv(),
            self.key_to_node@.contains_key(key),
        ensures
            0 <= qkeys(self.queue()).index_of(key) < self.order@.len(),
            self.order@[qkeys(self.queue()).index_of(key)] == self.key_to_node@[key],
            qkeys(self.queue())[qkeys(self.queue()).index_of(key)] == key,
    {
        let o = self.order@;
        let m = self.key_to_node@;
        let q = self.queue();
        let j0 = choose|j: int| 0 <= j < o.len() && o[j] == m[key];
        assert(qkeys(q)[j0] == key);
        assert(qkeys(q).contains(key));
        let j = qkeys(q).index_of(key);
        assert(qkeys(q)[j] == key);
        assert(o[j] == o[j]);
    }

    /// The resident keys are at most the nodes.
    proof fn lemma_len(&self)
        requires
            self.inv(),
        ensures
            self.key_to_node@.dom().len() <= self.keys@.len(),
    {
        self.lemma_exact();
        let q = self.queue();
        let d = self.key_to_node@.dom();
        assert(d.subset_of(qkeys(q).to_set())) by {
            assert forall|k: u64| d.contains(k) implies qkeys(q).to_set().contains(k) by {
                assert(self.bindings().contains_key(k));
            }
        }
        vstd::seq_lib::seq_to_set_is_finite(qkeys(q));
        qkeys(q).lemma_cardinality_of_set();
        vstd::set_lib::lemma_len_subset(d, qkeys(q).to_set());
    }
}

impl EvictionPolicy for TrueLru {
    type Model = (Seq<(u64, u64)>, Map<u64, u64>, int, u64);

    /// Queue (least recently used first), bindings, resident bytes, budget.
    open spec fn model(&self) -> Self::Model {
        (self.queue(), self.bindings(), self.resident_bytes() as int, self.capacity_bytes())
    }

    open spec fn model_resident(m: Self::Model) -> Set<u64> {
        m.1.dom()
    }

    open spec fn model_touch(m: Self::Model, key: u64, t: u64) -> Self::Model {
        if m.1.contains_key(key) {
            (to_back(m.0, qkeys(m.0).index_of(key)), m.1, m.2, m.3)
        } else {
            m
        }
    }

    open spec fn model_bytes(m: Self::Model) -> int {
        m.2
    }

    open spec fn model_remove(m: Self::Model, key: u64) -> Self::Model {
        if m.1.contains_key(key) {
            (m.0.remove(qkeys(m.0).index_of(key)), m.1.remove(key), m.2 - m.1[key], m.3)
        } else {
            (m.0, m.1.remove(key), m.2, m.3)
        }
    }

    open spec fn model_admits(m: Self::Model, key: u64, value_size: u64) -> bool {
        m.3 > 0 && value_size <= m.3 && !m.1.contains_key(key)
    }

    open spec fn model_admit(m: Self::Model, key: u64, value_size: u64, t: u64) -> (Self::Model, Seq<u64>) {
        if Self::model_admits(m, key, value_size) {
            let d = fifo_admit_drain(m.0.push((key, value_size)), m.1.insert(key, value_size), m.2 + value_size, m.3 as int);
            ((d.0, d.1, d.2, m.3), d.3)
        } else {
            (m, Seq::empty())
        }
    }

    closed spec fn wf(&self) -> bool {
        self.inv()
    }

    closed spec fn resident(&self) -> Set<u64> {
        self.key_to_node@.dom()
    }

    closed spec fn bytes(&self) -> int {
        self.resident_bytes as int
    }

    closed spec fn capacity(&self) -> int {
        self.capacity_bytes as int
    }

    closed spec fn settled(&self) -> bool {
        self.resident_bytes <= self.capacity_bytes
    }

    closed spec fn admits(&self, key: u64, value_size: u64) -> bool {
        &&& self.capacity_bytes > 0
        &&& value_size <= self.capacity_bytes
        &&& !self.key_to_node@.contains_key(key)
    }

    open spec fn clock_ok(&self, t: u64) -> bool {
        true
    }

    closed spec fn access_ok(&self, key: u64, value_size: u64) -> bool {
        self.admits(key, value_size) ==> {
            &&& self.resident_bytes + value_size <= u64::MAX
            &&& self.keys@.len() < room_limit()
        }
    }

    open spec fn remove_ok(&self, key: u64) -> bool {
        true
    }

    closed spec fn footprint(&self) -> int {
        self.keys@.len() as int
    }

    proof fn lemma_wf(&self) {
        self.lemma_len();
    }

    proof fn lemma_admits(&self, key: u64, value_size: u64) {
    }

    open spec fn takes_all(&self) -> bool {
        true
    }

    proof fn lemma_takes_all(&self, key: u64, value_size: u64) {
    }

    proof fn lemma_clock(&self, t1: u64, t2: u64) {
    }

    proof fn lemma_access_ok(&self, key: u64, value_size: u64) {
    }

    fn access(&mut self, key: u64, value_size: u64, t: u64) -> (hit: bool)
        ensures
            hit ==> final(self).queue() == to_back(
                old(self).queue(),
                qkeys(old(self).queue()).index_of(key),
            ),
            hit ==> final(self).bindings() == old(self).bindings(),
            hit ==> final(self).resident_bytes() == old(self).resident_bytes(),
            !hit && !old(self).admits(key, value_size) ==> *final(self) == *old(self),
            !hit && old(self).admits(key, value_size) ==> {
                let d = fifo_admit_drain(
                    old(self).queue().push((key, value_size)),
                    old(self).bindings().insert(key, value_size),
                    old(self).resident_bytes() + value_size,
                    old(self).capacity_bytes() as int,
                );
                &&& final(self).queue() == d.0
                &&& final(self).bindings() == d.1
                &&& final(self).resident_bytes() == d.2
            },
            final(self).capacity_bytes() == old(self).capacity_bytes(),
    {
        if let Some(idx) = fx_map_get(&self.key_to_node, key) {
            let ghost j = qkeys(self.queue()).index_of(key);
            proof {
                self.lemma_index(key);
                self.lemma_exact();
            }
            self.move_to_back(idx, Ghost(j));
            return true;
        }
        if value_size > self.capacity_bytes || self.capacity_bytes == 0 {
            return false;
        }
        proof {
            self.lemma_exact();
        }
        self.insert_new(key, value_size);
        let ghost start = fifo_admit_drain(
            self.queue(),
            self.bindings(),
            self.resident_bytes as int,
            self.capacity_bytes as int,
        );
        proof {
            self.lemma_exact();
            lemma_admit_drain(self.queue(), self.bindings(), self.resident_bytes as int, self.capacity_bytes as int);
        }
        while self.resident_bytes > self.capacity_bytes
            invariant
                self.inv(),
                self.capacity_bytes == old(self).capacity_bytes,
                self.keys@.len() <= old(self).keys@.len() + 1,
                ({
                    let d = fifo_admit_drain(
                        self.queue(),
                        self.bindings(),
                        self.resident_bytes as int,
                        self.capacity_bytes as int,
                    );
                    &&& d.0 == start.0
                    &&& d.1 == start.1
                    &&& d.2 == start.2
                }),
            decreases self.order@.len(),
        {
            proof {
                self.lemma_exact();
                if self.order@.len() == 0 {
                    assert(self.queue() =~= Seq::<(u64, u64)>::empty());
                }
                lemma_exact_drop(self.queue(), self.bindings(), self.resident_bytes as int);
            }
            self.evict_lru();
        }
        proof {
            self.lemma_exact();
            self.lemma_len();
        }
        false
    }

    fn contains(&self, key: u64) -> (r: bool) {
        fx_map_contains(&self.key_to_node, key)
    }

    fn touch(&mut self, key: u64, t: u64)
        ensures
            old(self).bindings().contains_key(key) ==> final(self).queue() == to_back(
                old(self).queue(),
                qkeys(old(self).queue()).index_of(key),
            ),
            !old(self).bindings().contains_key(key) ==> *final(self) == *old(self),
            final(self).bindings() == old(self).bindings(),
            final(self).resident_bytes() == old(self).resident_bytes(),
            final(self).capacity_bytes() == old(self).capacity_bytes(),
    {
        proof {
            self.lemma_exact();
        }
        if let Some(idx) = fx_map_get(&self.key_to_node, key) {
            let ghost j = qkeys(self.queue()).index_of(key);
            proof {
                self.lemma_index(key);
            }
            self.move_to_back(idx, Ghost(j));
        }
        proof {
            self.lemma_exact();
        }
    }

    fn admit_entry(&mut self, key: u64, value_size: u64, t: u64) -> (evicted: Vec<u64>)
        ensures
            !old(self).admits(key, value_size) ==> *final(self) == *old(self),
            old(self).admits(key, value_size) ==> {
                let d = fifo_admit_drain(
                    old(self).queue().push((key, value_size)),
                    old(self).bindings().insert(key, value_size),
                    old(self).resident_bytes() + value_size,
                    old(self).capacity_bytes() as int,
                );
                &&& final(self).queue() == d.0
                &&& final(self).bindings() == d.1
                &&& final(self).resident_bytes() == d.2
                &&& evicted@ == d.3
            },
            final(self).capacity_bytes() == old(self).capacity_bytes(),
    {
        let mut evicted: Vec<u64> = Vec::new();
        if value_size > self.capacity_bytes || self.capacity_bytes == 0 {
            return evicted;
        }
        if fx_map_contains(&self.key_to_node, key) {
            return evicted;
        }
        proof {
            self.lemma_exact();
        }
        self.insert_new(key, value_size);
        let ghost start = fifo_admit_drain(
            self.queue(),
            self.bindings(),
            self.resident_bytes as int,
            self.capacity_bytes as int,
        );
        proof {
            self.lemma_exact();
            lemma_admit_drain(self.queue(), self.bindings(), self.resident_bytes as int, self.capacity_bytes as int);
        }
        while self.resident_bytes > self.capacity_bytes
            invariant
                self.inv(),
                self.capacity_bytes == old(self).capacity_bytes,
                self.keys@.len() <= old(self).keys@.len() + 1,
                ({
                    let d = fifo_admit_drain(
                        self.queue(),
                        self.bindings(),
                        self.resident_bytes as int,
                        self.capacity_bytes as int,
                    );
                    &&& d.0 == start.0
                    &&& d.1 == start.1
                    &&& d.2 == start.2
                    &&& start.3 == evicted@ + d.3
                }),
            decreases self.order@.len(),
        {
            let ghost pre_q = self.queue();
            let ghost pre_ev = evicted@;
            proof {
                self.lemma_exact();
                if self.order@.len() == 0 {
                    assert(self.queue() =~= Seq::<(u64, u64)>::empty());
                }
                lemma_exact_drop(self.queue(), self.bindings(), self.resident_bytes as int);
            }
            let v = self.evict_lru();
            evicted.push(v);
            proof {
                let d = fifo_admit_drain(
                    self.queue(),
                    self.bindings(),
                    self.resident_bytes as int,
                    self.capacity_bytes as int,
                );
                assert(pre_ev + (seq![pre_q[0].0] + d.3) =~= evicted@ + d.3);
            }
        }
        proof {
            self.lemma_exact();
            self.lemma_len();
            assert(evicted@ + Seq::<u64>::empty() =~= evicted@);
        }
        evicted
    }

    fn remove(&mut self, key: u64)
        ensures
            old(self).bindings().contains_key(key) ==> {
                &&& final(self).queue() == old(self).queue().remove(
                    qkeys(old(self).queue()).index_of(key),
                )
                &&& final(self).resident_bytes() == old(self).resident_bytes() - old(
                    self,
                ).bindings()[key]
            },
            !old(self).bindings().contains_key(key) ==> final(self).queue() == old(self).queue()
                && final(self).resident_bytes() == old(self).resident_bytes(),
            final(self).bindings() == old(self).bindings().remove(key),
            final(self).capacity_bytes() == old(self).capacity_bytes(),
    {
        let ghost o = self.order@;
        let ghost q = self.queue();
        let ghost m = self.key_to_node@;
        proof {
            self.lemma_exact();
        }
        let ghost j = qkeys(q).index_of(key);
        proof {
            if m.contains_key(key) {
                self.lemma_index(key);
                lemma_qsum_remove(q, j);
                lemma_qsum_nonneg(q.remove(j));
            }
        }
        if let Some(idx) = fx_map_remove(&mut self.key_to_node, key) {
            self.resident_bytes = self.resident_bytes - self.sizes[idx];
            self.unlink(idx, Ghost(j));
            self.free.push(idx);
            proof {
                let o2 = self.order@;
                let m2 = self.key_to_node@;
                o.remove_ensures(j);
                assert(self.queue() =~= q.remove(j)) by {
                    assert forall|i: int| 0 <= i < o2.len() implies #[trigger] self.queue()[i] == q.remove(j)[i] by {
                        if i < j {
                            assert(o2[i] == o[i]);
                        } else {
                            assert(o2[i] == o[i + 1]);
                        }
                    }
                }
                assert(!o2.contains(idx)) by {
                    if o2.contains(idx) {
                        let i = choose|i: int| 0 <= i < o2.len() && o2[i] == idx;
                        if i < j {
                            assert(o[i] == idx);
                        } else {
                            assert(o[i + 1] == idx);
                        }
                    }
                }
                assert forall|x: usize| #[trigger] o2.contains(x) implies o.contains(x) by {
                    let i = choose|i: int| 0 <= i < o2.len() && o2[i] == x;
                    if i < j {
                        assert(o[i] == x);
                    } else {
                        assert(o[i + 1] == x);
                    }
                }
                assert forall|i: int| 0 <= i < self.free@.len() implies #[trigger] self.free@[i] < self.keys@.len()
                    && !o2.contains(self.free@[i]) by {
                    if i < old(self).free@.len() {
                        assert(self.free@[i] == old(self).free@[i]);
                        assert(!o.contains(self.free@[i]));
                    }
                }
                assert forall|i: int| #![trigger o2[i]] 0 <= i < o2.len() implies m2.contains_key(self.keys@[o2[i] as int])
                    && m2[self.keys@[o2[i] as int]] == o2[i] && self.sizes@[o2[i] as int] <= self.capacity_bytes by {
                    let i1 = if i < j { i } else { i + 1 };
                    assert(o2[i] == o[i1]);
                    assert(o[i1] == o[i1]);
                    assert(o[i1] != o[j]);
                }
                assert forall|k: u64| #[trigger] m2.contains_key(k) implies o2.contains(m2[k]) && self.keys@[m2[k] as int]
                    == k by {
                    let i = choose|i: int| 0 <= i < o.len() && o[i] == m[k];
                    assert(i != j);
                    if i < j {
                        assert(o2[i] == m[k]);
                    } else {
                        assert(o2[i - 1] == m[k]);
                    }
                }
                assert(self.bindings() =~= old(self).bindings().remove(key));
            }
        } else {
            proof {
                assert(self.key_to_node@ =~= m);
                assert(old(self).bindings().remove(key) =~= old(self).bindings());
            }
        }
    }
}

} // verus!
