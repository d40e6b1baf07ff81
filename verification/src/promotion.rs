//! Promotion policies: whether a key read from flash moves up to DRAM.
use vstd::prelude::*;
use rustc_hash::FxHashMap;
use crate::fxmap::{fx_map_new, fx_map_get, fx_map_insert, fx_map_remove};
use crate::text::{decimal, prefixed_decimal};

verus! {

pub trait PromotionPolicy: Sized {
    /// The abstract state of the policy: what decides its answers.
    type Model;

    spec fn model(&self) -> Self::Model;

    /// The state after `should_promote(key, t)`, and its answer.
    spec fn model_promote(m: Self::Model, key: u64, t: u64) -> (Self::Model, bool);

    spec fn wf(&self) -> bool;

    /// The times the policy recorded are at most `t`.
    spec fn clock_ok(&self, t: u64) -> bool;

    /// Every call answers yes.
    spec fn promotes_all(&self) -> bool;

    /// Every call answers no.
    spec fn promotes_none(&self) -> bool;

    spec fn label_text(&self) -> Seq<char>;

    /// A call for `key` at time `t` comes in order: not before the times
    /// the policy recorded for that key.
    spec fn promote_ok(&self, key: u64, t: u64) -> bool;

    proof fn lemma_clock(&self, t1: u64, t2: u64)
        requires
            self.wf(),
            self.clock_ok(t1),
            t1 <= t2,
        ensures
            self.clock_ok(t2),
    ;

    proof fn lemma_promote_ok(&self, key: u64, t: u64)
        requires
            self.wf(),
            self.clock_ok(t),
        ensures
            self.promote_ok(key, t),
    ;

    /// Called on a flash hit at time `t`: true if `key` should move to DRAM.
    fn should_promote(&mut self, key: u64, t: u64) -> (r: bool)
        requires
            old(self).wf(),
            old(self).promote_ok(key, t),
        ensures
            final(self).wf(),
            old(self).clock_ok(t) ==> final(self).clock_ok(t),
            (final(self).model(), r) == Self::model_promote(old(self).model(), key, t),
            old(self).promotes_all() ==> r && final(self).promotes_all(),
            old(self).promotes_none() ==> !r && final(self).promotes_none(),
            final(self).label_text() == old(self).label_text(),
    ;

    fn label(&self) -> (s: String)
        ensures
            s@ == self.label_text(),
    ;
}

/// Always promote on a flash hit.
pub struct AlwaysPromote;

impl PromotionPolicy for AlwaysPromote {
    type Model = ();

    open spec fn model(&self) -> () {
        ()
    }

    open spec fn model_promote(m: (), key: u64, t: u64) -> ((), bool) {
        ((), true)
    }

    open spec fn promote_ok(&self, key: u64, t: u64) -> bool {
        true
    }

    proof fn lemma_promote_ok(&self, key: u64, t: u64) {
    }

    open spec fn wf(&self) -> bool {
        true
    }

    open spec fn clock_ok(&self, t: u64) -> bool {
        true
    }

    open spec fn promotes_all(&self) -> bool {
        true
    }

    open spec fn promotes_none(&self) -> bool {
        false
    }

    open spec fn label_text(&self) -> Seq<char> {
        "always"@
    }

    proof fn lemma_clock(&self, t1: u64, t2: u64) {
    }

    fn should_promote(&mut self, key: u64, t: u64) -> (r: bool)
        ensures
            r,
    {
        true
    }

    fn label(&self) -> (s: String) {
        "always".to_string()
    }
}

/// Never promote: flash hits are served from flash.
pub struct NeverPromote;

impl PromotionPolicy for NeverPromote {
    type Model = ();

    open spec fn model(&self) -> () {
        ()
    }

    open spec fn model_promote(m: (), key: u64, t: u64) -> ((), bool) {
        ((), false)
    }

    open spec fn promote_ok(&self, key: u64, t: u64) -> bool {
        true
    }

    proof fn lemma_promote_ok(&self, key: u64, t: u64) {
    }

    open spec fn wf(&self) -> bool {
        true
    }

    open spec fn clock_ok(&self, t: u64) -> bool {
        true
    }

    open spec fn promotes_all(&self) -> bool {
        false
    }

    open spec fn promotes_none(&self) -> bool {
        true
    }

    open spec fn label_text(&self) -> Seq<char> {
        "never"@
    }

    proof fn lemma_clock(&self, t1: u64, t2: u64) {
    }

    fn should_promote(&mut self, key: u64, t: u64) -> (r: bool)
        ensures
            !r,
    {
        false
    }

    fn label(&self) -> (s: String) {
        "never".to_string()
    }
}

/// Promote on the second flash hit of a key while it is among the last
/// `window` first hits. The window is a ring buffer of slots for first-hit
/// keys, with a map from each recorded key to its slot. A promoting hit
/// removes the key (its slot stays empty until the ring comes round to it),
/// so the next flash hit of that key is a first hit again.
pub struct SecondHit {
    window: usize,
    history: Vec<Option<u64>>,
    pos: usize,
    slots: FxHashMap<u64, usize>,
}

/// No key is in two slots.
pub open spec fn slots_distinct(h: Seq<Option<u64>>) -> bool {
    forall|i: int, j: int| 0 <= i < h.len() && 0 <= j < h.len() && h[i] is Some && h[i] == h[j] ==> i == j
}

impl SecondHit {
    /// The window size.
    pub closed spec fn window(&self) -> usize {
        self.window
    }

    /// The slots of the ring, in ring-buffer order: a recorded first-hit
    /// key, or none where a promoted key was removed.
    pub closed spec fn history(&self) -> Seq<Option<u64>> {
        self.history@
    }

    /// The slot the next key overwrites once the ring is full.
    pub closed spec fn pos(&self) -> usize {
        self.pos
    }

    /// The slot of each recorded key.
    pub closed spec fn slot_map(&self) -> Map<u64, usize> {
        self.slots@
    }

    /// The ring never holds more slots than the window, nor a key twice,
    /// and its next slot lies inside the window.
    pub proof fn lemma_ring(&self)
        requires
            self.wf(),
        ensures
            self.history().len() <= self.window(),
            self.window() > 0 ==> self.pos() < self.window(),
            slots_distinct(self.history()),
    {
    }

    /// At most `window` keys are tracked: the slot map holds exactly the keys
    /// in the ring, each at its slot, and so at most `window` of them.
    pub proof fn lemma_slots(&self)
        requires
            self.wf(),
        ensures
            forall|k: u64| #[trigger]
                self.slot_map().contains_key(k) ==> self.slot_map()[k] < self.history().len()
                    && self.history()[self.slot_map()[k] as int] == Some(k),
            forall|k: u64| #[trigger] self.slot_map().contains_key(k) <==> self.history().contains(Some(k)),
            self.slot_map().dom().finite(),
            self.slot_map().dom().len() <= self.window(),
    {
        let h = self.history@;
        let m = self.slots@;
        assert forall|k: u64| #[trigger] m.contains_key(k) <==> h.contains(Some(k)) by {
            if m.contains_key(k) {
                assert(h[m[k] as int] == Some(k));
            }
            if h.contains(Some(k)) {
                let i = choose|i: int| 0 <= i < h.len() && h[i] == Some(k);
                assert(h[i] is Some);
            }
        }
        let x = Set::new(|i: int| 0 <= i < h.len() && h[i] is Some);
        let f = |i: int| h[i]->0;
        vstd::set_lib::lemma_int_range(0, h.len() as int);
        assert(x.subset_of(vstd::set_lib::set_int_range(0, h.len() as int)));
        vstd::set_lib::lemma_len_subset(x, vstd::set_lib::set_int_range(0, h.len() as int));
        assert(x.map(f) =~= m.dom()) by {
            assert forall|k: u64| #[trigger] m.dom().contains(k) implies x.map(f).contains(k) by {
                let i = m[k] as int;
                assert(x.contains(i));
                assert(f(i) == k);
            }
            assert forall|k: u64| #[trigger] x.map(f).contains(k) implies m.dom().contains(k) by {
                let i = choose|i: int| x.contains(i) && f(i) == k;
                assert(h[i] is Some);
            }
        }
        vstd::set_lib::lemma_map_size_bound(x, m.dom(), f);
    }

    /// A window of `window` first hits. A window of 0 can be built, but it
    /// has no slot to record a first hit in: `should_promote` needs a
    /// positive window.
    pub fn new(window: usize) -> (r: Self)
        ensures
            r.model() == (window, Seq::<Option<u64>>::empty(), 0usize),
            r.wf(),
            r.window() == window,
            r.history() == Seq::<Option<u64>>::empty(),
            r.pos() == 0,
    {
        SecondHit { window, history: Vec::with_capacity(window), pos: 0, slots: fx_map_new() }
    }
}

impl PromotionPolicy for SecondHit {
    type Model = (usize, Seq<Option<u64>>, usize);

    /// Window, slots, next slot.
    open spec fn model(&self) -> Self::Model {
        (self.window(), self.history(), self.pos())
    }

    open spec fn model_promote(m: Self::Model, key: u64, t: u64) -> (Self::Model, bool) {
        if m.1.contains(Some(key)) {
            ((m.0, m.1.update(m.1.index_of(Some(key)), None), m.2), true)
        } else if m.1.len() < m.0 {
            ((m.0, m.1.push(Some(key)), m.2), false)
        } else {
            ((m.0, m.1.update(m.2 as int, Some(key)), ((m.2 + 1) % (m.0 as int)) as usize), false)
        }
    }

    /// The window has a slot.
    open spec fn promote_ok(&self, key: u64, t: u64) -> bool {
        self.window() > 0
    }

    proof fn lemma_promote_ok(&self, key: u64, t: u64) {
    }

    closed spec fn wf(&self) -> bool {
        let h = self.history@;
        let m = self.slots@;
        &&& h.len() <= self.window
        &&& self.window > 0 ==> self.pos < self.window
        &&& self.window == 0 ==> h.len() == 0
        &&& slots_distinct(h)
        &&& forall|k: u64| #[trigger] m.contains_key(k) ==> m[k] < h.len() && h[m[k] as int] == Some(k)
        &&& forall|i: int| 0 <= i < h.len() && #[trigger] h[i] is Some ==> m.contains_key(h[i]->0) && m[h[i]->0] == i
    }

    /// The window has a slot (time plays no part).
    open spec fn clock_ok(&self, t: u64) -> bool {
        self.window() > 0
    }

    open spec fn promotes_all(&self) -> bool {
        false
    }

    open spec fn promotes_none(&self) -> bool {
        false
    }

    open spec fn label_text(&self) -> Seq<char> {
        "second-hit-"@ + decimal(self.window() as nat)
    }

    proof fn lemma_clock(&self, t1: u64, t2: u64) {
    }

    fn should_promote(&mut self, key: u64, t: u64) -> (r: bool) {
        let ghost h = self.history@;
        if let Some(i) = fx_map_get(&self.slots, key) {
            self.history.set(i, None);
            fx_map_remove(&mut self.slots, key);
            proof {
                assert(h[i as int] == Some(key));
                assert(h.contains(Some(key)));
                assert(h.index_of(Some(key)) == i as int);
                let h2 = self.history@;
                assert forall|j: int| 0 <= j < h2.len() && #[trigger] h2[j] is Some implies self.slots@.contains_key(h2[j]->0)
                    && self.slots@[h2[j]->0] == j by {
                    assert(j != i);
                    assert(h2[j] == h[j]);
                }
            }
            return true;
        }
        proof {
            assert(!h.contains(Some(key))) by {
                if h.contains(Some(key)) {
                    let j = choose|j: int| 0 <= j < h.len() && h[j] == Some(key);
                    assert(h[j] is Some);
                }
            }
        }
        if self.history.len() < self.window {
            let n = self.history.len();
            fx_map_insert(&mut self.slots, key, n);
            self.history.push(Some(key));
            proof {
                let h2 = self.history@;
                assert forall|a: int, b: int| 0 <= a < h2.len() && 0 <= b < h2.len() && h2[a] is Some && h2[a]
                    == h2[b] implies a == b by {
                    if a < h.len() && b == h.len() {
                        assert(h.contains(Some(key))) by { assert(h[a] == Some(key)); }
                    }
                    if b < h.len() && a == h.len() {
                        assert(h.contains(Some(key))) by { assert(h[b] == Some(key)); }
                    }
                    if a < h.len() && b < h.len() {
                        assert(h[a] == h2[a] && h[b] == h2[b]);
                    }
                }
                assert forall|j: int| 0 <= j < h2.len() && #[trigger] h2[j] is Some implies self.slots@.contains_key(h2[j]->0)
                    && self.slots@[h2[j]->0] == j by {
                    if j < h.len() {
                        assert(h2[j] == h[j]);
                        assert(h[j]->0 != key) by {
                            if h[j]->0 == key { assert(h[j] == Some(key)); }
                        }
                    }
                }
            }
        } else {
            let p = self.pos;
            let old_slot = self.history[p];
            if let Some(ok) = old_slot {
                fx_map_remove(&mut self.slots, ok);
            }
            self.history.set(p, Some(key));
            fx_map_insert(&mut self.slots, key, p);
            self.pos = (self.pos + 1) % self.window;
            proof {
                let h2 = self.history@;
                assert forall|a: int, b: int| 0 <= a < h2.len() && 0 <= b < h2.len() && h2[a] is Some && h2[a]
                    == h2[b] implies a == b by {
                    if a != p && b != p {
                        assert(h2[a] == h[a] && h2[b] == h[b]);
                    } else if a == p && b != p {
                        assert(h2[b] == h[b]);
                        assert(h.contains(Some(key))) by { assert(h[b] == Some(key)); }
                    } else if b == p && a != p {
                        assert(h2[a] == h[a]);
                        assert(h.contains(Some(key))) by { assert(h[a] == Some(key)); }
                    }
                }
                assert forall|k: u64| #[trigger] self.slots@.contains_key(k) implies self.slots@[k] < h2.len()
                    && h2[self.slots@[k] as int] == Some(k) by {
                    if k != key {
                        assert(old(self).slots@.contains_key(k));
                        assert(old(self).slots@[k] != p) by {
                            if old(self).slots@[k] == p {
                                assert(h[p as int] == Some(k));
                            }
                        }
                    }
                }
                assert forall|j: int| 0 <= j < h2.len() && #[trigger] h2[j] is Some implies self.slots@.contains_key(h2[j]->0)
                    && self.slots@[h2[j]->0] == j by {
                    if j != p {
                        assert(h2[j] == h[j]);
                        assert(h[j]->0 != key) by {
                            if h[j]->0 == key { assert(h[j] == Some(key)); }
                        }
                        if old_slot is Some {
                            assert(h[j]->0 != old_slot->0) by {
                                if h[j]->0 == old_slot->0 { assert(h[j] == h[p as int]); }
                            }
                        }
                    }
                }
            }
        }
        false
    }

    fn label(&self) -> (s: String) {
        prefixed_decimal("second-hit-", self.window as u64)
    }
}

/// Promote when a key is read from flash again within `threshold` time
/// units of its previous flash read. Keeps the last flash-read time per key.
pub struct RecentReuse {
    threshold: u64,
    last_access: FxHashMap<u64, u64>,
}

impl RecentReuse {
    pub closed spec fn threshold(&self) -> u64 {
        self.threshold
    }

    /// The last flash-read time of each key seen.
    pub closed spec fn last_reads(&self) -> Map<u64, u64> {
        self.last_access@
    }

    pub fn new(threshold: u64) -> (r: Self)
        ensures
            r.model() == (threshold, Map::<u64, u64>::empty()),
            r.wf(),
            r.threshold() == threshold,
            r.last_reads().dom() == Set::<u64>::empty(),
            r.clock_ok(0),
    {
        RecentReuse { threshold, last_access: fx_map_new() }
    }
}

impl PromotionPolicy for RecentReuse {
    type Model = (u64, Map<u64, u64>);

    /// Threshold, last flash-read time of each key.
    open spec fn model(&self) -> Self::Model {
        (self.threshold(), self.last_reads())
    }

    open spec fn model_promote(m: Self::Model, key: u64, t: u64) -> (Self::Model, bool) {
        ((m.0, m.1.insert(key, t)), m.1.contains_key(key) && t - m.1[key] <= m.0)
    }

    open spec fn promote_ok(&self, key: u64, t: u64) -> bool {
        self.last_reads().contains_key(key) ==> self.last_reads()[key] <= t
    }

    proof fn lemma_promote_ok(&self, key: u64, t: u64) {
    }

    closed spec fn wf(&self) -> bool {
        true
    }

    closed spec fn clock_ok(&self, t: u64) -> bool {
        forall|k: u64| #[trigger] self.last_access@.contains_key(k) ==> self.last_access@[k] <= t
    }

    open spec fn promotes_all(&self) -> bool {
        false
    }

    open spec fn promotes_none(&self) -> bool {
        false
    }

    open spec fn label_text(&self) -> Seq<char> {
        "reuse-within-"@ + decimal(self.threshold() as nat)
    }

    proof fn lemma_clock(&self, t1: u64, t2: u64) {
    }

    fn should_promote(&mut self, key: u64, t: u64) -> (r: bool)
        ensures
            r == (old(self).last_reads().contains_key(key) && t - old(self).last_reads()[key]
                <= old(self).threshold()),
            final(self).last_reads() == old(self).last_reads().insert(key, t),
            final(self).threshold() == old(self).threshold(),
    {
        if let Some(prev) = fx_map_get(&self.last_access, key) {
            let gap = t - prev;
            fx_map_insert(&mut self.last_access, key, t);
            gap <= self.threshold
        } else {
            fx_map_insert(&mut self.last_access, key, t);
            false
        }
    }

    fn label(&self) -> (s: String) {
        prefixed_decimal("reuse-within-", self.threshold)
    }
}

} // verus!
