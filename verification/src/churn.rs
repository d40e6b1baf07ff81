//! Per-key churn counts: how often each key was evicted (or promoted), and
//! the summaries the simulation reports: keys touched at least once, keys
//! touched more than once, and the largest count.
use vstd::prelude::*;
use rustc_hash::FxHashMap;
use crate::fxmap::{fx_map_new, fx_map_get, fx_map_insert};

verus! {

/// The keys counted at least twice.
pub open spec fn repeated_keys(m: Map<u64, u32>) -> Set<u64> {
    m.dom().filter(|k: u64| m[k] >= 2)
}

pub struct ChurnStats {
    counts: FxHashMap<u64, u32>,
    keys: u64,
    max: u64,
    gt1: u64,
    recorded: Ghost<nat>,
}

impl ChurnStats {
    /// The count of each key recorded so far.
    pub closed spec fn counts(&self) -> Map<u64, u32> {
        self.counts@
    }

    /// The number of events recorded.
    pub closed spec fn recorded(&self) -> nat {
        self.recorded@
    }

    pub closed spec fn key_count(&self) -> u64 {
        self.keys
    }

    pub closed spec fn max_count(&self) -> u64 {
        self.max
    }

    pub closed spec fn repeated_count(&self) -> u64 {
        self.gt1
    }

    pub closed spec fn wf(&self) -> bool {
        let m = self.counts@;
        &&& m.dom().finite()
        &&& forall|k: u64| #[trigger] m.contains_key(k) ==> 1 <= m[k] <= self.max
        &&& m.dom().len() == 0 ==> self.max == 0
        &&& m.dom().len() > 0 ==> exists|k: u64| #[trigger] m.contains_key(k) && m[k] == self.max
        &&& self.keys == m.dom().len()
        &&& self.gt1 == repeated_keys(m).len()
        &&& self.keys + self.gt1 <= self.recorded@
        &&& self.max <= self.recorded@
        &&& self.recorded@ > 0 ==> self.keys > 0
    }

    pub fn new() -> (r: Self)
        ensures
            r.wf(),
            r.recorded() == 0,
            r.counts().dom() == Set::<u64>::empty(),
    {
        let r = ChurnStats { counts: fx_map_new(), keys: 0, max: 0, gt1: 0, recorded: Ghost(0) };
        proof {
            assert(repeated_keys(r.counts@) =~= Set::<u64>::empty());
        }
        r
    }

    /// Counts one more event for `key`.
    pub fn record(&mut self, key: u64)
        requires
            old(self).wf(),
            old(self).recorded() < u32::MAX,
        ensures
            final(self).wf(),
            final(self).recorded() == old(self).recorded() + 1,
            final(self).counts() == old(self).counts().insert(
                key,
                (if old(self).counts().contains_key(key) { old(self).counts()[key] + 1 } else { 1 }) as u32,
            ),
    {
        let ghost m = self.counts@;
        let c: u32 = match fx_map_get(&self.counts, key) {
            Some(c) => c,
            None => 0,
        };
        proof {
            if m.contains_key(key) {
                assert(c <= self.max);
            }
        }
        let n = c + 1;
        fx_map_insert(&mut self.counts, key, n);
        let ghost m2 = self.counts@;
        proof {
            let f = |k: u64| m[k] >= 2;
            let f2 = |k: u64| m2[k] >= 2;
            m.dom().lemma_len_filter(f);
            if c == 0 {
                assert(!m.contains_key(key));
                assert(m2.dom() =~= m.dom().insert(key));
                assert(repeated_keys(m2) =~= repeated_keys(m));
            } else if c == 1 {
                assert(m2.dom() =~= m.dom());
                assert(!repeated_keys(m).contains(key));
                assert(repeated_keys(m2) =~= repeated_keys(m).insert(key));
            } else {
                assert(m2.dom() =~= m.dom());
                assert(repeated_keys(m2) =~= repeated_keys(m));
            }
        }
        if c == 0 {
            self.keys = self.keys + 1;
        }
        if n == 2 {
            self.gt1 = self.gt1 + 1;
        }
        if n as u64 > self.max {
            self.max = n as u64;
        }
        self.recorded = Ghost(self.recorded@ + 1);
        proof {
            assert(m2.contains_key(key));
            if !(m2[key] == self.max) {
                let w = choose|k: u64| #[trigger] m.contains_key(k) && m[k] == self.max;
                assert(w != key);
                assert(m2.contains_key(w) && m2[w] == self.max);
            }
        }
    }

    /// Number of keys recorded at least once.
    pub fn keys(&self) -> (r: u64)
        requires
            self.wf(),
        ensures
            r == self.counts().dom().len(),
            r == self.key_count(),
    {
        self.keys
    }

    /// The largest count of any key (0 when nothing was recorded).
    pub fn max(&self) -> (r: u64)
        requires
            self.wf(),
        ensures
            forall|k: u64| #[trigger] self.counts().contains_key(k) ==> self.counts()[k] <= r,
            self.counts().dom().len() > 0 ==> exists|k: u64|
                #[trigger] self.counts().contains_key(k) && self.counts()[k] == r,
            self.counts().dom().len() == 0 ==> r == 0,
            r == self.max_count(),
    {
        self.max
    }

    /// Number of keys recorded more than once.
    pub fn repeated(&self) -> (r: u64)
        requires
            self.wf(),
        ensures
            r == repeated_keys(self.counts()).len(),
            r == self.repeated_count(),
    {
        self.gt1
    }

    /// How the summaries relate to each other and to the number of events.
    pub proof fn lemma_summary(&self)
        requires
            self.wf(),
        ensures
            self.key_count() + self.repeated_count() <= self.recorded(),
            self.max_count() <= self.recorded(),
            self.repeated_count() <= self.key_count(),
            (self.recorded() == 0) == (self.key_count() == 0),
            (self.key_count() == 0) == (self.max_count() == 0),
            (self.repeated_count() > 0) == (self.max_count() >= 2),
    {
        let m = self.counts@;
        m.dom().lemma_len_filter(|k: u64| m[k] >= 2);
        if self.keys > 0 {
            let w = choose|k: u64| #[trigger] m.contains_key(k) && m[k] == self.max;
            if self.max >= 2 {
                assert(repeated_keys(m).contains(w));
            }
        }
        if self.gt1 > 0 {
            let w = repeated_keys(m).choose();
            assert(repeated_keys(m).contains(w));
            assert(m.contains_key(w));
        }
    }
}

} // verus!
