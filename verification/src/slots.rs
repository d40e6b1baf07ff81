//! The key table of the sampling policies: keys in slot order, and a hash
//! index from each key to its slot. Removal swaps the last key into the
//! freed slot, so slots stay dense.
use vstd::prelude::*;
use rustc_hash::FxHashMap;
use crate::fxmap::{fx_map_new, fx_map_get, fx_map_insert, fx_map_remove};
use crate::seqs::swap_remove_seq;

verus! {

pub struct SlotTable {
    keys: Vec<u64>,
    key_to_idx: FxHashMap<u64, usize>,
}

impl SlotTable {
    /// The keys in slot order.
    pub closed spec fn keys(&self) -> Seq<u64> {
        self.keys@
    }

    /// The index is the inverse of the slot order.
    pub closed spec fn wf(&self) -> bool {
        &&& forall|i: int|
            0 <= i < self.keys@.len() ==> #[trigger] self.key_to_idx@.contains_key(self.keys@[i])
                && self.key_to_idx@[self.keys@[i]] == i
        &&& forall|k: u64|
            #[trigger] self.key_to_idx@.contains_key(k) ==> self.key_to_idx@[k] < self.keys@.len()
                && self.keys@[self.key_to_idx@[k] as int] == k
    }

    pub proof fn lemma_no_duplicates(&self)
        requires
            self.wf(),
        ensures
            self.keys().no_duplicates(),
    {
        assert forall|i: int, j: int|
            0 <= i < self.keys@.len() && 0 <= j < self.keys@.len() && i != j implies self.keys@[i]
            != self.keys@[j] by {
            if self.keys@[i] == self.keys@[j] {
                assert(self.key_to_idx@.contains_key(self.keys@[i]));
                assert(self.key_to_idx@.contains_key(self.keys@[j]));
            }
        }
    }

    pub fn new() -> (r: Self)
        ensures
            r.wf(),
            r.keys() == Seq::<u64>::empty(),
    {
        SlotTable { keys: Vec::new(), key_to_idx: fx_map_new() }
    }

    pub fn len(&self) -> (r: usize)
        ensures
            r == self.keys().len(),
    {
        self.keys.len()
    }

    pub fn key_at(&self, i: usize) -> (r: u64)
        requires
            i < self.keys().len(),
        ensures
            r == self.keys()[i as int],
    {
        self.keys[i]
    }

    /// The slot of `key`, if it is in the table.
    pub fn find(&self, key: u64) -> (r: Option<usize>)
        requires
            self.wf(),
        ensures
            r is None <==> !self.keys().contains(key),
            r matches Some(i) ==> i < self.keys().len() && self.keys()[i as int] == key,
    {
        let r = fx_map_get(&self.key_to_idx, key);
        proof {
            if self.keys@.contains(key) {
                let i = choose|i: int| 0 <= i < self.keys@.len() && self.keys@[i] == key;
                assert(self.key_to_idx@.contains_key(self.keys@[i]));
            }
        }
        r
    }

    /// Appends `key` in a new last slot.
    pub fn push(&mut self, key: u64)
        requires
            old(self).wf(),
            !old(self).keys().contains(key),
        ensures
            final(self).wf(),
            final(self).keys() == old(self).keys().push(key),
    {
        let idx = self.keys.len();
        self.keys.push(key);
        fx_map_insert(&mut self.key_to_idx, key, idx);
        proof {
            assert forall|i: int|
                0 <= i < self.keys@.len() implies #[trigger] self.key_to_idx@.contains_key(
                self.keys@[i],
            ) && self.key_to_idx@[self.keys@[i]] == i by {
                if i < idx {
                    assert(old(self).keys@[i] != key) by {
                        assert(old(self).keys@.contains(old(self).keys@[i]));
                    }
                    assert(old(self).key_to_idx@.contains_key(old(self).keys@[i]));
                }
            }
        }
    }

    /// Empties slot `i` by moving the last key into it; hands back the key
    /// that was in slot `i`.
    pub fn swap_remove(&mut self, i: usize) -> (r: u64)
        requires
            old(self).wf(),
            i < old(self).keys().len(),
        ensures
            final(self).wf(),
            r == old(self).keys()[i as int],
            final(self).keys() == swap_remove_seq(old(self).keys(), i as int),
    {
        proof {
            self.lemma_no_duplicates();
        }
        let victim = self.keys[i];
        let last = self.keys.len() - 1;
        if i != last {
            let moved = self.keys[last];
            self.keys.set(i, moved);
            fx_map_insert(&mut self.key_to_idx, moved, i);
        }
        self.keys.pop();
        fx_map_remove(&mut self.key_to_idx, victim);
        proof {
            let ok = old(self).keys@;
            let nk = self.keys@;
            assert(nk =~= swap_remove_seq(ok, i as int));
            assert forall|j: int|
                0 <= j < nk.len() implies #[trigger] self.key_to_idx@.contains_key(nk[j])
                && self.key_to_idx@[nk[j]] == j by {
                if j == i {
                    assert(nk[j] == ok[last as int]);
                } else {
                    assert(nk[j] == ok[j]);
                    assert(ok[j] != ok[i as int]);
                    assert(j != last);
                    assert(ok[j] != ok[last as int]);
                    assert(old(self).key_to_idx@.contains_key(ok[j]));
                }
            }
            assert forall|k: u64| #[trigger] self.key_to_idx@.contains_key(k) implies self.key_to_idx@[k]
                < nk.len() && nk[self.key_to_idx@[k] as int] == k by {
                assert(k != victim);
                if i != last && k == ok[last as int] {
                } else {
                    assert(old(self).key_to_idx@.contains_key(k));
                    let j = old(self).key_to_idx@[k] as int;
                    assert(ok[j] == k);
                    assert(j != i);
                    assert(j != last);
                }
            }
        }
        victim
    }
}

} // verus!
