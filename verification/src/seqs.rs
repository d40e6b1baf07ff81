//! Sequence helpers shared by the policies: removal by swapping in the last
//! element, and sums of sizes.
use vstd::prelude::*;

verus! {

/// `s` with element `i` replaced by the last element, and the last dropped.
pub open spec fn swap_remove_seq<T>(s: Seq<T>, i: int) -> Seq<T> {
    s.update(i, s.last()).drop_last()
}

/// Sum of a sequence of sizes.
pub open spec fn sum_seq(s: Seq<u64>) -> int
    decreases s.len(),
{
    if s.len() == 0 {
        0
    } else {
        sum_seq(s.drop_last()) + s.last()
    }
}

pub proof fn lemma_sum_push(s: Seq<u64>, x: u64)
    ensures
        sum_seq(s.push(x)) == sum_seq(s) + x,
{
    assert(s.push(x).drop_last() =~= s);
}

pub proof fn lemma_sum_nonneg(s: Seq<u64>)
    ensures
        sum_seq(s) >= 0,
    decreases s.len(),
{
    if s.len() > 0 {
        lemma_sum_nonneg(s.drop_last());
    }
}

/// The sum of a sequence with one element changed.
pub proof fn lemma_sum_update(s: Seq<u64>, i: int, x: u64)
    requires
        0 <= i < s.len(),
    ensures
        sum_seq(s.update(i, x)) == sum_seq(s) - s[i] + x,
    decreases s.len(),
{
    if i == s.len() - 1 {
        assert(s.update(i, x).drop_last() =~= s.drop_last());
    } else {
        lemma_sum_update(s.drop_last(), i, x);
        assert(s.update(i, x).drop_last() =~= s.drop_last().update(i, x));
    }
}

/// Swap-removing element `i` takes exactly `s[i]` off the sum.
pub proof fn lemma_sum_swap_remove(s: Seq<u64>, i: int)
    requires
        0 <= i < s.len(),
    ensures
        sum_seq(swap_remove_seq(s, i)) == sum_seq(s) - s[i],
{
    lemma_sum_update(s, i, s.last());
    let u = s.update(i, s.last());
    assert(u.last() == s.last());
}

/// Every element is at most the sum.
pub proof fn lemma_sum_elem(s: Seq<u64>, i: int)
    requires
        0 <= i < s.len(),
    ensures
        s[i] <= sum_seq(s),
    decreases s.len(),
{
    lemma_sum_nonneg(s.drop_last());
    if i < s.len() - 1 {
        lemma_sum_elem(s.drop_last(), i);
    }
}

/// Swap-removal keeps a sequence free of duplicates and drops exactly the
/// removed element from its set.
pub proof fn lemma_swap_remove_set<T>(s: Seq<T>, i: int)
    requires
        s.no_duplicates(),
        0 <= i < s.len(),
    ensures
        swap_remove_seq(s, i).no_duplicates(),
        swap_remove_seq(s, i).len() == s.len() - 1,
        swap_remove_seq(s, i).to_set() == s.to_set().remove(s[i]),
        forall|j: int|
            0 <= j < s.len() - 1 ==> #[trigger] swap_remove_seq(s, i)[j] == (if j == i {
                s.last()
            } else {
                s[j]
            }),
{
    let r = swap_remove_seq(s, i);
    let n = s.len();
    assert forall|a: int, b: int| 0 <= a < r.len() && 0 <= b < r.len() && a != b implies r[a]
        != r[b] by {
        let oa = if a == i { n - 1 } else { a };
        let ob = if b == i { n - 1 } else { b };
        assert(r[a] == s[oa]);
        assert(r[b] == s[ob]);
    }
    assert forall|x: T| #[trigger] r.to_set().contains(x) <==> s.to_set().remove(s[i]).contains(x) by {
        if r.to_set().contains(x) {
            assert(r.contains(x));
            let a = choose|a: int| 0 <= a < r.len() && r[a] == x;
            let oa = if a == i { n - 1 } else { a };
            assert(s[oa] == x);
            assert(oa != i);
            assert(s.contains(x));
        }
        if s.to_set().remove(s[i]).contains(x) {
            assert(s.contains(x));
            let a = choose|a: int| 0 <= a < s.len() && s[a] == x;
            assert(a != i);
            if a == n - 1 {
                assert(r[i] == x);
            } else {
                assert(r[a] == x);
            }
            assert(r.contains(x));
        }
    }
    assert(r.to_set() =~= s.to_set().remove(s[i]));
}

/// Appending a new element keeps a sequence free of duplicates and adds it
/// to its set.
pub proof fn lemma_push_set<T>(s: Seq<T>, x: T)
    requires
        s.no_duplicates(),
        !s.contains(x),
    ensures
        s.push(x).no_duplicates(),
        s.push(x).to_set() == s.to_set().insert(x),
{
    let r = s.push(x);
    assert forall|a: int, b: int| 0 <= a < r.len() && 0 <= b < r.len() && a != b implies r[a]
        != r[b] by {
        if a == s.len() {
            assert(s.contains(r[b]));
        } else if b == s.len() {
            assert(s.contains(r[a]));
        }
    }
    assert forall|y: T| #[trigger] r.to_set().contains(y) <==> s.to_set().insert(x).contains(y) by {
        if r.to_set().contains(y) {
            let a = choose|a: int| 0 <= a < r.len() && r[a] == y;
            if a < s.len() {
                assert(s.contains(y));
            }
        }
        if s.to_set().insert(x).contains(y) {
            if y == x {
                assert(r[s.len() as int] == x);
            } else {
                let a = choose|a: int| 0 <= a < s.len() && s[a] == y;
                assert(r[a] == y);
            }
            assert(r.contains(y));
        }
    }
    assert(r.to_set() =~= s.to_set().insert(x));
}

/// Overwrites element `i` with the last element and drops the last.
pub fn vec_swap_remove<T: Copy>(v: &mut Vec<T>, i: usize)
    requires
        i < old(v).len(),
    ensures
        final(v)@ == swap_remove_seq(old(v)@, i as int),
{
    let last = v.len() - 1;
    if i != last {
        let x = v[last];
        v.set(i, x);
    }
    v.pop();
    proof {
        if i == last {
            assert(old(v)@.update(i as int, old(v)@.last()) =~= old(v)@);
        }
    }
}

} // verus!
