//! Ordering intervals by their start position.
//!
//! The sweep that measures coverage needs its input in non-decreasing start
//! order. An index may hand its matches out in any order, so the sweep orders
//! them itself when they are not ordered already.
use crate::interval::Interval;
use vstd::prelude::*;
use vstd::seq_lib::lemma_multiset_commutative;

verus! {

/// The starts never go down from one element to any later one.
pub open spec fn ordered_by_start(s: Seq<Interval>) -> bool {
    forall|i: int, j: int| 0 <= i <= j < s.len() ==> s[i].start <= s[j].start
}

/// A sequence whose neighbours are in order is in order as a whole.
proof fn lemma_neighbours_ordered(s: Seq<Interval>, i: int, j: int)
    requires
        0 <= i <= j < s.len(),
        forall|k: int| 0 < k < s.len() ==> s[k - 1].start <= #[trigger] s[k].start,
    ensures
        s[i].start <= s[j].start,
    decreases j - i,
{
    if i < j {
        lemma_neighbours_ordered(s, i, j - 1);
    }
}

/// Tells whether `items` is already in non-decreasing start order.
pub fn is_ordered_by_start(items: &[Interval]) -> (ok: bool)
    ensures
        ok == ordered_by_start(items@),
{
    let n = items.len();
    let mut k: usize = 1;
    while k < n
        invariant
            n == items.len(),
            1 <= k,
            forall|m: int| 0 < m < k && m < n ==> items[m - 1].start <= #[trigger] items[m].start,
        decreases n - k,
    {
        if items[k - 1].start > items[k].start {
            return false;
        }
        k += 1;
    }
    proof {
        assert forall|i: int, j: int| 0 <= i <= j < items@.len() implies items@[i].start
            <= items@[j].start by {
            lemma_neighbours_ordered(items@, i, j);
        }
    }
    true
}

/// Merges two ordered runs into one ordered run that holds the elements of both.
fn merge(left: &Vec<Interval>, right: &Vec<Interval>) -> (out: Vec<Interval>)
    requires
        ordered_by_start(left@),
        ordered_by_start(right@),
        left.len() + right.len() <= usize::MAX,
    ensures
        ordered_by_start(out@),
        out.len() == left.len() + right.len(),
        out@.to_multiset() == left@.to_multiset().add(right@.to_multiset()),
{
    let mut out: Vec<Interval> = Vec::with_capacity(left.len() + right.len());
    let mut i: usize = 0;
    let mut j: usize = 0;
    proof {
        assert(left@.take(0) + right@.take(0) =~= out@);
    }
    while i < left.len() || j < right.len()
        invariant
            i <= left.len(),
            j <= right.len(),
            left.len() + right.len() <= usize::MAX,
            ordered_by_start(left@),
            ordered_by_start(right@),
            ordered_by_start(out@),
            out.len() == i + j,
            out@.to_multiset() == (left@.take(i as int) + right@.take(j as int)).to_multiset(),
            forall|k: int| 0 <= k < out.len() && i < left.len() ==> out[k].start <= left[i as int].start,
            forall|k: int| 0 <= k < out.len() && j < right.len() ==> out[k].start <= right[j as int].start,
        decreases left.len() - i + right.len() - j,
    {
        let ghost before = out@;
        let take_left = if i < left.len() && j < right.len() {
            left[i].start <= right[j].start
        } else {
            i < left.len()
        };
        if take_left {
            let iv = left[i];
            out.push(iv);
            proof {
                let l0 = left@.take(i as int);
                let r0 = right@.take(j as int);
                assert(left@.take(i as int + 1) =~= l0.push(iv));
                lemma_multiset_commutative(l0, r0);
                lemma_multiset_commutative(l0.push(iv), r0);
                l0.to_multiset_ensures();
                before.to_multiset_ensures();
                assert forall|a: int, b: int| 0 <= a <= b < out@.len() implies out@[a].start
                    <= out@[b].start by {
                    if b < before.len() {
                        assert(out@[a] == before[a] && out@[b] == before[b]);
                    }
                }
            }
            i += 1;
        } else {
            let iv = right[j];
            out.push(iv);
            proof {
                let l0 = left@.take(i as int);
                let r0 = right@.take(j as int);
                assert(right@.take(j as int + 1) =~= r0.push(iv));
                assert(l0 + r0.push(iv) =~= (l0 + r0).push(iv));
                (l0 + r0).to_multiset_ensures();
                before.to_multiset_ensures();
                assert forall|a: int, b: int| 0 <= a <= b < out@.len() implies out@[a].start
                    <= out@[b].start by {
                    if b < before.len() {
                        assert(out@[a] == before[a] && out@[b] == before[b]);
                    }
                }
            }
            j += 1;
        }
    }
    proof {
        assert(left@.take(left.len() as int) =~= left@);
        assert(right@.take(right.len() as int) =~= right@);
        lemma_multiset_commutative(left@, right@);
    }
    out
}

/// An ordered copy of `items[lo..hi]`, by merge sort.
fn sort_range(items: &[Interval], lo: usize, hi: usize) -> (out: Vec<Interval>)
    requires
        lo <= hi <= items.len(),
    ensures
        ordered_by_start(out@),
        out.len() == hi - lo,
        out@.to_multiset() == items@.subrange(lo as int, hi as int).to_multiset(),
    decreases hi - lo,
{
    if hi - lo <= 1 {
        let mut out: Vec<Interval> = Vec::new();
        if lo < hi {
            out.push(items[lo]);
        }
        proof {
            assert(out@ =~= items@.subrange(lo as int, hi as int));
        }
        out
    } else {
        let mid = lo + (hi - lo) / 2;
        let left = sort_range(items, lo, mid);
        let right = sort_range(items, mid, hi);
        let out = merge(&left, &right);
        proof {
            let a = items@.subrange(lo as int, mid as int);
            let b = items@.subrange(mid as int, hi as int);
            assert(a + b =~= items@.subrange(lo as int, hi as int));
            lemma_multiset_commutative(a, b);
        }
        out
    }
}

/// A copy of `items` in non-decreasing start order.
///
/// The copy holds exactly the elements of `items`, each as often as `items`
/// does. Elements with equal starts may come out in any order.
pub fn sort_by_start(items: &[Interval]) -> (out: Vec<Interval>)
    ensures
        ordered_by_start(out@),
        out@.to_multiset() == items@.to_multiset(),
{
    let out = sort_range(items, 0, items.len());
    proof {
        assert(items@.subrange(0, items.len() as int) =~= items@);
    }
    out
}

} // verus!
