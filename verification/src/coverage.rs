//! Reducing the intervals that overlap a query to a count and a covered length.
//!
//! The covered length of a query `[query_start, query_end)` is the number of
//! its positions that lie in at least one of the given intervals. It is
//! measured by one sweep over the intervals in start order, which keeps a
//! single merged window open and closes it whenever a gap follows.
use crate::interval::Interval;
use crate::sort::{is_ordered_by_start, ordered_by_start, sort_by_start};
use vstd::prelude::*;
use vstd::set_lib::{
    lemma_int_range,
    lemma_len_subset,
    lemma_set_disjoint_lens,
    lemma_set_empty_equivalency_len,
    lemma_set_intersect_union_lens,
    set_int_range,
};

verus! {

/// What one query interval gets: how many intervals were found for it, and
/// how many of its positions they cover together.
#[derive(Clone, Copy, Debug, PartialEq, Eq, Structural)]
pub struct CoverageResult {
    pub overlap_count: usize,
    pub covered_length: u32,
}

/// Whether at least one of `overlaps` holds position `p`.
pub open spec fn covers(overlaps: Seq<Interval>, p: int) -> bool {
    exists|i: int| 0 <= i < overlaps.len() && (#[trigger] overlaps[i]).holds(p)
}

/// The positions of the query that at least one of `overlaps` holds.
pub open spec fn covered_positions(query_start: u32, query_end: u32, overlaps: Seq<Interval>) -> Set<
    int,
> {
    Set::new(|p: int| query_start <= p < query_end && covers(overlaps, p))
}

/// The number of positions of the query that the union of `overlaps` covers.
pub open spec fn covered_length(query_start: u32, query_end: u32, overlaps: Seq<Interval>) -> nat {
    covered_positions(query_start, query_end, overlaps).len()
}

/// The part of `iv` that lies inside the query.
pub open spec fn clipped(query_start: u32, query_end: u32, iv: Interval) -> Set<int> {
    Set::new(|p: int| query_start <= p < query_end && iv.holds(p))
}

/// Where the part of `iv` inside the query begins.
pub open spec fn clipped_start(query_start: u32, iv: Interval) -> int {
    if iv.start > query_start {
        iv.start as int
    } else {
        query_start as int
    }
}

/// Where the part of `iv` inside the query ends.
pub open spec fn clipped_end(query_end: u32, iv: Interval) -> int {
    if iv.end < query_end {
        iv.end as int
    } else {
        query_end as int
    }
}

/// How many positions of the query `iv` holds.
pub open spec fn clipped_length(query_start: u32, query_end: u32, iv: Interval) -> nat {
    if clipped_start(query_start, iv) < clipped_end(query_end, iv) {
        (clipped_end(query_end, iv) - clipped_start(query_start, iv)) as nat
    } else {
        0
    }
}

/// The clipped lengths of all `overlaps`, added up.
pub open spec fn clipped_total(query_start: u32, query_end: u32, overlaps: Seq<Interval>) -> nat
    decreases overlaps.len(),
{
    if overlaps.len() == 0 {
        0
    } else {
        clipped_total(query_start, query_end, overlaps.drop_last()) + clipped_length(
            query_start,
            query_end,
            overlaps.last(),
        )
    }
}

/// No two of `overlaps` share a position of the query.
pub open spec fn clipped_apart(query_start: u32, query_end: u32, overlaps: Seq<Interval>) -> bool {
    forall|i: int, j: int|
        0 <= i < j < overlaps.len() ==> clipped(query_start, query_end, #[trigger] overlaps[i]).disjoint(
            clipped(query_start, query_end, #[trigger] overlaps[j]),
        )
}

/// Counts `overlaps` and measures how much of the query they cover together.
///
/// `overlaps` may come in any order and may hold duplicates, nested intervals
/// and intervals that reach beyond the query or miss it altogether: every
/// element counts once, and only positions inside the query are measured.
/// Input that is not in start order is ordered first.
pub fn coverage(query_start: u32, query_end: u32, overlaps: &[Interval]) -> (result:
    CoverageResult)
    ensures
        result.overlap_count == overlaps.len(),
        result.covered_length == covered_length(query_start, query_end, overlaps@),
        query_start <= query_end ==> result.covered_length <= query_end - query_start,
{
    proof {
        lemma_covered_within_query(query_start, query_end, overlaps@);
    }
    let covered = if is_ordered_by_start(overlaps) {
        sweep(query_start, query_end, overlaps)
    } else {
        let sorted = sort_by_start(overlaps);
        proof {
            lemma_coverage_ignores_order(query_start, query_end, sorted@, overlaps@);
        }
        sweep(query_start, query_end, sorted.as_slice())
    };
    CoverageResult { overlap_count: overlaps.len(), covered_length: covered }
}

/// Measures the union of `sorted` inside the query in one pass.
///
/// A window `[cov_start, cov_end)` is kept open. An interval that begins
/// after the window ends closes it: its length is added to the total and the
/// interval's own part of the query becomes the new window. Any other interval
/// touches or overlaps the window and can only push its end further out.
fn sweep(query_start: u32, query_end: u32, sorted: &[Interval]) -> (covered: u32)
    requires
        ordered_by_start(sorted@),
    ensures
        covered == covered_length(query_start, query_end, sorted@),
{
    let mut cov_start: u32 = 0;
    let mut cov_end: u32 = 0;
    let mut covered: u32 = 0;
    let ghost mut closed: Set<int> = Set::empty();
    let mut k: usize = 0;
    while k < sorted.len()
        invariant
            k <= sorted.len(),
            ordered_by_start(sorted@),
            cov_start <= cov_end,
            closed.finite(),
            closed.len() == covered,
            forall|p: int| closed.contains(p) ==> p < cov_start,
            covered_positions(query_start, query_end, sorted@.take(k as int)) =~= closed
                + set_int_range(cov_start as int, cov_end as int),
            forall|m: int|
                k <= m < sorted.len() ==> cov_start <= query_start || cov_start <= (
                #[trigger] sorted[m]).start,
        decreases sorted.len() - k,
    {
        let iv = sorted[k];
        let from = if iv.start > query_start {
            iv.start
        } else {
            query_start
        };
        let to = if iv.end < query_end {
            iv.end
        } else {
            query_end
        };
        let ghost window = set_int_range(cov_start as int, cov_end as int);
        proof {
            assert(sorted@.take(k as int + 1) =~= sorted@.take(k as int).push(iv));
            lemma_covered_push(query_start, query_end, sorted@.take(k as int), iv);
            lemma_clipped_is_range(query_start, query_end, iv);
            lemma_covered_within_query(query_start, query_end, sorted@.take(k as int));
            lemma_int_range(cov_start as int, cov_end as int);
            lemma_set_disjoint_lens(closed, window);
        }
        if from < to {
            if from > cov_end {
                covered = covered + (cov_end - cov_start);
                proof {
                    closed = closed + window;
                }
                cov_start = from;
                cov_end = to;
            } else if cov_end < to {
                cov_end = to;
            }
        }
        k += 1;
    }
    proof {
        assert(sorted@.take(k as int) =~= sorted@);
        lemma_covered_within_query(query_start, query_end, sorted@);
        lemma_int_range(cov_start as int, cov_end as int);
        lemma_set_disjoint_lens(closed, set_int_range(cov_start as int, cov_end as int));
    }
    covered + (cov_end - cov_start)
}

/// The covered positions are positions of the query, so there are finitely
/// many of them and no more than the query is long.
pub proof fn lemma_covered_within_query(query_start: u32, query_end: u32, overlaps: Seq<Interval>)
    ensures
        covered_positions(query_start, query_end, overlaps).finite(),
        query_start <= query_end ==> covered_length(query_start, query_end, overlaps) <= query_end
            - query_start,
        query_start >= query_end ==> covered_length(query_start, query_end, overlaps) == 0,
{
    let positions = covered_positions(query_start, query_end, overlaps);
    if query_start <= query_end {
        let window = set_int_range(query_start as int, query_end as int);
        lemma_int_range(query_start as int, query_end as int);
        assert(positions.subset_of(window));
        lemma_len_subset(positions, window);
    }
    if query_start >= query_end {
        assert(positions =~= Set::<int>::empty());
    }
}

/// The part of an interval inside the query is the range between its clipped
/// bounds, and is empty when they cross.
pub proof fn lemma_clipped_is_range(query_start: u32, query_end: u32, iv: Interval)
    ensures
        clipped(query_start, query_end, iv) =~= set_int_range(
            clipped_start(query_start, iv),
            clipped_end(query_end, iv),
        ),
        clipped(query_start, query_end, iv).finite(),
        clipped(query_start, query_end, iv).len() == if clipped_start(query_start, iv)
            < clipped_end(query_end, iv) {
            clipped_end(query_end, iv) - clipped_start(query_start, iv)
        } else {
            0
        },
{
    let lo = clipped_start(query_start, iv);
    let hi = clipped_end(query_end, iv);
    assert(clipped(query_start, query_end, iv) =~= set_int_range(lo, hi));
    if lo < hi {
        lemma_int_range(lo, hi);
    } else {
        assert(set_int_range(lo, hi) =~= Set::<int>::empty());
    }
}

/// One more interval adds its part inside the query to the covered positions.
pub proof fn lemma_covered_push(
    query_start: u32,
    query_end: u32,
    overlaps: Seq<Interval>,
    iv: Interval,
)
    ensures
        covered_positions(query_start, query_end, overlaps.push(iv)) =~= covered_positions(
            query_start,
            query_end,
            overlaps,
        ) + clipped(query_start, query_end, iv),
{
    let more = overlaps.push(iv);
    assert forall|p: int| covers(more, p) <==> covers(overlaps, p) || iv.holds(p) by {
        if covers(more, p) {
            let i = choose|i: int| 0 <= i < more.len() && (#[trigger] more[i]).holds(p);
            if i < overlaps.len() {
                assert(overlaps[i].holds(p));
            }
        }
        if covers(overlaps, p) {
            let i = choose|i: int| 0 <= i < overlaps.len() && (#[trigger] overlaps[i]).holds(p);
            assert(more[i].holds(p));
        }
        if iv.holds(p) {
            assert(more[overlaps.len() as int].holds(p));
        }
    }
}

/// Two sequences that hold the same intervals, each as often as the other,
/// cover the same positions of any query and are equally long.
pub proof fn lemma_coverage_ignores_order(
    query_start: u32,
    query_end: u32,
    a: Seq<Interval>,
    b: Seq<Interval>,
)
    requires
        a.to_multiset() == b.to_multiset(),
    ensures
        a.len() == b.len(),
        covered_positions(query_start, query_end, a) == covered_positions(query_start, query_end, b),
        covered_length(query_start, query_end, a) == covered_length(query_start, query_end, b),
{
    broadcast use vstd::seq_lib::group_to_multiset_ensures;

    assert(a.len() == a.to_multiset().len());
    assert(b.len() == b.to_multiset().len());
    assert forall|p: int| covers(a, p) <==> covers(b, p) by {
        if covers(a, p) {
            let i = choose|i: int| 0 <= i < a.len() && (#[trigger] a[i]).holds(p);
            assert(a.contains(a[i]));
            assert(b.to_multiset().count(a[i]) > 0);
            let j = choose|j: int| 0 <= j < b.len() && b[j] == a[i];
            assert(b[j].holds(p));
        }
        if covers(b, p) {
            let i = choose|i: int| 0 <= i < b.len() && (#[trigger] b[i]).holds(p);
            assert(b.contains(b[i]));
            assert(a.to_multiset().count(b[i]) > 0);
            let j = choose|j: int| 0 <= j < a.len() && a[j] == b[i];
            assert(a[j].holds(p));
        }
    }
    assert(covered_positions(query_start, query_end, a) =~= covered_positions(
        query_start,
        query_end,
        b,
    ));
}

/// An interval that contains the whole query covers all of it, however far
/// it reaches beyond the query on either side.
pub proof fn lemma_container_covers_query(query_start: u32, query_end: u32, iv: Interval)
    requires
        query_start < query_end,
        iv.start <= query_start,
        query_end <= iv.end,
    ensures
        seq![iv].len() == 1,
        covered_length(query_start, query_end, seq![iv]) == query_end - query_start,
{
    let window = set_int_range(query_start as int, query_end as int);
    lemma_int_range(query_start as int, query_end as int);
    assert forall|p: int| query_start <= p < query_end implies covers(seq![iv], p) by {
        assert(seq![iv][0].holds(p));
    }
    assert(covered_positions(query_start, query_end, seq![iv]) =~= window);
}

/// The covered length never exceeds the length of the query, and never
/// exceeds the clipped lengths of the overlaps added up. It equals that sum
/// exactly when no two overlaps share a position of the query.
pub proof fn lemma_union_bound(query_start: u32, query_end: u32, overlaps: Seq<Interval>)
    ensures
        query_start <= query_end ==> covered_length(query_start, query_end, overlaps) <= query_end
            - query_start,
        covered_length(query_start, query_end, overlaps) <= clipped_total(
            query_start,
            query_end,
            overlaps,
        ),
        covered_length(query_start, query_end, overlaps) == clipped_total(
            query_start,
            query_end,
            overlaps,
        ) <==> clipped_apart(query_start, query_end, overlaps),
    decreases overlaps.len(),
{
    lemma_covered_within_query(query_start, query_end, overlaps);
    if overlaps.len() == 0 {
        assert(covered_positions(query_start, query_end, overlaps) =~= Set::<int>::empty());
    } else {
        let rest = overlaps.drop_last();
        let iv = overlaps.last();
        let before = covered_positions(query_start, query_end, rest);
        let part = clipped(query_start, query_end, iv);
        assert(overlaps =~= rest.push(iv));
        lemma_union_bound(query_start, query_end, rest);
        lemma_covered_push(query_start, query_end, rest, iv);
        lemma_covered_within_query(query_start, query_end, rest);
        lemma_clipped_is_range(query_start, query_end, iv);
        lemma_set_intersect_union_lens(before, part);
        let shared = before.intersect(part);
        lemma_set_empty_equivalency_len(shared);
        assert(part.len() == clipped_length(query_start, query_end, iv));
        // The new interval shares no covered position exactly when it shares
        // none with each earlier interval.
        let alone = forall|i: int|
            0 <= i < rest.len() ==> clipped(query_start, query_end, #[trigger] rest[i]).disjoint(
                part,
            );
        if shared.len() == 0 {
            assert forall|i: int| 0 <= i < rest.len() implies clipped(
                query_start,
                query_end,
                #[trigger] rest[i],
            ).disjoint(part) by {
                assert forall|p: int|
                    !(clipped(query_start, query_end, rest[i]).contains(p) && part.contains(
                        p,
                    )) by {
                    if clipped(query_start, query_end, rest[i]).contains(p) && part.contains(p) {
                        assert(rest[i].holds(p));
                        assert(covers(rest, p));
                        assert(shared.contains(p));
                    }
                }
            }
            assert(alone);
        }
        if alone {
            assert forall|p: int| !shared.contains(p) by {
                if shared.contains(p) {
                    let i = choose|i: int| 0 <= i < rest.len() && (#[trigger] rest[i]).holds(p);
                    assert(clipped(query_start, query_end, rest[i]).contains(p));
                    assert(clipped(query_start, query_end, rest[i]).disjoint(part));
                }
            }
            assert(shared =~= Set::<int>::empty());
        }
        assert(alone <==> shared.len() == 0);
        // The overlaps are apart exactly when the earlier ones are and the
        // new one stands alone.
        if clipped_apart(query_start, query_end, overlaps) {
            assert forall|i: int, j: int| 0 <= i < j < rest.len() implies clipped(
                query_start,
                query_end,
                #[trigger] rest[i],
            ).disjoint(clipped(query_start, query_end, #[trigger] rest[j])) by {
                assert(rest[i] == overlaps[i] && rest[j] == overlaps[j]);
            }
            assert forall|i: int| 0 <= i < rest.len() implies clipped(
                query_start,
                query_end,
                #[trigger] rest[i],
            ).disjoint(part) by {
                assert(rest[i] == overlaps[i]);
                assert(overlaps[overlaps.len() - 1] == iv);
            }
        }
        if clipped_apart(query_start, query_end, rest) && alone {
            assert forall|i: int, j: int| 0 <= i < j < overlaps.len() implies clipped(
                query_start,
                query_end,
                #[trigger] overlaps[i],
            ).disjoint(clipped(query_start, query_end, #[trigger] overlaps[j])) by {
                assert(rest[i] == overlaps[i]);
                if j < rest.len() {
                    assert(rest[j] == overlaps[j]);
                }
            }
        }
    }
}

} // verus!
