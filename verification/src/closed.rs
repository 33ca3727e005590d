//! Moving between half-open `u32` intervals and the end-inclusive `i32` spans
//! that the `coitrees` tree stores.
//!
//! `[start, end)` and `[start, end - 1]` hold the same positions. The tree can
//! take a span only if its bounds stay below `i32::MAX`, so only intervals that
//! end at `SPAN_LIMIT` or before have a span.
use crate::backend::coitree::ClosedSpan;
use crate::counting::{lemma_count_outside_image, lemma_count_under_map};
use crate::interval::Interval;
use vstd::prelude::*;

verus! {

/// The largest end of an interval that has a span: `i32::MAX`.
pub const SPAN_LIMIT: u32 = 2147483647;

/// A well-formed interval that ends early enough to have a span.
pub open spec fn fits(iv: Interval) -> bool {
    iv.start < iv.end <= SPAN_LIMIT
}

/// A span that the tree can take.
pub open spec fn in_bounds(span: ClosedSpan) -> bool {
    0 <= span.first <= span.last < SPAN_LIMIT
}

/// The span that holds the positions of `iv`.
pub open spec fn closed_of(iv: Interval) -> ClosedSpan {
    ClosedSpan { first: iv.start as i32, last: (iv.end - 1) as i32 }
}

/// The interval that holds the positions of `span`.
pub open spec fn open_of(span: ClosedSpan) -> Interval {
    Interval { start: span.first as u32, end: (span.last + 1) as u32 }
}

/// `closed_of` as a function value.
pub open spec fn closing() -> spec_fn(Interval) -> ClosedSpan {
    |iv: Interval| closed_of(iv)
}

/// `open_of` as a function value.
pub open spec fn opening() -> spec_fn(ClosedSpan) -> Interval {
    |span: ClosedSpan| open_of(span)
}

/// The last position that a query on the tree asks for: the last position of
/// `[query_start, query_end)`, or the last one that a span can hold if the
/// query reaches further.
pub open spec fn last_asked(query_end: u32) -> int {
    if query_end > SPAN_LIMIT {
        SPAN_LIMIT - 1
    } else {
        query_end - 1
    }
}

/// The span of an interval that has one.
pub(crate) fn to_closed(iv: Interval) -> (span: ClosedSpan)
    requires
        fits(iv),
    ensures
        span == closed_of(iv),
        in_bounds(span),
{
    ClosedSpan { first: iv.start as i32, last: (iv.end - 1) as i32 }
}

/// The interval of a span that the tree can hold.
pub(crate) fn to_open(span: ClosedSpan) -> (iv: Interval)
    requires
        in_bounds(span),
    ensures
        iv == open_of(span),
        fits(iv),
{
    Interval { start: span.first as u32, end: (span.last + 1) as u32 }
}

/// Going to the span and back changes nothing, in either direction.
pub proof fn lemma_round_trip(iv: Interval, span: ClosedSpan)
    ensures
        fits(iv) ==> in_bounds(closed_of(iv)) && open_of(closed_of(iv)) == iv,
        in_bounds(span) ==> fits(open_of(span)) && closed_of(open_of(span)) == span,
{
}

/// What the tree answers, turned back into intervals, is what the stored
/// intervals hold for the query.
///
/// `stored` are the intervals whose spans are in the tree, and `found` is the
/// tree's answer for the span `[first, last]`. Every stored interval ends at
/// `SPAN_LIMIT` or before, so cutting the query off there loses none of them.
pub proof fn lemma_tree_answer(
    stored: Seq<Interval>,
    found: Seq<ClosedSpan>,
    query_start: u32,
    query_end: u32,
    first: i32,
    last: i32,
)
    requires
        forall|i: int| 0 <= i < stored.len() ==> fits(#[trigger] stored[i]),
        query_start < query_end,
        query_start < SPAN_LIMIT,
        first == query_start,
        last == last_asked(query_end),
        found.to_multiset() == stored.map_values(closing()).to_multiset().filter(
            |span: ClosedSpan| span.first <= last && span.last >= first,
        ),
    ensures
        forall|k: int| 0 <= k < found.len() ==> in_bounds(#[trigger] found[k]),
        found.map_values(opening()).to_multiset() == stored.to_multiset().filter(
            |iv: Interval| iv.overlaps(query_start, query_end),
        ),
{
    broadcast use vstd::seq_lib::group_to_multiset_ensures;
    broadcast use vstd::multiset::group_multiset_axioms;

    let spans = stored.map_values(closing());
    let asked = |span: ClosedSpan| span.first <= last && span.last >= first;
    let wanted = |iv: Interval| iv.overlaps(query_start, query_end);
    assert forall|k: int| 0 <= k < found.len() implies in_bounds(#[trigger] found[k]) by {
        assert(found.contains(found[k]));
        assert(found.to_multiset().count(found[k]) > 0);
        assert(spans.to_multiset().count(found[k]) > 0);
        assert(spans.contains(found[k]));
        let j = choose|j: int| 0 <= j < spans.len() && spans[j] == found[k];
        assert(fits(stored[j]));
    }
    let answer = found.map_values(opening()).to_multiset();
    let expected = stored.to_multiset().filter(wanted);
    assert forall|x: Interval| answer.count(x) == expected.count(x) by {
        if fits(x) {
            let image = closed_of(x);
            assert(opening()(image) == x);
            assert forall|i: int| 0 <= i < found.len() && opening()(#[trigger] found[i]) == opening()(
                image,
            ) implies found[i] == image by {
                lemma_round_trip(x, found[i]);
            }
            lemma_count_under_map(found, opening(), image);
            assert(answer.count(x) == found.to_multiset().count(image));
            assert forall|i: int| 0 <= i < stored.len() && closing()(#[trigger] stored[i])
                == closing()(x) implies stored[i] == x by {
                lemma_round_trip(stored[i], image);
            }
            lemma_count_under_map(stored, closing(), x);
            assert(spans.to_multiset().count(image) == stored.to_multiset().count(x));
            assert(asked(image) == wanted(x));
        } else {
            assert forall|i: int| 0 <= i < found.len() implies opening()(#[trigger] found[i])
                != x by {
                lemma_round_trip(x, found[i]);
            }
            lemma_count_outside_image(found, opening(), x);
            if stored.to_multiset().count(x) > 0 {
                assert(stored.contains(x));
                let j = choose|j: int| 0 <= j < stored.len() && stored[j] == x;
                assert(fits(stored[j]));
            }
        }
    }
    assert(answer =~= expected);
}

/// A query that begins past every span meets no interval that has a span.
pub proof fn lemma_query_beyond_spans(stored: Seq<Interval>, query_start: u32, query_end: u32)
    requires
        forall|i: int| 0 <= i < stored.len() ==> fits(#[trigger] stored[i]),
        query_start >= SPAN_LIMIT,
    ensures
        stored.to_multiset().filter(|iv: Interval| iv.overlaps(query_start, query_end))
            == vstd::multiset::Multiset::<Interval>::empty(),
{
    broadcast use vstd::seq_lib::group_to_multiset_ensures;
    broadcast use vstd::multiset::group_multiset_axioms;

    let wanted = |iv: Interval| iv.overlaps(query_start, query_end);
    let chosen = stored.to_multiset().filter(wanted);
    assert forall|x: Interval| chosen.count(x) == 0 by {
        if stored.to_multiset().count(x) > 0 {
            assert(stored.contains(x));
            let j = choose|j: int| 0 <= j < stored.len() && stored[j] == x;
            assert(fits(stored[j]));
        }
    }
    assert(chosen =~= vstd::multiset::Multiset::<Interval>::empty());
}

} // verus!
