//! `coitrees`' `BasicCOITree`: a static interval tree over end-inclusive `i32`
//! intervals, laid out for cache locality.
use coitrees::{BasicCOITree, IntervalNode, IntervalTree};
use vstd::multiset::Multiset;
use vstd::prelude::*;

verus! {

/// An end-inclusive interval `[first, last]`, as `coitrees` stores it.
#[derive(Clone, Copy, Debug, PartialEq, Eq, Structural)]
pub struct ClosedSpan {
    pub first: i32,
    pub last: i32,
}

/// A `BasicCOITree` that carries no payload and numbers its nodes in `usize`.
///
/// `BasicCOITree` bounds its index type by a trait of `coitrees`, which Verus
/// does not know, so the type cannot be declared to Verus as it is. It is kept
/// in this struct, whose inside Verus does not look at.
#[verifier::external_body]
pub struct CoiTreeStore {
    inner: BasicCOITree<(), usize>,
}

/// The intervals that the tree holds, each as often as it was given.
pub uninterp spec fn coitree_items(store: CoiTreeStore) -> Multiset<ClosedSpan>;

/// `BasicCOITree::new`: builds the tree over every interval it is given,
/// duplicates included. While it lays the tree out it computes
/// `last - first + 1` in `i32` over the span of each subtree, so the bounds must
/// stay below `i32::MAX` and must not be negative.
#[verifier::external_body]
pub(crate) fn coitree_new(spans: &Vec<ClosedSpan>) -> (store: CoiTreeStore)
    requires
        forall|i: int| 0 <= i < spans.len() ==> 0 <= (#[trigger] spans[i]).first <= spans[i].last
            < i32::MAX,
    ensures
        coitree_items(store) == spans@.to_multiset(),
{
    let nodes: Vec<IntervalNode<(), usize>> = spans.iter().map(
        |span| IntervalNode::new(span.first, span.last, ()),
    ).collect();
    CoiTreeStore { inner: BasicCOITree::new(&nodes) }
}

/// Notes one more span at the end of `found`.
fn note_span(found: &mut Vec<ClosedSpan>, first: i32, last: i32)
    ensures
        final(found)@ == old(found)@.push((ClosedSpan { first, last })),
{
    found.push(ClosedSpan { first, last });
}

/// `BasicCOITree::query`: visits the held intervals that begin at `last` or
/// before and end at `first` or after, each as often as it is held, and no
/// others. The answer lists the spans in the order of the visits.
#[verifier::external_body]
pub(crate) fn coitree_query(store: &CoiTreeStore, first: i32, last: i32) -> (found: Vec<ClosedSpan>)
    requires
        first <= last,
    ensures
        found@.to_multiset() == coitree_items(*store).filter(
            |span: ClosedSpan| span.first <= last && span.last >= first,
        ),
{
    let mut found: Vec<ClosedSpan> = Vec::new();
    store.inner.query(first, last, |node| note_span(&mut found, node.first, node.last));
    found
}

} // verus!
