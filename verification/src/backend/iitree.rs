//! `bio`'s `ArrayBackedIntervalTree`: an implicit interval tree in an array
//! ordered by start, which must be indexed after the last insertion and
//! before the first search.
use crate::interval::Interval;
use bio::data_structures::interval_tree::ArrayBackedIntervalTree;
use vstd::multiset::Multiset;
use vstd::prelude::*;

verus! {

/// Makes `ArrayBackedIntervalTree` known to Verus as a type whose inside it
/// does not look at.
#[verifier::external_type_specification]
#[verifier::external_body]
#[verifier::reject_recursive_types(N)]
#[verifier::reject_recursive_types(D)]
pub struct ExArrayBackedIntervalTree<N: Ord + Clone + Copy, D>(ArrayBackedIntervalTree<N, D>);

/// The intervals that the tree holds, each as often as it was inserted.
pub uninterp spec fn iitree_items(tree: ArrayBackedIntervalTree<u32, ()>) -> Multiset<Interval>;

/// Whether the tree has been indexed since its last insertion, so that it
/// may be searched.
pub uninterp spec fn iitree_indexed(tree: ArrayBackedIntervalTree<u32, ()>) -> bool;

/// `ArrayBackedIntervalTree::new`: an empty tree.
#[verifier::external_body]
pub(crate) fn iitree_new() -> (tree: ArrayBackedIntervalTree<u32, ()>)
    ensures
        iitree_items(tree) == Multiset::<Interval>::empty(),
{
    ArrayBackedIntervalTree::new()
}

/// `ArrayBackedIntervalTree::insert`: appends the interval to the entries of
/// the tree. It panics on a range whose end lies before its start. Nothing is
/// said here of whether the tree counts as indexed afterwards: it does not.
#[verifier::external_body]
pub(crate) fn iitree_insert(tree: &mut ArrayBackedIntervalTree<u32, ()>, iv: Interval)
    requires
        iv.start <= iv.end,
    ensures
        iitree_items(*final(tree)) == iitree_items(*old(tree)).insert(iv),
{
    tree.insert(iv.start..iv.end, ())
}

/// `ArrayBackedIntervalTree::index`: orders the entries and fills in the
/// subtree maxima. It keeps every entry and marks the tree as indexed.
#[verifier::external_body]
pub(crate) fn iitree_index(tree: &mut ArrayBackedIntervalTree<u32, ()>)
    ensures
        iitree_items(*final(tree)) == iitree_items(*old(tree)),
        iitree_indexed(*final(tree)),
{
    tree.index()
}

/// `ArrayBackedIntervalTree::find`: returns the held intervals that begin
/// before `end` and end after `start`, each as often as it is held, and no
/// others. It panics on a tree that is not indexed and on a range whose end
/// lies before its start.
#[verifier::external_body]
pub(crate) fn iitree_find(tree: &ArrayBackedIntervalTree<u32, ()>, start: u32, end: u32) -> (found:
    Vec<Interval>)
    requires
        iitree_indexed(*tree),
        start <= end,
    ensures
        found@.to_multiset() == iitree_items(*tree).filter(|iv: Interval| iv.overlaps(start, end)),
{
    tree.find(start..end).iter().map(
        |entry| Interval { start: entry.interval().start, end: entry.interval().end },
    ).collect()
}

} // verus!
