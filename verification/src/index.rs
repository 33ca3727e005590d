//! An index over the intervals of one key: built once, then only asked.
//!
//! The index keeps every interval it is built from, duplicates and nested
//! intervals included, and answers which of them overlap a query. The
//! collection that does the searching is chosen when the index is built.
use crate::backend::coitree::{coitree_items, coitree_new, coitree_query, ClosedSpan, CoiTreeStore};
use crate::backend::iitree::{
    iitree_find,
    iitree_index,
    iitree_indexed,
    iitree_insert,
    iitree_items,
    iitree_new,
};
use crate::backend::lapper::{lapper_find, lapper_items, lapper_new, LapperStore};
use crate::closed::{
    closing,
    fits,
    in_bounds,
    lemma_query_beyond_spans,
    lemma_tree_answer,
    opening,
    to_closed,
    to_open,
    SPAN_LIMIT,
};
use crate::counting::{
    lemma_empty_holds_nothing,
    lemma_filter_add,
    lemma_filter_empty,
    lemma_filter_insert,
    lemma_push_counts,
};
use crate::error::IndexError;
use crate::interval::Interval;
use bio::data_structures::interval_tree::ArrayBackedIntervalTree;
use vstd::multiset::Multiset;
use vstd::prelude::*;

verus! {

/// The collection that an index searches with.
#[derive(Clone, Copy, Debug, PartialEq, Eq, Structural)]
pub enum Backend {
    /// A vector in start order, searched by binary search (`rust_lapper`).
    Lapper,
    /// A static interval tree in a cache-friendly layout (`coitrees`). The
    /// tree holds positions below `i32::MAX` only: intervals that end beyond
    /// are kept beside it and looked through one by one.
    CoiTree,
    /// An implicit interval tree in an array in start order (`bio`).
    IITree,
}

/// Every interval of `s` holds at least one position.
pub open spec fn all_valid(s: Seq<Interval>) -> bool {
    forall|i: int| 0 <= i < s.len() ==> (#[trigger] s[i]).valid()
}

/// `s[k]` is the first interval of `s` that holds no position.
pub open spec fn first_invalid_at(s: Seq<Interval>, k: int) -> bool {
    &&& 0 <= k < s.len()
    &&& !s[k].valid()
    &&& forall|j: int| 0 <= j < k ==> (#[trigger] s[j]).valid()
}

/// The test by which an index picks its answer to a query.
pub open spec fn overlapping_query(query_start: u32, query_end: u32) -> spec_fn(Interval) -> bool {
    |iv: Interval| iv.overlaps(query_start, query_end)
}

/// Where the first interval that holds no position stands, if there is one.
pub fn find_invalid(intervals: &[Interval]) -> (at: Option<usize>)
    ensures
        match at {
            Some(k) => first_invalid_at(intervals@, k as int),
            None => all_valid(intervals@),
        },
{
    let mut k: usize = 0;
    while k < intervals.len()
        invariant
            k <= intervals.len(),
            forall|j: int| 0 <= j < k ==> (#[trigger] intervals[j]).valid(),
        decreases intervals.len() - k,
    {
        if !intervals[k].is_valid() {
            return Some(k);
        }
        k += 1;
    }
    None
}

enum Store {
    Lapper(LapperStore),
    /// The tree holds the intervals that end at `SPAN_LIMIT` or before, as
    /// spans. The few that end later cannot go into it and wait in `rest`.
    /// `in_tree` lists the intervals whose spans the tree holds.
    CoiTree { tree: CoiTreeStore, rest: Vec<Interval>, in_tree: Ghost<Seq<Interval>> },
    IITree(ArrayBackedIntervalTree<u32, ()>),
}

/// The intervals of one key, ready to be asked for overlaps.
pub struct IntervalIndex {
    store: Store,
}

impl View for IntervalIndex {
    type V = Multiset<Interval>;

    /// The intervals that the index holds, each as often as it was given.
    closed spec fn view(&self) -> Multiset<Interval> {
        match self.store {
            Store::Lapper(lapper) => lapper_items(lapper),
            Store::CoiTree { tree, rest, in_tree } => in_tree@.to_multiset().add(
                rest@.to_multiset(),
            ),
            Store::IITree(tree) => iitree_items(tree),
        }
    }
}

impl IntervalIndex {
    #[verifier::type_invariant]
    spec fn consistent(self) -> bool {
        match self.store {
            Store::Lapper(lapper) => true,
            Store::CoiTree { tree, rest, in_tree } => {
                &&& coitree_items(tree) == in_tree@.map_values(closing()).to_multiset()
                &&& forall|i: int| 0 <= i < in_tree@.len() ==> fits(#[trigger] in_tree@[i])
            },
            Store::IITree(tree) => iitree_indexed(tree),
        }
    }

    /// The collection that this index searches with.
    pub closed spec fn backend_of(&self) -> Backend {
        match self.store {
            Store::Lapper(_) => Backend::Lapper,
            Store::CoiTree { .. } => Backend::CoiTree,
            Store::IITree(_) => Backend::IITree,
        }
    }

    /// Builds an index over `intervals` that searches with `backend`.
    ///
    /// The input may be empty and in any order. It is refused as a whole if one
    /// of its intervals holds no position; the error names the first such
    /// interval.
    pub fn build(backend: Backend, intervals: &[Interval]) -> (built: Result<
        IntervalIndex,
        IndexError,
    >)
        ensures
            match built {
                Ok(index) => {
                    &&& all_valid(intervals@)
                    &&& index@ == intervals@.to_multiset()
                    &&& index.backend_of() == backend
                },
                Err(e) => exists|k: int|
                    #![trigger first_invalid_at(intervals@, k)]
                    {
                        &&& first_invalid_at(intervals@, k)
                        &&& e == (IndexError::InvalidInterval {
                            start: intervals[k].start,
                            end: intervals[k].end,
                        })
                    },
            },
    {
        match find_invalid(intervals) {
            Some(k) => {
                let bad = intervals[k];
                Err(IndexError::InvalidInterval { start: bad.start, end: bad.end })
            },
            None => Ok(Self::from_valid(backend, intervals)),
        }
    }

    /// Builds the index once every interval is known to hold a position.
    pub(crate) fn from_valid(backend: Backend, intervals: &[Interval]) -> (index: IntervalIndex)
        requires
            all_valid(intervals@),
        ensures
            index@ == intervals@.to_multiset(),
            index.backend_of() == backend,
    {
        match backend {
            Backend::Lapper => IntervalIndex { store: Store::Lapper(lapper_new(intervals)) },
            Backend::IITree => IntervalIndex { store: Store::IITree(Self::fill_iitree(intervals)) },
            Backend::CoiTree => {
                let (tree, rest, in_tree) = Self::fill_coitree(intervals);
                IntervalIndex { store: Store::CoiTree { tree, rest, in_tree } }
            },
        }
    }

    /// Inserts every interval into a fresh array-backed tree and indexes it.
    fn fill_iitree(intervals: &[Interval]) -> (tree: ArrayBackedIntervalTree<u32, ()>)
        requires
            all_valid(intervals@),
        ensures
            iitree_items(tree) == intervals@.to_multiset(),
            iitree_indexed(tree),
    {
        let mut tree = iitree_new();
        let mut k: usize = 0;
        proof {
            lemma_empty_holds_nothing::<Interval>();
            assert(intervals@.take(0) =~= Seq::<Interval>::empty());
        }
        while k < intervals.len()
            invariant
                k <= intervals.len(),
                all_valid(intervals@),
                iitree_items(tree) == intervals@.take(k as int).to_multiset(),
            decreases intervals.len() - k,
        {
            let iv = intervals[k];
            iitree_insert(&mut tree, iv);
            proof {
                assert(intervals@.take(k as int + 1) =~= intervals@.take(k as int).push(iv));
                lemma_push_counts(intervals@.take(k as int), iv);
            }
            k += 1;
        }
        proof {
            assert(intervals@.take(k as int) =~= intervals@);
        }
        iitree_index(&mut tree);
        tree
    }

    /// Builds the tree over the spans of the intervals that have one, and
    /// sets the others aside.
    fn fill_coitree(intervals: &[Interval]) -> (parts: (
        CoiTreeStore,
        Vec<Interval>,
        Ghost<Seq<Interval>>,
    ))
        requires
            all_valid(intervals@),
        ensures
            coitree_items(parts.0) == parts.2@.map_values(closing()).to_multiset(),
            forall|i: int| 0 <= i < parts.2@.len() ==> fits(#[trigger] parts.2@[i]),
            intervals@.to_multiset() == parts.2@.to_multiset().add(parts.1@.to_multiset()),
    {
        let mut spans: Vec<ClosedSpan> = Vec::new();
        let mut rest: Vec<Interval> = Vec::new();
        let ghost mut in_tree: Seq<Interval> = Seq::empty();
        let mut k: usize = 0;
        proof {
            lemma_empty_holds_nothing::<Interval>();
            assert(intervals@.take(0) =~= Seq::<Interval>::empty());
        }
        while k < intervals.len()
            invariant
                k <= intervals.len(),
                all_valid(intervals@),
                spans@ == in_tree.map_values(closing()),
                forall|i: int| 0 <= i < in_tree.len() ==> fits(#[trigger] in_tree[i]),
                forall|i: int|
                    0 <= i < spans.len() ==> 0 <= (#[trigger] spans[i]).first <= spans[i].last
                        < i32::MAX,
                intervals@.take(k as int).to_multiset() == in_tree.to_multiset().add(
                    rest@.to_multiset(),
                ),
            decreases intervals.len() - k,
        {
            let iv = intervals[k];
            let ghost seen = intervals@.take(k as int);
            let ghost tree_before = in_tree;
            let ghost rest_before = rest@;
            if iv.end <= SPAN_LIMIT {
                let span = to_closed(iv);
                spans.push(span);
                proof {
                    in_tree = in_tree.push(iv);
                }
            } else {
                rest.push(iv);
            }
            proof {
                assert(intervals@.take(k as int + 1) =~= seen.push(iv));
                lemma_push_counts(seen, iv);
                lemma_push_counts(tree_before, iv);
                lemma_push_counts(rest_before, iv);
            }
            k += 1;
        }
        proof {
            assert(intervals@.take(k as int) =~= intervals@);
        }
        let tree = coitree_new(&spans);
        (tree, rest, Ghost(in_tree))
    }

    /// The collection that this index searches with.
    pub fn backend(&self) -> (kind: Backend)
        ensures
            kind == self.backend_of(),
    {
        match &self.store {
            Store::Lapper(_) => Backend::Lapper,
            Store::CoiTree { .. } => Backend::CoiTree,
            Store::IITree(_) => Backend::IITree,
        }
    }

    /// The held intervals that overlap the query `[query_start, query_end)`:
    /// those with `start < query_end` and `end > query_start`.
    ///
    /// An interval that is held twice is returned twice. The order of the
    /// answer depends on the backend and is not promised. A query that holds
    /// no position is refused.
    pub fn overlapping(&self, query_start: u32, query_end: u32) -> (answer: Result<
        Vec<Interval>,
        IndexError,
    >)
        ensures
            match answer {
                Ok(found) => {
                    &&& query_start < query_end
                    &&& found@.to_multiset() == self@.filter(
                        overlapping_query(query_start, query_end),
                    )
                },
                Err(e) => {
                    &&& query_start >= query_end
                    &&& e == (IndexError::InvalidQuery { start: query_start, end: query_end })
                },
            },
    {
        if query_start >= query_end {
            return Err(IndexError::InvalidQuery { start: query_start, end: query_end });
        }
        proof {
            use_type_invariant(self);
        }
        let ghost wanted = overlapping_query(query_start, query_end);
        match &self.store {
            Store::Lapper(lapper) => Ok(lapper_find(lapper, query_start, query_end)),
            Store::IITree(tree) => Ok(iitree_find(tree, query_start, query_end)),
            Store::CoiTree { tree, rest, in_tree } => {
                let mut found = Self::ask_tree(tree, Ghost(in_tree@), query_start, query_end);
                let ghost from_tree = found@.to_multiset();
                let mut k: usize = 0;
                proof {
                    lemma_empty_holds_nothing::<Interval>();
                    lemma_filter_empty(wanted);
                    assert(rest@.take(0) =~= Seq::<Interval>::empty());
                }
                while k < rest.len()
                    invariant
                        k <= rest.len(),
                        wanted == overlapping_query(query_start, query_end),
                        found@.to_multiset() == from_tree.add(
                            rest@.take(k as int).to_multiset().filter(wanted),
                        ),
                    decreases rest.len() - k,
                {
                    let iv = rest[k];
                    let ghost seen = rest@.take(k as int);
                    let ghost before = found@;
                    if iv.overlaps_query(query_start, query_end) {
                        found.push(iv);
                    }
                    proof {
                        assert(rest@.take(k as int + 1) =~= seen.push(iv));
                        lemma_push_counts(seen, iv);
                        lemma_push_counts(before, iv);
                        lemma_filter_insert(seen.to_multiset(), iv, wanted);
                    }
                    k += 1;
                }
                proof {
                    assert(rest@.take(k as int) =~= rest@);
                    lemma_filter_add(in_tree@.to_multiset(), rest@.to_multiset(), wanted);
                }
                Ok(found)
            },
        }
    }

    /// Asks the tree, and turns the spans of its answer back into intervals.
    fn ask_tree(
        tree: &CoiTreeStore,
        Ghost(in_tree): Ghost<Seq<Interval>>,
        query_start: u32,
        query_end: u32,
    ) -> (found: Vec<Interval>)
        requires
            query_start < query_end,
            coitree_items(*tree) == in_tree.map_values(closing()).to_multiset(),
            forall|i: int| 0 <= i < in_tree.len() ==> fits(#[trigger] in_tree[i]),
        ensures
            found@.to_multiset() == in_tree.to_multiset().filter(
                overlapping_query(query_start, query_end),
            ),
    {
        let mut found: Vec<Interval> = Vec::new();
        if query_start >= SPAN_LIMIT {
            proof {
                lemma_query_beyond_spans(in_tree, query_start, query_end);
                lemma_empty_holds_nothing::<Interval>();
            }
            return found;
        }
        let last_pos: u32 = if query_end > SPAN_LIMIT {
            SPAN_LIMIT - 1
        } else {
            query_end - 1
        };
        let first = query_start as i32;
        let last = last_pos as i32;
        let spans = coitree_query(tree, first, last);
        proof {
            lemma_tree_answer(in_tree, spans@, query_start, query_end, first, last);
        }
        let mut k: usize = 0;
        while k < spans.len()
            invariant
                k <= spans.len(),
                forall|i: int| 0 <= i < spans.len() ==> in_bounds(#[trigger] spans[i]),
                found@ == spans@.take(k as int).map_values(opening()),
            decreases spans.len() - k,
        {
            let iv = to_open(spans[k]);
            found.push(iv);
            k += 1;
        }
        proof {
            assert(spans@.take(k as int) =~= spans@);
        }
        found
    }
}

} // verus!
