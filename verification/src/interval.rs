//! Intervals of positions, and the tests that hold between an interval and a
//! query.
use vstd::prelude::*;

verus! {

/// A half-open range `[start, end)` of 0-based positions.
#[derive(Clone, Copy, Debug, PartialEq, Eq, Structural)]
pub struct Interval {
    pub start: u32,
    pub end: u32,
}

impl Interval {
    /// An interval is well formed when it holds at least one position.
    pub open spec fn valid(self) -> bool {
        self.start < self.end
    }

    /// Whether position `p` lies inside the interval.
    pub open spec fn holds(self, p: int) -> bool {
        self.start <= p < self.end
    }

    /// The half-open overlap test against the query `[query_start, query_end)`.
    pub open spec fn overlaps(self, query_start: u32, query_end: u32) -> bool {
        self.start < query_end && self.end > query_start
    }

    /// The interval `[start, end)`. Nothing is checked here: an index checks
    /// what it is given when it is built.
    pub fn new(start: u32, end: u32) -> (iv: Interval)
        ensures
            iv.start == start,
            iv.end == end,
    {
        Interval { start, end }
    }

    /// Tells whether the interval holds at least one position.
    pub fn is_valid(&self) -> (ok: bool)
        ensures
            ok == self.valid(),
    {
        self.start < self.end
    }

    /// Tells whether the interval and the query `[query_start, query_end)`
    /// reach into each other.
    pub fn overlaps_query(&self, query_start: u32, query_end: u32) -> (yes: bool)
        ensures
            yes == self.overlaps(query_start, query_end),
    {
        self.start < query_end && self.end > query_start
    }
}

} // verus!
