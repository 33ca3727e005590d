//! Coverage of query intervals by reference intervals, key by key.
//!
//! For each interval of a query set, the library tells how many intervals of
//! a reference set overlap it and how many of its positions they cover
//! together. Intervals are half-open ranges `[start, end)` of 0-based
//! positions. Each carries a key, such as the name of a chromosome, and
//! intervals with different keys never meet.
//!
//! * [`registry::KeyedRegistry`] groups the reference set by key and answers
//!   queries under a key.
//! * [`index::IntervalIndex`] holds the intervals of one key and finds those
//!   that overlap a query.
//! * [`coverage::coverage`] reduces the intervals found to a count and a
//!   covered length.
//! * [`record`] and [`report`] read the lines of tab-separated interval files
//!   and say what is reported for each query line.
mod backend;
mod closed;
mod counting;
pub mod coverage;
pub mod error;
pub mod index;
pub mod interval;
pub mod record;
pub mod registry;
pub mod report;
pub mod sort;
