//! The row that one query line gets from a registry.
//!
//! A line whose key has no index is answered without being read any further:
//! its fields come back as they stand, to be reported with no overlap and no
//! coverage. Under a known key the positions are read, and the query is
//! measured against the index of the key.
use crate::coverage::CoverageResult;
use crate::interval::Interval;
use crate::record::{parse_position, position_of, RecordText};
use crate::registry::{held_coverage, held_overlaps, KeyedRegistry};
use vstd::prelude::*;

verus! {

/// What is reported for one query line.
#[derive(Clone, Copy, Debug, PartialEq, Eq)]
pub enum Row<'a> {
    /// The key has no index. The fields stand as the line had them; the
    /// overlap count and the covered length are both zero.
    Unknown { key: &'a str, start: &'a str, stop: &'a str },
    /// The key has an index, and the query was measured against it.
    Measured { key: &'a str, query: Interval, result: CoverageResult },
}

/// Why a query line under a known key gets no row.
#[derive(Clone, Copy, Debug, PartialEq, Eq, Structural)]
pub enum RowError {
    /// The start field is no position.
    BadStart,
    /// The end field is no position.
    BadEnd,
    /// The query holds no position: its end is not past its start.
    InvalidQuery { start: u32, end: u32 },
}

impl KeyedRegistry {
    /// The row for the query line with the fields `fields`.
    ///
    /// The start is read before the end, so a line with two bad positions is
    /// refused for its start.
    pub fn row_for<'a>(&self, fields: RecordText<'a>) -> (answer: Result<Row<'a>, RowError>)
        ensures
            !self@.contains_key(fields.key@) ==> answer == Ok::<Row<'a>, RowError>(
                Row::Unknown { key: fields.key, start: fields.start, stop: fields.stop },
            ),
            self@.contains_key(fields.key@) ==> match (
                position_of(fields.start@),
                position_of(fields.stop@),
            ) {
                (None, _) => answer == Err::<Row<'a>, RowError>(RowError::BadStart),
                (Some(_), None) => answer == Err::<Row<'a>, RowError>(RowError::BadEnd),
                (Some(from), Some(to)) => if from < to {
                    &&& answer matches Ok(Row::Measured { key, query, result })
                    &&& key == fields.key
                    &&& query == (Interval { start: from, end: to })
                    &&& result.overlap_count == held_overlaps(from, to, self@[fields.key@])
                    &&& result.covered_length == held_coverage(from, to, self@[fields.key@])
                } else {
                    answer == Err::<Row<'a>, RowError>(
                        RowError::InvalidQuery { start: from, end: to },
                    )
                },
            },
    {
        if !self.contains_key(fields.key) {
            return Ok(Row::Unknown { key: fields.key, start: fields.start, stop: fields.stop });
        }
        let from = match parse_position(fields.start) {
            Some(from) => from,
            None => {
                return Err(RowError::BadStart);
            },
        };
        let to = match parse_position(fields.stop) {
            Some(to) => to,
            None => {
                return Err(RowError::BadEnd);
            },
        };
        match self.coverage_for(fields.key, from, to) {
            Ok(result) => Ok(
                Row::Measured { key: fields.key, query: Interval { start: from, end: to }, result },
            ),
            Err(_) => Err(RowError::InvalidQuery { start: from, end: to }),
        }
    }
}

} // verus!
