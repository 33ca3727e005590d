//! What can go wrong while an index is built or asked.
use vstd::prelude::*;

verus! {

/// Why one index refused its input.
#[derive(Clone, Copy, Debug, PartialEq, Eq, Structural)]
pub enum IndexError {
    /// An interval to be stored holds no position: its end is not past its start.
    InvalidInterval { start: u32, end: u32 },
    /// A query holds no position: its end is not past its start.
    InvalidQuery { start: u32, end: u32 },
}

/// Why a keyed registry refused its input.
#[derive(Debug, PartialEq, Eq)]
pub enum RegistryError {
    /// A reference record holds no position. `key` is the key of that record.
    InvalidInterval { key: String, start: u32, end: u32 },
    /// A query holds no position.
    InvalidQuery { start: u32, end: u32 },
}

} // verus!
