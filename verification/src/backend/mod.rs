//! The interval collections of other crates that an index can rest on.
//!
//! What these files say of the other crates' functions is not proved. Each
//! function that calls one states, over the contents of the collection, what
//! that crate's own code does, and the index is verified against these
//! statements.
pub mod coitree;
pub mod iitree;
pub mod lapper;
