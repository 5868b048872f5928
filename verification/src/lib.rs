//! Ring buffer of oracle snapshots, and the readings taken from it.
//!
//! A ring is a plain array of `OracleSnapshotEntry` values. `oracle_ring` holds
//! the executable operations, `model` the mathematical functions on sequences of
//! entries that their contracts speak of, and `laws` what holds across several
//! operations.

pub mod laws;
mod lemmas;
pub mod model;
pub mod oracle_ring;
pub mod state;
