//! The record that a ring stores.

use vstd::prelude::*;

verus! {

/// One oracle reading, as stored in a slot of the ring.
///
/// A slot that was never written holds zero in every field. Readings come with a
/// positive unix timestamp, so `source_timestamp == 0` marks such a slot.
#[derive(Clone, Copy, Debug, PartialEq, Eq, Structural)]
pub struct OracleSnapshotEntry {
    /// Probability of the YES outcome, in millionths.
    pub p_yes_e6: u64,
    /// Unix timestamp that the source gave the reading.
    pub source_timestamp: i64,
    /// Slot of the chain at which the reading was stored.
    pub on_chain_slot: u64,
}

impl OracleSnapshotEntry {
    /// The content of a slot that was never written.
    pub open spec fn unwritten() -> Self {
        OracleSnapshotEntry { p_yes_e6: 0, source_timestamp: 0, on_chain_slot: 0 }
    }

    /// The slot holds a reading.
    pub open spec fn written(self) -> bool {
        self.source_timestamp != 0
    }

    /// Chain slots since the entry was stored; zero for one from the future.
    pub open spec fn age(self, now_slot: u64) -> nat {
        if now_slot >= self.on_chain_slot {
            (now_slot - self.on_chain_slot) as nat
        } else {
            0
        }
    }
}

} // verus!
