//! What a ring is mathematically: a sequence of entries, and functions of it.

use vstd::prelude::*;
use crate::oracle_ring::{MAX_STALENESS_SLOTS, POLY_CLAMP_HI, POLY_CLAMP_LO, RING_LEN};
use crate::state::OracleSnapshotEntry;

verus! {

/// `p` pulled in to the bounded probability domain.
pub open spec fn clamped(p: u64) -> u64 {
    if p < POLY_CLAMP_LO {
        POLY_CLAMP_LO
    } else if p > POLY_CLAMP_HI {
        POLY_CLAMP_HI
    } else {
        p
    }
}

/// No slot of the ring holds a reading.
pub open spec fn is_empty(ring: Seq<OracleSnapshotEntry>) -> bool {
    forall|i: int| 0 <= i < ring.len() ==> !(#[trigger] ring[i]).written()
}

/// Slot `i` holds a reading with the largest timestamp of all readings, and is the
/// first such slot.
pub open spec fn is_newest(ring: Seq<OracleSnapshotEntry>, i: int) -> bool {
    &&& 0 <= i < ring.len()
    &&& ring[i].written()
    &&& forall|j: int|
        0 <= j < ring.len() && (#[trigger] ring[j]).written() ==> ring[j].source_timestamp
            <= ring[i].source_timestamp
    &&& forall|j: int|
        0 <= j < i && (#[trigger] ring[j]).written() ==> ring[j].source_timestamp
            < ring[i].source_timestamp
}

/// The newest reading of the ring, if it holds one.
pub open spec fn latest(ring: Seq<OracleSnapshotEntry>) -> Option<OracleSnapshotEntry> {
    if is_empty(ring) {
        None
    } else {
        Some(ring[choose|i: int| is_newest(ring, i)])
    }
}

/// Slot `i` holds the smallest timestamp of all slots, written or not, and is the
/// first such slot.
pub open spec fn is_oldest(ring: Seq<OracleSnapshotEntry>, i: int) -> bool {
    &&& 0 <= i < ring.len()
    &&& forall|j: int|
        0 <= j < ring.len() ==> ring[i].source_timestamp <= (#[trigger] ring[j]).source_timestamp
    &&& forall|j: int|
        0 <= j < i ==> ring[i].source_timestamp < (#[trigger] ring[j]).source_timestamp
}

/// The slot that the next push overwrites.
pub open spec fn oldest_slot(ring: Seq<OracleSnapshotEntry>) -> int {
    choose|i: int| is_oldest(ring, i)
}

/// The ring after a push of `entry`.
pub open spec fn pushed(
    ring: Seq<OracleSnapshotEntry>,
    entry: OracleSnapshotEntry,
) -> Seq<OracleSnapshotEntry> {
    ring.update(oldest_slot(ring), entry)
}

/// The entry takes part in the average at `now_slot`.
pub open spec fn in_window(entry: OracleSnapshotEntry, now_slot: u64) -> bool {
    entry.written() && entry.age(now_slot) <= MAX_STALENESS_SLOTS
}

/// The entries that take part in the average at `now_slot`.
pub open spec fn window(entries: Seq<OracleSnapshotEntry>, now_slot: u64) -> Seq<
    OracleSnapshotEntry,
> {
    entries.filter(|e: OracleSnapshotEntry| in_window(e, now_slot))
}

/// Sum of the probabilities of all entries.
pub open spec fn sum_p(entries: Seq<OracleSnapshotEntry>) -> nat
    decreases entries.len(),
{
    if entries.len() == 0 {
        0
    } else {
        sum_p(entries.drop_last()) + entries.last().p_yes_e6 as nat
    }
}

/// `n` held down to the largest `u64`.
pub open spec fn saturated(n: nat) -> nat {
    if n <= u64::MAX {
        n
    } else {
        u64::MAX as nat
    }
}

/// The mean probability, rounded down, of the entries in the window; `None` where
/// the window is empty. The sum is held down to the largest `u64`.
pub open spec fn twap(entries: Seq<OracleSnapshotEntry>, now_slot: u64) -> Option<u64> {
    let w = window(entries, now_slot);
    if w.len() == 0 {
        None
    } else {
        Some((saturated(sum_p(w)) / w.len()) as u64)
    }
}

/// A ring in which no slot was ever written.
pub open spec fn fresh_ring() -> Seq<OracleSnapshotEntry> {
    Seq::new(RING_LEN as nat, |i: int| OracleSnapshotEntry::unwritten())
}

/// The ring after pushes of all `entries`, in order, into `ring`.
pub open spec fn pushed_all(
    ring: Seq<OracleSnapshotEntry>,
    entries: Seq<OracleSnapshotEntry>,
) -> Seq<OracleSnapshotEntry>
    decreases entries.len(),
{
    if entries.len() == 0 {
        ring
    } else {
        pushed(pushed_all(ring, entries.drop_last()), entries.last())
    }
}

/// The probability lies in the bounded domain.
pub open spec fn in_domain(p: u64) -> bool {
    POLY_CLAMP_LO <= p <= POLY_CLAMP_HI
}

/// Every reading in the ring lies in the bounded domain.
pub open spec fn ring_in_domain(ring: Seq<OracleSnapshotEntry>) -> bool {
    forall|i: int| 0 <= i < ring.len() && (#[trigger] ring[i]).written() ==> in_domain(
        ring[i].p_yes_e6,
    )
}

/// `entry` with its probability pulled in to the bounded domain.
pub open spec fn clamped_entry(entry: OracleSnapshotEntry) -> OracleSnapshotEntry {
    OracleSnapshotEntry { p_yes_e6: clamped(entry.p_yes_e6), ..entry }
}

/// Every entry has a positive timestamp.
pub open spec fn timestamps_positive(entries: Seq<OracleSnapshotEntry>) -> bool {
    forall|i: int| 0 <= i < entries.len() ==> (#[trigger] entries[i]).source_timestamp > 0
}

/// Each timestamp is larger than all before it.
pub open spec fn timestamps_increasing(entries: Seq<OracleSnapshotEntry>) -> bool {
    forall|i: int, j: int|
        0 <= i < j < entries.len() ==> (#[trigger] entries[i]).source_timestamp < (
        #[trigger] entries[j]).source_timestamp
}

} // verus!
