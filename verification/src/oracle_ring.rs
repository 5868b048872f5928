//! Operations on the ring of oracle snapshots.
//!
//! The ring has a fixed number of slots. A push overwrites the slot with the
//! oldest timestamp; the average runs over the readings that are recent enough.
//!
//! No operation overflows. On readings inside the bounded probability domain the
//! sum in `ring_buf_twap` is at most `RING_LEN * POLY_CLAMP_HI`, so it never
//! saturates, and the average stays in the domain: see
//! `laws::lemma_twap_stays_in_domain`.

use vstd::prelude::*;
use crate::lemmas;
use crate::model;
use crate::state::OracleSnapshotEntry;

verus! {

/// Number of slots in a ring.
pub const RING_LEN: usize = 60;

/// Lower bound of the bounded probability domain (1%). Below it leverage
/// arithmetic diverges, so readings are clamped to this floor before they are
/// stored.
pub const POLY_CLAMP_LO: u64 = 10_000;

/// Upper bound of the bounded probability domain (99%).
pub const POLY_CLAMP_HI: u64 = 990_000;

/// Largest age, in chain slots, at which a reading still takes part in the
/// average: about five minutes at 400 ms a slot.
pub const MAX_STALENESS_SLOTS: u64 = 720;

/// Pulls a raw probability in to `[POLY_CLAMP_LO, POLY_CLAMP_HI]`.
#[inline]
pub fn ring_buf_clamp(p_yes_e6: u64) -> (r: u64)
    ensures
        r == model::clamped(p_yes_e6),
        POLY_CLAMP_LO <= p_yes_e6 <= POLY_CLAMP_HI ==> r == p_yes_e6,
        p_yes_e6 < POLY_CLAMP_LO ==> r == POLY_CLAMP_LO,
        p_yes_e6 > POLY_CLAMP_HI ==> r == POLY_CLAMP_HI,
{
    if p_yes_e6 < POLY_CLAMP_LO {
        POLY_CLAMP_LO
    } else if p_yes_e6 > POLY_CLAMP_HI {
        POLY_CLAMP_HI
    } else {
        p_yes_e6
    }
}

/// The reading with the largest `source_timestamp`, the first of them where
/// several share it; `None` where no slot was written.
///
/// Slots whose `source_timestamp` is zero are passed over.
pub fn ring_buf_last(buf: &[OracleSnapshotEntry; RING_LEN]) -> (r: Option<&OracleSnapshotEntry>)
    ensures
        r is None <==> model::is_empty(buf@),
        r matches Some(e) ==> exists|i: int| #[trigger]
            model::is_newest(buf@, i) && *e == buf@[i],
        match r {
            None => model::latest(buf@) is None,
            Some(e) => model::latest(buf@) == Some(*e),
        },
        r is None <==> forall|j: int|
            0 <= j < RING_LEN ==> (#[trigger] buf@[j]).source_timestamp == 0,
        r matches Some(e) ==> e.source_timestamp != 0 && forall|j: int|
            0 <= j < RING_LEN && (#[trigger] buf@[j]).source_timestamp != 0
                ==> buf@[j].source_timestamp <= e.source_timestamp,
        r matches Some(e) ==> exists|i: int|
            0 <= i < RING_LEN && *e == #[trigger] buf@[i] && forall|j: int|
                0 <= j < i ==> (#[trigger] buf@[j]).source_timestamp == 0
                    || buf@[j].source_timestamp < e.source_timestamp,
{
    let mut best: Option<&OracleSnapshotEntry> = None;
    let ghost mut best_i: int = -1;
    for i in 0..RING_LEN
        invariant
            best is None ==> forall|j: int| 0 <= j < i ==> !(#[trigger] buf@[j]).written(),
            best matches Some(b) ==> {
                &&& 0 <= best_i < i
                &&& *b == buf@[best_i]
                &&& model::is_newest(buf@.take(i as int), best_i)
            },
    {
        let entry = &buf[i];
        proof {
            assert(buf@.take(i + 1) =~= buf@.take(i as int).push(*entry));
        }
        if entry.source_timestamp != 0 {
            match best {
                None => {
                    best = Some(entry);
                    proof {
                        best_i = i as int;
                    }
                },
                Some(b) => if entry.source_timestamp > b.source_timestamp {
                    best = Some(entry);
                    proof {
                        best_i = i as int;
                    }
                },
            }
        }
    }
    proof {
        assert(buf@.take(RING_LEN as int) =~= buf@);
        if best is Some {
            lemmas::lemma_newest_is_unique(buf@, best_i);
        }
    }
    best
}

/// Stores `entry` in the slot with the oldest `source_timestamp`, the lowest such
/// slot where several share it, and returns that slot's index. All other slots
/// stay as they were.
///
/// Slots that were never written have timestamp zero, so readings with positive
/// timestamps fill a fresh ring in slot order and then rotate: see
/// `laws::lemma_bootstrap_fills_in_order` and `laws::lemma_rotation`.
///
/// `entry` is stored as it is: clamping it and checking its timestamp is up to the
/// caller.
pub fn ring_buf_push(
    buf: &mut [OracleSnapshotEntry; RING_LEN],
    entry: OracleSnapshotEntry,
) -> (r: usize)
    ensures
        model::is_oldest(old(buf)@, r as int),
        final(buf)@ == old(buf)@.update(r as int, entry),
        r == model::oldest_slot(old(buf)@),
        final(buf)@ == model::pushed(old(buf)@, entry),
        r < RING_LEN,
        forall|j: int|
            0 <= j < RING_LEN ==> old(buf)@[r as int].source_timestamp <= (
            #[trigger] old(buf)@[j]).source_timestamp,
        forall|j: int|
            0 <= j < r ==> old(buf)@[r as int].source_timestamp < (
            #[trigger] old(buf)@[j]).source_timestamp,
{
    let mut oldest_idx: usize = 0;
    let mut oldest_ts: i64 = buf[0].source_timestamp;
    for i in 1..RING_LEN
        invariant
            *buf == *old(buf),
            oldest_idx < i,
            oldest_ts == buf@[oldest_idx as int].source_timestamp,
            forall|j: int| 0 <= j < i ==> oldest_ts <= (#[trigger] buf@[j]).source_timestamp,
            forall|j: int|
                0 <= j < oldest_idx ==> oldest_ts < (#[trigger] buf@[j]).source_timestamp,
    {
        if buf[i].source_timestamp < oldest_ts {
            oldest_ts = buf[i].source_timestamp;
            oldest_idx = i;
        }
    }
    proof {
        lemmas::lemma_oldest_is_unique(buf@, oldest_idx as int);
    }
    buf[oldest_idx] = entry;
    oldest_idx
}

/// The mean `p_yes_e6`, rounded down, of the readings at most
/// `MAX_STALENESS_SLOTS` old at `now_slot`; `None` where there is none.
///
/// Each reading in the window weighs the same. One stored at a chain slot after
/// `now_slot` has age zero. Slots that were never written do not count.
pub fn ring_buf_twap(buf: &[OracleSnapshotEntry; RING_LEN], now_slot: u64) -> (r: Option<u64>)
    ensures
        r == model::twap(buf@, now_slot),
        r is None <==> forall|i: int|
            0 <= i < RING_LEN ==> !model::in_window(#[trigger] buf@[i], now_slot),
        r is None <==> forall|i: int|
            0 <= i < RING_LEN ==> (#[trigger] buf@[i]).source_timestamp == 0
                || buf@[i].on_chain_slot + MAX_STALENESS_SLOTS < now_slot,
{
    let mut sum_p: u64 = 0;
    let mut count: u64 = 0;
    proof {
        lemmas::lemma_window_of_none(now_slot);
        assert(buf@.take(0) =~= Seq::empty());
    }
    for i in 0..RING_LEN
        invariant
            count <= i,
            count == model::window(buf@.take(i as int), now_slot).len(),
            sum_p == model::saturated(model::sum_p(model::window(buf@.take(i as int), now_slot))),
    {
        let entry = &buf[i];
        proof {
            assert(buf@.take(i + 1) =~= buf@.take(i as int).push(*entry));
            lemmas::lemma_window_of_push(buf@.take(i as int), *entry, now_slot);
        }
        if entry.source_timestamp != 0 {
            let age: u64 = now_slot.saturating_sub(entry.on_chain_slot);
            if age <= MAX_STALENESS_SLOTS {
                sum_p = sum_p.saturating_add(entry.p_yes_e6);
                count += 1;
            }
        }
    }
    proof {
        assert(buf@.take(RING_LEN as int) =~= buf@);
        lemmas::lemma_window_members(buf@, now_slot);
        let w = model::window(buf@, now_slot);
        assert(w.len() > 0 ==> buf@.contains(w[0]));
    }
    sum_p.checked_div(count)
}

} // verus!
