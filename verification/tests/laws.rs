//! What holds across operations, on concrete rings, and the edges of each.

use percolator_prog::oracle_ring::{
    ring_buf_clamp, ring_buf_last, ring_buf_push, ring_buf_twap, MAX_STALENESS_SLOTS,
    POLY_CLAMP_HI, POLY_CLAMP_LO, RING_LEN,
};
use percolator_prog::state::OracleSnapshotEntry;

type Ring = [OracleSnapshotEntry; RING_LEN];

fn entry(p_yes_e6: u64, source_timestamp: i64, on_chain_slot: u64) -> OracleSnapshotEntry {
    OracleSnapshotEntry {
        p_yes_e6,
        source_timestamp,
        on_chain_slot,
    }
}

fn fresh() -> Ring {
    [entry(0, 0, 0); RING_LEN]
}

fn full(p: u64, timestamp: i64, slot: u64) -> Ring {
    [entry(p, timestamp, slot); RING_LEN]
}

// ----- clamp -----

#[test]
fn clamp_again_changes_nothing() {
    for p in [0, 9_999, 10_000, 10_001, 989_999, 990_000, 990_001, u64::MAX] {
        let c = ring_buf_clamp(p);
        assert!(POLY_CLAMP_LO <= c && c <= POLY_CLAMP_HI);
        assert_eq!(ring_buf_clamp(c), c);
    }
    assert_eq!(ring_buf_clamp(10_001), 10_001);
    assert_eq!(ring_buf_clamp(989_999), 989_999);
}

#[test]
fn clamp_keeps_order() {
    let ps = [0, 5, 10_000, 20_000, 500_000, 990_000, 990_001, u64::MAX];
    for w in ps.windows(2) {
        assert!(ring_buf_clamp(w[0]) <= ring_buf_clamp(w[1]));
    }
}

#[test]
fn clamped_pushes_keep_readings_and_average_in_domain() {
    let mut ring = fresh();
    for i in 0..150u64 {
        let raw = i * 13_777;
        ring_buf_push(&mut ring, entry(ring_buf_clamp(raw), i as i64 + 1, i));
        for e in ring.iter() {
            if e.source_timestamp != 0 {
                assert!(POLY_CLAMP_LO <= e.p_yes_e6 && e.p_yes_e6 <= POLY_CLAMP_HI);
            }
        }
        let t = ring_buf_twap(&ring, i).unwrap();
        assert!(POLY_CLAMP_LO <= t && t <= POLY_CLAMP_HI);
    }
}

// ----- last -----

#[test]
fn last_of_equal_timestamps_is_the_first() {
    let mut ring = fresh();
    ring[3] = entry(1, 50, 0);
    ring[7] = entry(2, 90, 0);
    ring[20] = entry(3, 90, 0);
    assert_eq!(*ring_buf_last(&ring).unwrap(), entry(2, 90, 0));
}

#[test]
fn last_passes_over_unwritten_slots() {
    let mut ring = fresh();
    ring[0] = entry(999, 0, 999);
    assert!(ring_buf_last(&ring).is_none());
    ring[5] = entry(1, -8, 0);
    ring[6] = entry(2, -3, 0);
    assert_eq!(*ring_buf_last(&ring).unwrap(), entry(2, -3, 0));
}

#[test]
fn last_finds_the_final_slot() {
    let mut ring = full(1, 10, 0);
    ring[RING_LEN - 1] = entry(2, 11, 0);
    assert_eq!(*ring_buf_last(&ring).unwrap(), entry(2, 11, 0));
}

#[test]
fn last_reads_back_newer_push() {
    let mut ring = full(1, 10, 0);
    ring_buf_push(&mut ring, entry(7, 11, 3));
    assert_eq!(*ring_buf_last(&ring).unwrap(), entry(7, 11, 3));
    let mut ring = fresh();
    ring_buf_push(&mut ring, entry(7, 1, 3));
    assert_eq!(*ring_buf_last(&ring).unwrap(), entry(7, 1, 3));
}

#[test]
fn last_never_goes_back() {
    let mut ring = full(1, 10, 0);
    ring_buf_push(&mut ring, entry(2, 3, 0));
    assert_eq!(ring_buf_last(&ring).unwrap().source_timestamp, 10);
    let mut ring = fresh();
    ring_buf_push(&mut ring, entry(1, 10, 0));
    ring_buf_push(&mut ring, entry(2, 3, 0));
    ring_buf_push(&mut ring, entry(3, 0, 0));
    assert_eq!(*ring_buf_last(&ring).unwrap(), entry(1, 10, 0));
}

#[test]
fn last_can_go_back_among_negative_timestamps() {
    let mut ring = fresh();
    ring[4] = entry(1, -5, 0);
    assert_eq!(ring_buf_push(&mut ring, entry(2, -7, 0)), 4);
    assert_eq!(ring_buf_last(&ring).unwrap().source_timestamp, -7);
}

// ----- push -----

#[test]
fn push_takes_lowest_of_equally_old_slots() {
    let mut ring = full(1, 10, 0);
    ring[17] = entry(1, 4, 0);
    ring[30] = entry(1, 4, 0);
    let before = ring;
    assert_eq!(ring_buf_push(&mut ring, entry(5, 20, 6)), 17);
    for i in 0..RING_LEN {
        if i == 17 {
            assert_eq!(ring[i], entry(5, 20, 6));
        } else {
            assert_eq!(ring[i], before[i]);
        }
    }
    assert_eq!(ring_buf_push(&mut ring, entry(5, 21, 6)), 30);
}

#[test]
fn push_overwrites_final_slot_when_oldest() {
    let mut ring = full(1, 10, 0);
    ring[RING_LEN - 1] = entry(1, 9, 0);
    assert_eq!(ring_buf_push(&mut ring, entry(5, 20, 6)), RING_LEN - 1);
}

#[test]
fn push_stores_the_entry_unchecked() {
    let mut ring = fresh();
    assert_eq!(ring_buf_push(&mut ring, entry(u64::MAX, 0, 9)), 0);
    assert_eq!(ring[0], entry(u64::MAX, 0, 9));
    assert_eq!(ring_buf_push(&mut ring, entry(3, -1, 9)), 0);
    assert_eq!(ring_buf_push(&mut ring, entry(4, 5, 9)), 0);
    assert_eq!(ring_buf_push(&mut ring, entry(4, 5, 9)), 1);
}

#[test]
fn bootstrap_order_needs_only_positive_timestamps() {
    let mut ring = fresh();
    for i in 0..RING_LEN {
        let idx = ring_buf_push(&mut ring, entry(i as u64, 1_000 - 7 * i as i64, 0));
        assert_eq!(idx, i);
        assert_eq!(ring[i].p_yes_e6, i as u64);
    }
    assert_eq!(ring_buf_push(&mut ring, entry(1, 2_000, 0)), RING_LEN - 1);
}

#[test]
fn bootstrap_order_ends_at_a_timestamp_of_zero() {
    let mut ring = fresh();
    assert_eq!(ring_buf_push(&mut ring, entry(1, 5, 0)), 0);
    assert_eq!(ring_buf_push(&mut ring, entry(2, 0, 0)), 1);
    assert_eq!(ring_buf_push(&mut ring, entry(3, 6, 0)), 1);
}

#[test]
fn increasing_pushes_rotate() {
    let mut ring = fresh();
    for k in 0..200usize {
        let idx = ring_buf_push(&mut ring, entry(k as u64, 10 * k as i64 + 1, k as u64));
        assert_eq!(idx, k % RING_LEN);
        assert_eq!(ring_buf_last(&ring).unwrap().p_yes_e6, k as u64);
    }
    for k in 140..200usize {
        assert_eq!(ring[k % RING_LEN].p_yes_e6, k as u64);
    }
}

// ----- twap -----

#[test]
fn twap_window_includes_its_limit() {
    let mut ring = fresh();
    ring[9] = entry(123_456, 1, 1_000);
    assert_eq!(ring_buf_twap(&ring, 1_000 + MAX_STALENESS_SLOTS), Some(123_456));
    assert_eq!(ring_buf_twap(&ring, 1_000 + MAX_STALENESS_SLOTS + 1), None);
    assert_eq!(ring_buf_twap(&ring, 1_000), Some(123_456));
    assert_eq!(ring_buf_twap(&ring, 0), Some(123_456));
    ring[9].on_chain_slot = u64::MAX;
    assert_eq!(ring_buf_twap(&ring, 0), Some(123_456));
}

#[test]
fn twap_window_only_shrinks() {
    let mut ring = fresh();
    ring[0] = entry(100, 1, 10);
    ring[1] = entry(300, 2, 500);
    assert_eq!(ring_buf_twap(&ring, 730), Some(200));
    assert_eq!(ring_buf_twap(&ring, 731), Some(300));
    assert_eq!(ring_buf_twap(&ring, 1_220), Some(300));
    assert_eq!(ring_buf_twap(&ring, 1_221), None);
    assert_eq!(ring_buf_twap(&ring, u64::MAX), None);
}

#[test]
fn twap_skips_unwritten_slots_with_content() {
    let mut ring = fresh();
    ring[0] = entry(900_000, 0, 100);
    assert_eq!(ring_buf_twap(&ring, 100), None);
    ring[1] = entry(100_000, -4, 100);
    assert_eq!(ring_buf_twap(&ring, 100), Some(100_000));
}

#[test]
fn twap_rounds_down() {
    let mut ring = fresh();
    ring[0] = entry(100_000, 1, 5);
    ring[1] = entry(100_000, 2, 5);
    ring[2] = entry(100_002, 3, 5);
    assert_eq!(ring_buf_twap(&ring, 5), Some(100_000));
    ring[2].p_yes_e6 = 100_003;
    assert_eq!(ring_buf_twap(&ring, 5), Some(100_001));
}

#[test]
fn twap_sum_saturates() {
    let mut ring = fresh();
    ring[0] = entry(u64::MAX, 1, 5);
    assert_eq!(ring_buf_twap(&ring, 5), Some(u64::MAX));
    ring[1] = entry(u64::MAX, 2, 5);
    assert_eq!(ring_buf_twap(&ring, 5), Some(u64::MAX / 2));
    let ring = full(u64::MAX, 1, 5);
    assert_eq!(ring_buf_twap(&ring, 5), Some(u64::MAX / 60));
}

#[test]
fn twap_ignores_order() {
    let mut ring = fresh();
    for i in 0..RING_LEN {
        ring[i] = entry(10_000 + 31 * (i as u64) * (i as u64), i as i64 + 1, 20 * i as u64);
    }
    let mut reversed = ring;
    reversed.reverse();
    let mut rotated = ring;
    rotated.rotate_left(23);
    let t = ring_buf_twap(&ring, 1_200).unwrap();
    assert_eq!(ring_buf_twap(&reversed, 1_200), Some(t));
    assert_eq!(ring_buf_twap(&rotated, 1_200), Some(t));
}

#[test]
fn twap_ignores_entries_outside_window() {
    let mut ring = fresh();
    ring[0] = entry(400_000, 5, 2_000);
    ring[1] = entry(10_000, 6, 100);
    assert_eq!(ring_buf_twap(&ring, 2_000), Some(400_000));
    ring[1] = entry(990_000, 7, 1_279);
    ring[2] = entry(990_000, 0, 2_000);
    assert_eq!(ring_buf_twap(&ring, 2_000), Some(400_000));
}

#[test]
fn twap_lies_between_bounds() {
    let mut ring = fresh();
    ring[0] = entry(200_000, 1, 5);
    ring[1] = entry(700_000, 2, 5);
    ring[2] = entry(650_000, 3, 5);
    let t = ring_buf_twap(&ring, 5).unwrap();
    assert_eq!(t, 516_666);
    assert!(200_000 <= t && t <= 700_000);
}

#[test]
fn push_of_current_reading_gives_twap() {
    let mut ring = full(500_000, 1, 0);
    assert_eq!(ring_buf_twap(&ring, 5_000), None);
    ring_buf_push(&mut ring, entry(300_000, 2, 5_000));
    assert_eq!(ring_buf_twap(&ring, 5_000), Some(300_000));
}

#[test]
fn one_reading_moves_twap_little() {
    let mut ring = full(POLY_CLAMP_LO, 1, 5);
    assert_eq!(ring_buf_twap(&ring, 5), Some(10_000));
    ring_buf_push(&mut ring, entry(POLY_CLAMP_HI, 2, 5));
    // 980_000 / 60 is 16_333 and a third.
    assert_eq!(ring_buf_twap(&ring, 5), Some(26_333));
}

#[test]
fn twap_reads_back_last_pushes() {
    let mut ring = fresh();
    for k in 0..100u64 {
        ring_buf_push(&mut ring, entry(1_000 * k, k as i64 + 1, k));
    }
    // The last 60 pushes carry 40_000 to 99_000 in steps of 1_000.
    assert_eq!(ring_buf_twap(&ring, 100), Some(69_500));
}
