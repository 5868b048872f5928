//! The operations of the ring, one by one.

use percolator_prog::oracle_ring::{
    ring_buf_clamp, ring_buf_last, ring_buf_push, ring_buf_twap, POLY_CLAMP_HI, POLY_CLAMP_LO,
};
use percolator_prog::state::OracleSnapshotEntry;

fn empty_buf() -> [OracleSnapshotEntry; 60] {
    [OracleSnapshotEntry {
        p_yes_e6: 0,
        source_timestamp: 0,
        on_chain_slot: 0,
    }; 60]
}

// ----- ring_buf_clamp -----

#[test]
fn clamp_within_domain_passes_through() {
    assert_eq!(ring_buf_clamp(500_000), 500_000);
    assert_eq!(ring_buf_clamp(POLY_CLAMP_LO), POLY_CLAMP_LO);
    assert_eq!(ring_buf_clamp(POLY_CLAMP_HI), POLY_CLAMP_HI);
}

#[test]
fn clamp_below_lo_pulled_up() {
    assert_eq!(ring_buf_clamp(0), POLY_CLAMP_LO);
    assert_eq!(ring_buf_clamp(POLY_CLAMP_LO - 1), POLY_CLAMP_LO);
}

#[test]
fn clamp_above_hi_pulled_down() {
    assert_eq!(ring_buf_clamp(POLY_CLAMP_HI + 1), POLY_CLAMP_HI);
    assert_eq!(ring_buf_clamp(1_000_000), POLY_CLAMP_HI);
    assert_eq!(ring_buf_clamp(u64::MAX), POLY_CLAMP_HI);
}

// ----- ring_buf_last -----

#[test]
fn empty_ring_has_no_last() {
    assert!(ring_buf_last(&empty_buf()).is_none());
}

#[test]
fn last_returns_max_timestamp_entry() {
    let mut buf = empty_buf();
    ring_buf_push(
        &mut buf,
        OracleSnapshotEntry {
            p_yes_e6: 420_000,
            source_timestamp: 100,
            on_chain_slot: 50,
        },
    );
    ring_buf_push(
        &mut buf,
        OracleSnapshotEntry {
            p_yes_e6: 510_000,
            source_timestamp: 200,
            on_chain_slot: 150,
        },
    );
    let last = ring_buf_last(&buf).unwrap();
    assert_eq!(last.source_timestamp, 200);
    assert_eq!(last.p_yes_e6, 510_000);
}

// ----- ring_buf_push -----

#[test]
fn push_into_fresh_ring_fills_slot_zero_first() {
    let mut buf = empty_buf();
    let idx = ring_buf_push(
        &mut buf,
        OracleSnapshotEntry {
            p_yes_e6: 420_000,
            source_timestamp: 100,
            on_chain_slot: 50,
        },
    );
    assert_eq!(idx, 0);
    assert_eq!(buf[0].p_yes_e6, 420_000);
    // Slots 1..60 untouched
    assert_eq!(buf[1].source_timestamp, 0);
    assert_eq!(buf[59].source_timestamp, 0);
}

#[test]
fn push_fills_in_order_during_bootstrap() {
    let mut buf = empty_buf();
    for i in 0..60u64 {
        let idx = ring_buf_push(
            &mut buf,
            OracleSnapshotEntry {
                p_yes_e6: 500_000 + i,
                source_timestamp: (i as i64) + 1,
                on_chain_slot: i + 1,
            },
        );
        assert_eq!(idx, i as usize, "bootstrap pushes should fill 0..60 in order");
    }
}

#[test]
fn push_rotates_after_filling() {
    let mut buf = empty_buf();
    for i in 0..60u64 {
        ring_buf_push(
            &mut buf,
            OracleSnapshotEntry {
                p_yes_e6: 500_000 + i,
                source_timestamp: (i as i64) + 1,
                on_chain_slot: i + 1,
            },
        );
    }
    // The 61st push overwrites the oldest (slot 0, source_timestamp = 1)
    let idx = ring_buf_push(
        &mut buf,
        OracleSnapshotEntry {
            p_yes_e6: 600_000,
            source_timestamp: 61,
            on_chain_slot: 100,
        },
    );
    assert_eq!(idx, 0);
    assert_eq!(buf[0].p_yes_e6, 600_000);
    // Slot 1 (the next-oldest, source_timestamp = 2) untouched
    assert_eq!(buf[1].source_timestamp, 2);
}

// ----- ring_buf_twap -----

#[test]
fn empty_ring_has_no_twap() {
    assert!(ring_buf_twap(&empty_buf(), 1_000).is_none());
}

#[test]
fn twap_uniform_weight_in_window() {
    let mut buf = empty_buf();
    ring_buf_push(
        &mut buf,
        OracleSnapshotEntry {
            p_yes_e6: 400_000,
            source_timestamp: 100,
            on_chain_slot: 50,
        },
    );
    ring_buf_push(
        &mut buf,
        OracleSnapshotEntry {
            p_yes_e6: 500_000,
            source_timestamp: 200,
            on_chain_slot: 100,
        },
    );
    ring_buf_push(
        &mut buf,
        OracleSnapshotEntry {
            p_yes_e6: 600_000,
            source_timestamp: 300,
            on_chain_slot: 150,
        },
    );
    // All three within MAX_STALENESS_SLOTS of now_slot = 200
    let twap = ring_buf_twap(&buf, 200).unwrap();
    assert_eq!(twap, 500_000); // (400 + 500 + 600) / 3 = 500
}

#[test]
fn twap_excludes_stale_entries() {
    let mut buf = empty_buf();
    // Stale entry: age = 1_000 - 25 = 975 > MAX_STALENESS_SLOTS (720)
    ring_buf_push(
        &mut buf,
        OracleSnapshotEntry {
            p_yes_e6: 100_000,
            source_timestamp: 50,
            on_chain_slot: 25,
        },
    );
    // Fresh entry: age = 1_000 - 750 = 250 < 720
    ring_buf_push(
        &mut buf,
        OracleSnapshotEntry {
            p_yes_e6: 500_000,
            source_timestamp: 100,
            on_chain_slot: 750,
        },
    );
    let twap = ring_buf_twap(&buf, 1_000).unwrap();
    // Only the fresh entry counts
    assert_eq!(twap, 500_000);
}

#[test]
fn twap_returns_none_when_all_stale() {
    let mut buf = empty_buf();
    ring_buf_push(
        &mut buf,
        OracleSnapshotEntry {
            p_yes_e6: 500_000,
            source_timestamp: 10,
            on_chain_slot: 5,
        },
    );
    // age = 1_000 - 5 = 995 > 720
    assert!(ring_buf_twap(&buf, 1_000).is_none());
}

#[test]
fn twap_handles_clock_skew_via_saturating_sub() {
    let mut buf = empty_buf();
    // entry.on_chain_slot > now_slot (impossible but defensive)
    ring_buf_push(
        &mut buf,
        OracleSnapshotEntry {
            p_yes_e6: 500_000,
            source_timestamp: 100,
            on_chain_slot: 1_000,
        },
    );
    // saturating_sub keeps age at 0 (in-window); entry counts
    let twap = ring_buf_twap(&buf, 500).unwrap();
    assert_eq!(twap, 500_000);
}

#[test]
fn twap_full_ring_uniform_average() {
    let mut buf = empty_buf();
    // Push 60 entries with linearly varying p_yes_e6 around 500_000,
    // all within the staleness window of now_slot = 100.
    for i in 0..60u64 {
        ring_buf_push(
            &mut buf,
            OracleSnapshotEntry {
                p_yes_e6: 470_000 + i * 1_000, // 470_000..530_000 in 1_000-bp steps
                source_timestamp: (i as i64) + 1,
                on_chain_slot: i + 1,
            },
        );
    }
    // Average of 470_000..529_000 in 1_000-step linear progression
    // is 470_000 + (59 * 1_000) / 2 = 470_000 + 29_500 = 499_500.
    let twap = ring_buf_twap(&buf, 100).unwrap();
    assert_eq!(twap, 499_500);
}
