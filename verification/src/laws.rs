//! What holds across several operations on a ring.

use vstd::prelude::*;
use crate::lemmas;
use crate::model;
use crate::oracle_ring::{MAX_STALENESS_SLOTS, POLY_CLAMP_HI, POLY_CLAMP_LO, RING_LEN};
use crate::state::OracleSnapshotEntry;

verus! {

// ---------------------------------------------------------------------------
// The bounded domain
// ---------------------------------------------------------------------------

/// Clamping lands in the domain, leaves alone what lies in it, and changes
/// nothing when done again.
pub proof fn lemma_clamp_lands_in_domain(p: u64)
    ensures
        model::in_domain(model::clamped(p)),
        model::in_domain(p) ==> model::clamped(p) == p,
        model::clamped(model::clamped(p)) == model::clamped(p),
{
}

/// Clamping keeps the order of two probabilities.
pub proof fn lemma_clamp_keeps_order(p: u64, q: u64)
    requires
        p <= q,
    ensures
        model::clamped(p) <= model::clamped(q),
{
}

/// A ring whose readings all lie in the domain keeps that under a push of a
/// clamped entry.
pub proof fn lemma_clamped_push_keeps_domain(
    ring: Seq<OracleSnapshotEntry>,
    entry: OracleSnapshotEntry,
)
    requires
        ring.len() == RING_LEN,
        model::ring_in_domain(ring),
    ensures
        model::ring_in_domain(model::pushed(ring, model::clamped_entry(entry))),
{
    let k = lemmas::lemma_oldest_exists(ring);
    let after = model::pushed(ring, model::clamped_entry(entry));
    assert forall|i: int|
        0 <= i < after.len() && (#[trigger] after[i]).written() implies model::in_domain(
        after[i].p_yes_e6,
    ) by {
        if i != k {
            assert(after[i] == ring[i]);
        }
    }
}

/// A ring that only ever received clamped entries holds no reading outside the
/// domain.
pub proof fn lemma_clamped_pushes_stay_in_domain(entries: Seq<OracleSnapshotEntry>)
    ensures
        model::ring_in_domain(
            model::pushed_all(
                model::fresh_ring(),
                entries.map_values(|e: OracleSnapshotEntry| model::clamped_entry(e)),
            ),
        ),
    decreases entries.len(),
{
    let f = |e: OracleSnapshotEntry| model::clamped_entry(e);
    let all = entries.map_values(f);
    if entries.len() > 0 {
        let rest = entries.drop_last();
        lemma_clamped_pushes_stay_in_domain(rest);
        assert(all.drop_last() =~= rest.map_values(f));
        let before = model::pushed_all(model::fresh_ring(), all.drop_last());
        lemmas::lemma_pushed_all_len(model::fresh_ring(), all.drop_last());
        lemma_clamped_push_keeps_domain(before, entries.last());
    }
}

// ---------------------------------------------------------------------------
// The newest reading
// ---------------------------------------------------------------------------

/// A ring that holds a reading has exactly one newest slot, and `latest` reads it.
pub proof fn lemma_newest_slot(ring: Seq<OracleSnapshotEntry>)
    requires
        !model::is_empty(ring),
    ensures
        exists|i: int| model::is_newest(ring, i),
        forall|i: int, j: int| model::is_newest(ring, i) && model::is_newest(ring, j) ==> i == j,
        forall|i: int| #[trigger] model::is_newest(ring, i) ==> model::latest(ring) == Some(ring[i]),
{
    let k = lemmas::lemma_newest_exists(ring);
    lemmas::lemma_newest_is_unique(ring, k);
}

/// A reading with a timestamp above that of the newest one so far is, once pushed,
/// the newest. In an empty ring any reading is.
pub proof fn lemma_last_reads_back_newer_push(
    ring: Seq<OracleSnapshotEntry>,
    entry: OracleSnapshotEntry,
)
    requires
        ring.len() == RING_LEN,
        entry.written(),
        model::latest(ring) matches Some(b) ==> b.source_timestamp < entry.source_timestamp,
    ensures
        model::latest(model::pushed(ring, entry)) == Some(entry),
{
    let k = lemmas::lemma_oldest_exists(ring);
    let after = model::pushed(ring, entry);
    assert forall|j: int|
        0 <= j < after.len() && j != k && (#[trigger] after[j]).written() implies
        after[j].source_timestamp < entry.source_timestamp by {
        assert(after[j] == ring[j]);
        lemmas::lemma_latest_is_largest(ring, j);
    }
    assert(model::is_newest(after, k));
    lemmas::lemma_newest_is_unique(after, k);
}

/// In a ring without negative timestamps the newest timestamp never falls, nor
/// does the newest reading vanish, whatever is pushed.
pub proof fn lemma_last_never_goes_back(
    ring: Seq<OracleSnapshotEntry>,
    entry: OracleSnapshotEntry,
)
    requires
        ring.len() == RING_LEN,
        forall|i: int| 0 <= i < ring.len() ==> (#[trigger] ring[i]).source_timestamp >= 0,
        !model::is_empty(ring),
    ensures
        model::latest(ring) matches Some(b) && model::latest(model::pushed(ring, entry)) matches Some(
            a,
        ) && b.source_timestamp <= a.source_timestamp,
{
    let k = lemmas::lemma_oldest_exists(ring);
    let i = lemmas::lemma_newest_exists(ring);
    let after = model::pushed(ring, entry);
    // Where the newest slot is the one overwritten, all slots share its timestamp.
    let m: int = if i != k {
        i
    } else if k == 0 {
        1
    } else {
        0
    };
    assert(ring[k].source_timestamp <= ring[m].source_timestamp);
    assert(after[m] == ring[m]);
    lemmas::lemma_latest_is_largest(after, m);
}

// ---------------------------------------------------------------------------
// Where pushes land
// ---------------------------------------------------------------------------

/// A ring has exactly one oldest slot, which is the one that a push overwrites.
pub proof fn lemma_oldest_slot(ring: Seq<OracleSnapshotEntry>)
    requires
        ring.len() == RING_LEN,
    ensures
        model::is_oldest(ring, model::oldest_slot(ring)),
        forall|i: int| #[trigger] model::is_oldest(ring, i) ==> i == model::oldest_slot(ring),
{
    let k = lemmas::lemma_oldest_exists(ring);
    lemmas::lemma_oldest_is_unique(ring, k);
}

/// Up to `RING_LEN` pushes fill a fresh ring in slot order, as long as each entry
/// that another follows has a positive timestamp: the entries stand at the front in
/// the order of the pushes, and the slots behind them are unwritten. Where the last
/// entry has a positive timestamp too, the next push goes to the first of those.
pub proof fn lemma_bootstrap_fills_in_order(entries: Seq<OracleSnapshotEntry>)
    requires
        entries.len() <= RING_LEN,
        forall|i: int|
            0 <= i < entries.len() - 1 ==> (#[trigger] entries[i]).source_timestamp > 0,
    ensures
        model::pushed_all(model::fresh_ring(), entries) == entries + model::fresh_ring().skip(
            entries.len() as int,
        ),
        entries.len() < RING_LEN && model::timestamps_positive(entries) ==> model::oldest_slot(
            model::pushed_all(model::fresh_ring(), entries),
        ) == entries.len(),
    decreases entries.len(),
{
    let fresh = model::fresh_ring();
    let n = entries.len() as int;
    let ring = model::pushed_all(fresh, entries);
    if n > 0 {
        let rest = entries.drop_last();
        assert(forall|i: int| 0 <= i < rest.len() ==> #[trigger] rest[i] == entries[i]);
        lemma_bootstrap_fills_in_order(rest);
    }
    assert(ring =~= entries + fresh.skip(n));
    if n < RING_LEN && model::timestamps_positive(entries) {
        assert forall|j: int| 0 <= j < n implies (#[trigger] ring[j]).source_timestamp > 0 by {
            assert(ring[j] == entries[j]);
        }
        assert(forall|j: int| n <= j < RING_LEN ==> #[trigger] ring[j] == fresh[j]);
        assert(model::is_oldest(ring, n));
        lemmas::lemma_oldest_is_unique(ring, n);
    }
}

/// Entries with positive, strictly increasing timestamps rotate through the slots
/// of a fresh ring: push number `k`, from zero, goes to slot `k % RING_LEN`, and the last
/// `RING_LEN` pushes are all still there.
pub proof fn lemma_rotation(entries: Seq<OracleSnapshotEntry>)
    requires
        model::timestamps_positive(entries),
        model::timestamps_increasing(entries),
    ensures
        model::oldest_slot(model::pushed_all(model::fresh_ring(), entries)) == entries.len()
            % RING_LEN as nat,
        forall|k: int|
            0 <= k < entries.len() && entries.len() - RING_LEN <= k ==> model::pushed_all(
                model::fresh_ring(),
                entries,
            )[k % RING_LEN as int] == #[trigger] entries[k],
    decreases entries.len(),
{
    let n = entries.len() as int;
    let len = RING_LEN as int;
    let ring = model::pushed_all(model::fresh_ring(), entries);
    lemmas::lemma_pushed_all_len(model::fresh_ring(), entries);
    if n <= len {
        lemma_bootstrap_fills_in_order(entries);
        assert(forall|k: int| 0 <= k < n ==> ring[k] == #[trigger] entries[k]);
    } else {
        let rest = entries.drop_last();
        assert(forall|i: int| 0 <= i < rest.len() ==> #[trigger] rest[i] == entries[i]);
        lemma_rotation(rest);
        lemmas::lemma_pushed_all_len(model::fresh_ring(), rest);
        let before = model::pushed_all(model::fresh_ring(), rest);
        assert forall|k: int| n - len <= k < n implies ring[k % len] == #[trigger] entries[k] by {
            if k < n - 1 {
                assert(before[k % len] == rest[k]);
                lemmas::lemma_slots_differ(k, n - 1);
            }
        }
    }
    if n >= len {
        lemmas::lemma_oldest_of_rotated(ring, entries);
    }
}

/// After pushes with positive, strictly increasing timestamps into a fresh ring,
/// the newest reading is the last one pushed.
pub proof fn lemma_last_is_last_push(entries: Seq<OracleSnapshotEntry>)
    requires
        entries.len() > 0,
        model::timestamps_positive(entries),
        model::timestamps_increasing(entries),
    ensures
        model::latest(model::pushed_all(model::fresh_ring(), entries)) == Some(entries.last()),
    decreases entries.len(),
{
    let rest = entries.drop_last();
    let before = model::pushed_all(model::fresh_ring(), rest);
    lemmas::lemma_pushed_all_len(model::fresh_ring(), rest);
    if rest.len() > 0 {
        assert(forall|i: int| 0 <= i < rest.len() ==> #[trigger] rest[i] == entries[i]);
        lemma_last_is_last_push(rest);
    } else {
        lemma_fresh_ring_reads_nothing(0);
    }
    lemma_last_reads_back_newer_push(before, entries.last());
}

/// Once full, a ring that received positive, strictly increasing timestamps holds
/// the last `RING_LEN` pushes and nothing else.
pub proof fn lemma_full_ring_holds_last_pushes(entries: Seq<OracleSnapshotEntry>)
    requires
        entries.len() >= RING_LEN,
        model::timestamps_positive(entries),
        model::timestamps_increasing(entries),
    ensures
        model::pushed_all(model::fresh_ring(), entries).to_multiset() == entries.skip(
            entries.len() - RING_LEN,
        ).to_multiset(),
    decreases entries.len(),
{
    let n = entries.len() as int;
    let len = RING_LEN as int;
    let ring = model::pushed_all(model::fresh_ring(), entries);
    if n == len {
        lemma_bootstrap_fills_in_order(entries);
        assert(ring =~= entries);
        assert(entries.skip(0) =~= entries);
    } else {
        let rest = entries.drop_last();
        assert(forall|i: int| 0 <= i < rest.len() ==> #[trigger] rest[i] == entries[i]);
        lemma_full_ring_holds_last_pushes(rest);
        lemma_rotation(rest);
        lemmas::lemma_pushed_all_len(model::fresh_ring(), rest);
        let before = model::pushed_all(model::fresh_ring(), rest);
        let slot = (n - 1) % len;
        let gone = n - 1 - len;
        assert(gone % len == slot);
        assert(before[slot] == rest[gone]);
        vstd::seq_lib::to_multiset_update(before, slot, entries.last());
        let kept = rest.skip(gone);
        vstd::seq_lib::to_multiset_build(kept, entries.last());
        vstd::seq_lib::to_multiset_remove(kept.push(entries.last()), 0);
        assert(entries.skip(n - len) =~= kept.push(entries.last()).remove(0));
    }
}

// ---------------------------------------------------------------------------
// The average
// ---------------------------------------------------------------------------

/// A fresh ring has no newest reading and no average.
pub proof fn lemma_fresh_ring_reads_nothing(now_slot: u64)
    ensures
        model::latest(model::fresh_ring()) is None,
        model::twap(model::fresh_ring(), now_slot) is None,
{
    lemma_twap_is_none_without_current_reading(model::fresh_ring(), now_slot);
}

/// There is no average exactly where no entry lies in the window.
pub proof fn lemma_twap_is_none_without_current_reading(
    ring: Seq<OracleSnapshotEntry>,
    now_slot: u64,
)
    ensures
        model::twap(ring, now_slot) is None <==> forall|i: int|
            0 <= i < ring.len() ==> !model::in_window(#[trigger] ring[i], now_slot),
{
    let w = model::window(ring, now_slot);
    lemmas::lemma_window_members(ring, now_slot);
    if w.len() > 0 {
        assert(ring.contains(w[0]));
    }
}

/// A reading stored at or after `now_slot` has age zero, so it lies in the window.
pub proof fn lemma_reading_from_the_future_counts(entry: OracleSnapshotEntry, now_slot: u64)
    requires
        entry.written(),
        entry.on_chain_slot >= now_slot,
    ensures
        entry.age(now_slot) == 0,
        model::in_window(entry, now_slot),
{
}

/// Entries only leave the window as time passes: one that lies in it later lies in
/// it now, and a ring without an average has none later either.
pub proof fn lemma_window_only_shrinks(
    ring: Seq<OracleSnapshotEntry>,
    now_slot: u64,
    later_slot: u64,
)
    requires
        now_slot <= later_slot,
    ensures
        forall|i: int|
            0 <= i < ring.len() && model::in_window(#[trigger] ring[i], later_slot)
                ==> model::in_window(ring[i], now_slot),
        model::twap(ring, now_slot) is None ==> model::twap(ring, later_slot) is None,
{
    lemma_twap_is_none_without_current_reading(ring, now_slot);
    lemma_twap_is_none_without_current_reading(ring, later_slot);
}

/// After a push of an entry in the window there is an average.
pub proof fn lemma_push_of_current_reading_gives_twap(
    ring: Seq<OracleSnapshotEntry>,
    entry: OracleSnapshotEntry,
    now_slot: u64,
)
    requires
        ring.len() == RING_LEN,
        model::in_window(entry, now_slot),
    ensures
        model::twap(model::pushed(ring, entry), now_slot) is Some,
{
    let k = lemmas::lemma_oldest_exists(ring);
    assert(model::pushed(ring, entry)[k] == entry);
    lemma_twap_is_none_without_current_reading(model::pushed(ring, entry), now_slot);
}

/// Every entry in the window weighs the same: the average does not depend on which
/// slots the entries stand in.
pub proof fn lemma_twap_ignores_order(
    a: Seq<OracleSnapshotEntry>,
    b: Seq<OracleSnapshotEntry>,
    now_slot: u64,
)
    requires
        a.to_multiset() == b.to_multiset(),
    ensures
        model::twap(a, now_slot) == model::twap(b, now_slot),
{
    lemmas::lemma_window_of_permutation(a, b, now_slot);
}

/// What stands in slots outside the window has no influence on the average.
pub proof fn lemma_twap_ignores_entries_outside_window(
    a: Seq<OracleSnapshotEntry>,
    b: Seq<OracleSnapshotEntry>,
    now_slot: u64,
)
    requires
        a.len() == b.len(),
        forall|i: int|
            #![trigger a[i]]
            #![trigger b[i]]
            0 <= i < a.len() ==> a[i] == b[i] || (!model::in_window(a[i], now_slot)
                && !model::in_window(b[i], now_slot)),
    ensures
        model::twap(a, now_slot) == model::twap(b, now_slot),
{
    lemmas::lemma_window_of_equivalent(a, b, now_slot);
}

/// The average lies between the bounds of the probabilities in the window. For the
/// lower bound the sum must fit in `u64`, above which it is held down.
pub proof fn lemma_twap_lies_between_bounds(
    ring: Seq<OracleSnapshotEntry>,
    now_slot: u64,
    lo: u64,
    hi: u64,
)
    requires
        forall|i: int|
            0 <= i < ring.len() && model::in_window(#[trigger] ring[i], now_slot) ==> lo
                <= ring[i].p_yes_e6 <= hi,
    ensures
        model::twap(ring, now_slot) matches Some(t) ==> {
            &&& t <= hi
            &&& model::sum_p(model::window(ring, now_slot)) <= u64::MAX ==> lo <= t
        },
{
    let w = model::window(ring, now_slot);
    lemmas::lemma_window_members(ring, now_slot);
    assert forall|i: int| 0 <= i < w.len() implies lo <= (#[trigger] w[i]).p_yes_e6 <= hi by {
        let k = choose|k: int| 0 <= k < ring.len() && ring[k] == w[i];
        assert(model::in_window(ring[k], now_slot));
    }
    lemmas::lemma_sum_between(w, lo as nat, hi as nat);
    if w.len() > 0 {
        let sum = model::saturated(model::sum_p(w));
        lemmas::lemma_mean_at_most_sum(sum, w.len());
        lemmas::lemma_mean_between(sum, w.len(), lo as nat, hi as nat);
    }
}

/// On a ring whose readings all lie in the domain the sum never saturates, and the
/// average lies in the domain.
pub proof fn lemma_twap_stays_in_domain(ring: Seq<OracleSnapshotEntry>, now_slot: u64)
    requires
        ring.len() == RING_LEN,
        model::ring_in_domain(ring),
    ensures
        model::window(ring, now_slot).len() <= RING_LEN,
        model::sum_p(model::window(ring, now_slot)) <= RING_LEN * POLY_CLAMP_HI,
        model::sum_p(model::window(ring, now_slot)) <= u64::MAX,
        model::twap(ring, now_slot) matches Some(t) ==> model::in_domain(t),
{
    let w = model::window(ring, now_slot);
    lemmas::lemma_window_members(ring, now_slot);
    assert forall|i: int| 0 <= i < w.len() implies POLY_CLAMP_LO <= (#[trigger] w[i]).p_yes_e6
        <= POLY_CLAMP_HI by {
        let k = choose|k: int| 0 <= k < ring.len() && ring[k] == w[i];
        assert(ring[k].written());
    }
    lemmas::lemma_sum_between(w, POLY_CLAMP_LO as nat, POLY_CLAMP_HI as nat);
    assert(POLY_CLAMP_HI * w.len() <= RING_LEN * POLY_CLAMP_HI) by (nonlinear_arith)
        requires
            w.len() <= RING_LEN,
    ;
    lemma_twap_lies_between_bounds(ring, now_slot, POLY_CLAMP_LO, POLY_CLAMP_HI);
}

/// One reading moves the average little: where an entry in the window gives way to
/// another in the window, in a ring whose readings all lie in the domain, the
/// average moves by at most the width of the domain divided by the number of
/// entries in the window, rounded up.
pub proof fn lemma_one_reading_moves_twap_little(
    ring: Seq<OracleSnapshotEntry>,
    slot: int,
    entry: OracleSnapshotEntry,
    now_slot: u64,
)
    requires
        ring.len() == RING_LEN,
        model::ring_in_domain(ring),
        0 <= slot < RING_LEN,
        model::in_window(ring[slot], now_slot),
        model::in_window(entry, now_slot),
        model::in_domain(entry.p_yes_e6),
    ensures
        ({
            let n = model::window(ring, now_slot).len() as int;
            let step = (POLY_CLAMP_HI - POLY_CLAMP_LO + n - 1) / n;
            &&& n > 0
            &&& model::twap(ring, now_slot) matches Some(t) && model::twap(
                ring.update(slot, entry),
                now_slot,
            ) matches Some(u) && -step <= u - t <= step
        }),
{
    let after = ring.update(slot, entry);
    assert forall|i: int|
        0 <= i < after.len() && (#[trigger] after[i]).written() implies model::in_domain(
        after[i].p_yes_e6,
    ) by {
        if i != slot {
            assert(after[i] == ring[i]);
        }
    }
    assert(after.remove(slot) =~= ring.remove(slot));
    lemmas::lemma_window_of_remove(ring, slot, now_slot);
    lemmas::lemma_window_of_remove(after, slot, now_slot);
    lemma_twap_stays_in_domain(ring, now_slot);
    lemma_twap_stays_in_domain(after, now_slot);
    let n = model::window(ring, now_slot).len() as int;
    let x = model::sum_p(model::window(ring, now_slot)) as int;
    let y = model::sum_p(model::window(after, now_slot)) as int;
    let d = POLY_CLAMP_HI - POLY_CLAMP_LO;
    lemmas::lemma_mean_moves_little(x, y, d, n);
    lemmas::lemma_mean_moves_little(y, x, d, n);
    lemmas::lemma_mean_at_most_sum(x as nat, n as nat);
    lemmas::lemma_mean_at_most_sum(y as nat, n as nat);
}

/// After up to `RING_LEN` pushes into a fresh ring, where each entry that another
/// follows has a positive timestamp, the average is that of the entries pushed.
pub proof fn lemma_twap_reads_back_bootstrap_pushes(
    entries: Seq<OracleSnapshotEntry>,
    now_slot: u64,
)
    requires
        entries.len() <= RING_LEN,
        forall|i: int|
            0 <= i < entries.len() - 1 ==> (#[trigger] entries[i]).source_timestamp > 0,
    ensures
        model::twap(model::pushed_all(model::fresh_ring(), entries), now_slot) == model::twap(
            entries,
            now_slot,
        ),
{
    lemma_bootstrap_fills_in_order(entries);
    lemmas::lemma_window_of_unwritten_tail(
        entries,
        model::fresh_ring().skip(entries.len() as int),
        now_slot,
    );
}

/// After `RING_LEN` or more pushes with positive, strictly increasing timestamps into a fresh
/// ring, the average is that of the last `RING_LEN` entries pushed.
pub proof fn lemma_twap_reads_back_last_pushes(
    entries: Seq<OracleSnapshotEntry>,
    now_slot: u64,
)
    requires
        entries.len() >= RING_LEN,
        model::timestamps_positive(entries),
        model::timestamps_increasing(entries),
    ensures
        model::twap(model::pushed_all(model::fresh_ring(), entries), now_slot) == model::twap(
            entries.skip(entries.len() - RING_LEN),
            now_slot,
        ),
{
    lemma_full_ring_holds_last_pushes(entries);
    lemma_twap_ignores_order(
        model::pushed_all(model::fresh_ring(), entries),
        entries.skip(entries.len() - RING_LEN),
        now_slot,
    );
}

// ---------------------------------------------------------------------------
// The operations in terms of the fields alone
// ---------------------------------------------------------------------------

/// The limits: a ring of 60 slots, a domain from 1% to 99% that is its own mirror
/// image, and a window of 720 chain slots, which is twelve for each slot of the ring.
pub proof fn lemma_limits()
    ensures
        RING_LEN == 60,
        POLY_CLAMP_LO == 10_000,
        POLY_CLAMP_HI == 990_000,
        POLY_CLAMP_LO + POLY_CLAMP_HI == 1_000_000,
        MAX_STALENESS_SLOTS == 720,
        MAX_STALENESS_SLOTS == 12 * RING_LEN,
{
}

/// No probability in the domain is closer to `p` than what clamping makes of `p`.
pub proof fn lemma_clamp_is_nearest_in_domain(p: u64, q: u64)
    requires
        POLY_CLAMP_LO <= q <= POLY_CLAMP_HI,
    ensures
        POLY_CLAMP_LO <= model::clamped(p) <= POLY_CLAMP_HI,
        p <= q ==> p <= model::clamped(p) <= q || model::clamped(p) == p,
        q <= p ==> q <= model::clamped(p) <= p || model::clamped(p) == p,
{
}

/// Clamping treats the two outcomes alike: the clamped probability of NO is the
/// complement of the clamped probability of YES.
pub proof fn lemma_clamp_is_symmetric(p: u64)
    requires
        p <= 1_000_000,
    ensures
        model::clamped((1_000_000 - p) as u64) == 1_000_000 - model::clamped(p),
{
}

/// Clamping an entry leaves its timestamp and chain slot alone.
pub proof fn lemma_clamp_changes_probability_alone(entry: OracleSnapshotEntry)
    ensures
        model::clamped_entry(entry).source_timestamp == entry.source_timestamp,
        model::clamped_entry(entry).on_chain_slot == entry.on_chain_slot,
        model::clamped_entry(entry).p_yes_e6 == model::clamped(entry.p_yes_e6),
{
}

/// The newest reading is one of the ring with a timestamp other than zero, none of
/// which has a larger one; there is none exactly where all timestamps are zero. Of
/// several it is the one in the lowest slot.
pub proof fn lemma_last_by_timestamps(ring: Seq<OracleSnapshotEntry>)
    ensures
        model::latest(ring) is None <==> forall|j: int|
            0 <= j < ring.len() ==> (#[trigger] ring[j]).source_timestamp == 0,
        forall|i: int|
            0 <= i < ring.len() && (#[trigger] ring[i]).source_timestamp != 0 && (forall|j: int|
                0 <= j < ring.len() && (#[trigger] ring[j]).source_timestamp != 0
                    ==> ring[j].source_timestamp <= ring[i].source_timestamp) && (forall|j: int|
                0 <= j < i && (#[trigger] ring[j]).source_timestamp != 0
                    ==> ring[j].source_timestamp < ring[i].source_timestamp)
                ==> model::latest(ring) == Some(ring[i]),
{
    assert forall|i: int|
        0 <= i < ring.len() && (#[trigger] ring[i]).source_timestamp != 0 && (forall|j: int|
            0 <= j < ring.len() && (#[trigger] ring[j]).source_timestamp != 0
                ==> ring[j].source_timestamp <= ring[i].source_timestamp) && (forall|j: int|
            0 <= j < i && (#[trigger] ring[j]).source_timestamp != 0
                ==> ring[j].source_timestamp < ring[i].source_timestamp) implies model::latest(ring)
        == Some(ring[i]) by {
        assert(model::is_newest(ring, i));
        lemmas::lemma_newest_is_unique(ring, i);
    }
    if !model::is_empty(ring) {
        let k = lemmas::lemma_newest_exists(ring);
        assert(ring[k].source_timestamp != 0);
    } else {
        assert forall|j: int| 0 <= j < ring.len() implies (
        #[trigger] ring[j]).source_timestamp == 0 by {
            assert(!ring[j].written());
        }
    }
}

/// A push puts the entry, as it is, in the lowest slot that has no smaller
/// timestamp beside it, and touches no other slot.
pub proof fn lemma_push_by_timestamps(
    ring: Seq<OracleSnapshotEntry>,
    entry: OracleSnapshotEntry,
    slot: int,
)
    requires
        ring.len() == RING_LEN,
        0 <= slot < RING_LEN,
        forall|j: int|
            0 <= j < RING_LEN ==> ring[slot].source_timestamp <= (
            #[trigger] ring[j]).source_timestamp,
        forall|j: int|
            0 <= j < slot ==> ring[slot].source_timestamp < (#[trigger] ring[j]).source_timestamp,
    ensures
        model::oldest_slot(ring) == slot,
        model::pushed(ring, entry).len() == RING_LEN,
        model::pushed(ring, entry)[slot] == entry,
        forall|j: int|
            0 <= j < RING_LEN && j != slot ==> (#[trigger] model::pushed(ring, entry)[j])
                == ring[j],
{
    assert(model::is_oldest(ring, slot));
    lemmas::lemma_oldest_is_unique(ring, slot);
}

/// Every field of every slot of a fresh ring is zero.
pub proof fn lemma_fresh_ring_is_zero(i: int)
    requires
        0 <= i < RING_LEN,
    ensures
        model::fresh_ring().len() == RING_LEN,
        model::fresh_ring()[i].p_yes_e6 == 0,
        model::fresh_ring()[i].source_timestamp == 0,
        model::fresh_ring()[i].on_chain_slot == 0,
{
}

/// Pushes happen one after another.
pub proof fn lemma_pushes_follow_each_other(
    ring: Seq<OracleSnapshotEntry>,
    entries: Seq<OracleSnapshotEntry>,
    entry: OracleSnapshotEntry,
)
    ensures
        model::pushed_all(ring, Seq::empty()) == ring,
        model::pushed_all(ring, entries.push(entry)) == model::pushed(
            model::pushed_all(ring, entries),
            entry,
        ),
{
    assert(entries.push(entry).drop_last() =~= entries);
}

/// No reading older than the limit counts: where every slot is unwritten or was
/// stored more than `MAX_STALENESS_SLOTS` chain slots before `now_slot`, there is no
/// average.
pub proof fn lemma_stale_readings_give_no_twap(ring: Seq<OracleSnapshotEntry>, now_slot: u64)
    requires
        forall|i: int|
            0 <= i < ring.len() ==> (#[trigger] ring[i]).source_timestamp == 0
                || ring[i].on_chain_slot + MAX_STALENESS_SLOTS < now_slot,
    ensures
        model::twap(ring, now_slot) is None,
{
    lemma_twap_is_none_without_current_reading(ring, now_slot);
}

/// Every fresh reading counts: a ring that holds one, with whatever probability and
/// at whatever chain slot up to the limit before `now_slot`, has an average.
pub proof fn lemma_fresh_reading_gives_twap(
    ring: Seq<OracleSnapshotEntry>,
    slot: int,
    now_slot: u64,
)
    requires
        0 <= slot < ring.len(),
        ring[slot].source_timestamp != 0,
        now_slot <= ring[slot].on_chain_slot + MAX_STALENESS_SLOTS,
    ensures
        model::twap(ring, now_slot) is Some,
{
    assert(model::in_window(ring[slot], now_slot));
    lemma_twap_is_none_without_current_reading(ring, now_slot);
}

/// Exchanging unwritten and stale entries for other such entries leaves the average
/// as it was.
pub proof fn lemma_stale_readings_have_no_say(
    a: Seq<OracleSnapshotEntry>,
    b: Seq<OracleSnapshotEntry>,
    now_slot: u64,
)
    requires
        a.len() == b.len(),
        forall|i: int|
            #![trigger a[i]]
            #![trigger b[i]]
            0 <= i < a.len() ==> a[i] == b[i] || {
                &&& a[i].source_timestamp == 0 || a[i].on_chain_slot + MAX_STALENESS_SLOTS
                    < now_slot
                &&& b[i].source_timestamp == 0 || b[i].on_chain_slot + MAX_STALENESS_SLOTS
                    < now_slot
            },
    ensures
        model::twap(a, now_slot) == model::twap(b, now_slot),
{
    lemma_twap_ignores_entries_outside_window(a, b, now_slot);
}

/// The average is the mean of the fresh readings, rounded down. However a ring's
/// entries are parted into fresh ones and others, with `n` fresh ones whose
/// probabilities add up to `sum`, the average `t` is the number with
/// `t * n <= sum < (t + 1) * n`, the sum being held down to the largest `u64`.
pub proof fn lemma_twap_is_mean_of_fresh_readings(
    ring: Seq<OracleSnapshotEntry>,
    fresh: Seq<OracleSnapshotEntry>,
    others: Seq<OracleSnapshotEntry>,
    now_slot: u64,
)
    requires
        ring.to_multiset() == (fresh + others).to_multiset(),
        fresh.len() > 0,
        forall|i: int|
            0 <= i < fresh.len() ==> (#[trigger] fresh[i]).source_timestamp != 0 && now_slot
                <= fresh[i].on_chain_slot + MAX_STALENESS_SLOTS,
        forall|i: int|
            0 <= i < others.len() ==> (#[trigger] others[i]).source_timestamp == 0
                || others[i].on_chain_slot + MAX_STALENESS_SLOTS < now_slot,
    ensures
        ({
            let sum = fresh.fold_left(
                0int,
                |acc: int, e: OracleSnapshotEntry| acc + e.p_yes_e6,
            );
            let held = if sum <= u64::MAX {
                sum
            } else {
                u64::MAX as int
            };
            model::twap(ring, now_slot) matches Some(t) && t * fresh.len() <= held < (t + 1)
                * fresh.len()
        }),
{
    assert(forall|i: int|
        0 <= i < fresh.len() ==> model::in_window(#[trigger] fresh[i], now_slot));
    assert(forall|i: int|
        0 <= i < others.len() ==> !model::in_window(#[trigger] others[i], now_slot));
    lemmas::lemma_window_of_permutation(ring, fresh + others, now_slot);
    lemmas::lemma_window_of_outside_tail(fresh, others, now_slot);
    lemmas::lemma_window_of_current(fresh, now_slot);
    lemmas::lemma_sum_is_fold(fresh);
    let n = fresh.len();
    let held = model::saturated(model::sum_p(fresh));
    lemmas::lemma_mean_at_most_sum(held, n);
    let t = held / n;
    assert(t * n <= held < (t + 1) * n) by (nonlinear_arith)
        requires
            n > 0,
            t == held / n,
    ;
}

/// A reading that is the only fresh one is the average.
pub proof fn lemma_twap_of_single_fresh_reading(
    ring: Seq<OracleSnapshotEntry>,
    slot: int,
    now_slot: u64,
)
    requires
        0 <= slot < ring.len(),
        ring[slot].source_timestamp != 0,
        now_slot <= ring[slot].on_chain_slot + MAX_STALENESS_SLOTS,
        forall|i: int|
            0 <= i < ring.len() && i != slot ==> (#[trigger] ring[i]).source_timestamp == 0
                || ring[i].on_chain_slot + MAX_STALENESS_SLOTS < now_slot,
    ensures
        model::twap(ring, now_slot) == Some(ring[slot].p_yes_e6),
{
    let p = ring[slot].p_yes_e6;
    let rest = ring.remove(slot);
    assert forall|i: int| 0 <= i < rest.len() implies !model::in_window(
        #[trigger] rest[i],
        now_slot,
    ) by {
        let j = if i < slot {
            i
        } else {
            i + 1
        };
        assert(rest[i] == ring[j]);
    }
    lemmas::lemma_window_of_outside_tail(Seq::empty(), rest, now_slot);
    assert(Seq::empty() + rest =~= rest);
    lemmas::lemma_window_of_none(now_slot);
    lemmas::lemma_window_of_remove(ring, slot, now_slot);
    assert(model::in_window(ring[slot], now_slot));
    let w = model::window(ring, now_slot);
    assert(w.len() == 1 && model::sum_p(w) == p);
    assert(p as nat / 1 == p);
}

/// Each fresh reading is in the average, whatever its probability: raising one by
/// `d` raises the average by at least `d / RING_LEN` and at most `d`, as long as the
/// sum still fits.
pub proof fn lemma_every_fresh_reading_moves_twap(
    ring: Seq<OracleSnapshotEntry>,
    slot: int,
    d: u64,
    now_slot: u64,
)
    requires
        ring.len() == RING_LEN,
        0 <= slot < RING_LEN,
        ring[slot].source_timestamp != 0,
        now_slot <= ring[slot].on_chain_slot + MAX_STALENESS_SLOTS,
        forall|i: int|
            0 <= i < RING_LEN ==> (#[trigger] ring[i]).p_yes_e6 <= u64::MAX / RING_LEN as u64,
        ring[slot].p_yes_e6 + d <= u64::MAX / RING_LEN as u64,
    ensures
        ({
            let raised = OracleSnapshotEntry {
                p_yes_e6: (ring[slot].p_yes_e6 + d) as u64,
                ..ring[slot]
            };
            model::twap(ring, now_slot) matches Some(t) && model::twap(
                ring.update(slot, raised),
                now_slot,
            ) matches Some(u) && t + d / RING_LEN as u64 <= u <= t + d
        }),
{
    let raised = OracleSnapshotEntry { p_yes_e6: (ring[slot].p_yes_e6 + d) as u64, ..ring[slot] };
    let after = ring.update(slot, raised);
    let top = u64::MAX / RING_LEN as u64;
    assert(model::in_window(ring[slot], now_slot) && model::in_window(raised, now_slot));
    assert(after.remove(slot) =~= ring.remove(slot));
    lemmas::lemma_window_of_remove(ring, slot, now_slot);
    lemmas::lemma_window_of_remove(after, slot, now_slot);
    lemmas::lemma_window_members(after, now_slot);
    let wa = model::window(after, now_slot);
    assert forall|i: int| 0 <= i < wa.len() implies (#[trigger] wa[i]).p_yes_e6 <= top by {
        let k = choose|k: int| 0 <= k < after.len() && after[k] == wa[i];
        if k != slot {
            assert(after[k] == ring[k]);
        }
    }
    lemmas::lemma_sum_fits(wa);
    let n = wa.len();
    let x = model::sum_p(model::window(ring, now_slot));
    let y = model::sum_p(wa);
    assert(y == x + d && y <= u64::MAX);
    lemmas::lemma_mean_at_most_sum(x, n);
    lemmas::lemma_mean_at_most_sum(y, n);
    lemmas::lemma_mean_rises(x as int, d as int, n as int, RING_LEN as int);
}

/// Raising every fresh reading by `k` raises the average by exactly `k`, as long as
/// the sum still fits.
pub proof fn lemma_raising_all_readings_raises_twap(
    a: Seq<OracleSnapshotEntry>,
    b: Seq<OracleSnapshotEntry>,
    k: u64,
    now_slot: u64,
)
    requires
        a.len() == RING_LEN,
        b.len() == RING_LEN,
        forall|i: int|
            #![trigger a[i]]
            #![trigger b[i]]
            0 <= i < RING_LEN ==> {
                &&& b[i].source_timestamp == a[i].source_timestamp
                &&& b[i].on_chain_slot == a[i].on_chain_slot
                &&& b[i].p_yes_e6 == a[i].p_yes_e6 + k
                &&& b[i].p_yes_e6 <= u64::MAX / RING_LEN as u64
            },
    ensures
        model::twap(a, now_slot) is None <==> model::twap(b, now_slot) is None,
        model::twap(a, now_slot) matches Some(t) ==> model::twap(b, now_slot) matches Some(u) && u
            == t + k,
{
    let (wa, wb) = (model::window(a, now_slot), model::window(b, now_slot));
    let top = u64::MAX / RING_LEN as u64;
    lemmas::lemma_window_of_parallel(a, now_slot, b, now_slot, k as nat);
    lemmas::lemma_window_members(b, now_slot);
    assert forall|i: int| 0 <= i < wb.len() implies (#[trigger] wb[i]).p_yes_e6 <= top by {
        let j = choose|j: int| 0 <= j < b.len() && b[j] == wb[i];
    }
    lemmas::lemma_sum_fits(wb);
    let n = wb.len();
    let x = model::sum_p(wa);
    let y = model::sum_p(wb);
    assert(0 <= k * n) by (nonlinear_arith);
    if n > 0 {
        lemmas::lemma_mean_at_most_sum(x, n);
        lemmas::lemma_mean_at_most_sum(y, n);
        vstd::arithmetic::div_mod::lemma_hoist_over_denominator(x as int, k as int, n);
    }
}

/// Age alone decides which readings count: where every reading was stored `d` chain
/// slots later, the average is the same `d` chain slots later.
pub proof fn lemma_twap_depends_on_age_alone(
    a: Seq<OracleSnapshotEntry>,
    b: Seq<OracleSnapshotEntry>,
    d: u64,
    now_slot: u64,
)
    requires
        a.len() == b.len(),
        now_slot + d <= u64::MAX,
        forall|i: int|
            #![trigger a[i]]
            #![trigger b[i]]
            0 <= i < a.len() ==> {
                &&& b[i].source_timestamp == a[i].source_timestamp
                &&& b[i].p_yes_e6 == a[i].p_yes_e6
                &&& b[i].on_chain_slot == a[i].on_chain_slot + d
            },
    ensures
        model::twap(b, (now_slot + d) as u64) == model::twap(a, now_slot),
{
    lemmas::lemma_window_of_parallel(a, now_slot, b, (now_slot + d) as u64, 0);
    assert(0 * model::window(a, now_slot).len() == 0);
}

/// Of a timestamp the average asks only whether it is zero.
pub proof fn lemma_twap_asks_only_whether_written(
    a: Seq<OracleSnapshotEntry>,
    b: Seq<OracleSnapshotEntry>,
    now_slot: u64,
)
    requires
        a.len() == b.len(),
        forall|i: int|
            #![trigger a[i]]
            #![trigger b[i]]
            0 <= i < a.len() ==> {
                &&& (b[i].source_timestamp == 0 <==> a[i].source_timestamp == 0)
                &&& b[i].p_yes_e6 == a[i].p_yes_e6
                &&& b[i].on_chain_slot == a[i].on_chain_slot
            },
    ensures
        model::twap(b, now_slot) == model::twap(a, now_slot),
{
    lemmas::lemma_window_of_parallel(a, now_slot, b, now_slot, 0);
    assert(0 * model::window(a, now_slot).len() == 0);
}

} // verus!
