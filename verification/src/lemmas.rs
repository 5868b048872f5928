//! Facts about the model that the contracts and the laws are proved from.

use vstd::prelude::*;
use crate::model;
use crate::oracle_ring::RING_LEN;
use crate::state::OracleSnapshotEntry;

verus! {

/// A ring that holds a reading has a newest slot.
pub(crate) proof fn lemma_newest_exists(ring: Seq<OracleSnapshotEntry>) -> (i: int)
    requires
        !model::is_empty(ring),
    ensures
        model::is_newest(ring, i),
        model::latest(ring) == Some(ring[i]),
    decreases ring.len(),
{
    let rest = ring.drop_last();
    let n = ring.len() - 1;
    let i = if model::is_empty(rest) {
        assert forall|j: int| 0 <= j < n implies !(#[trigger] ring[j]).written() by {
            assert(rest[j] == ring[j]);
        }
        n
    } else {
        let k = lemma_newest_exists(rest);
        assert forall|j: int| 0 <= j < n && (#[trigger] ring[j]).written() implies {
            &&& ring[j].source_timestamp <= ring[k].source_timestamp
            &&& j < k ==> ring[j].source_timestamp < ring[k].source_timestamp
        } by {
            assert(rest[j] == ring[j]);
        }
        if ring[n].written() && ring[n].source_timestamp > ring[k].source_timestamp {
            n
        } else {
            k
        }
    };
    lemma_newest_is_unique(ring, i);
    i
}

/// A ring has at most one newest slot, and `latest` reads it.
pub(crate) proof fn lemma_newest_is_unique(ring: Seq<OracleSnapshotEntry>, i: int)
    requires
        model::is_newest(ring, i),
    ensures
        forall|j: int| model::is_newest(ring, j) ==> i == j,
        model::latest(ring) == Some(ring[i]),
{
    assert forall|j: int| model::is_newest(ring, j) implies i == j by {
        assert(ring[i].written() && ring[j].written());
    }
    assert(!model::is_empty(ring));
}

/// A ring with slots has an oldest one.
pub(crate) proof fn lemma_oldest_exists(ring: Seq<OracleSnapshotEntry>) -> (i: int)
    requires
        ring.len() > 0,
    ensures
        model::is_oldest(ring, i),
        model::oldest_slot(ring) == i,
    decreases ring.len(),
{
    let n = ring.len() - 1;
    let i = if n == 0 {
        0
    } else {
        let rest = ring.drop_last();
        let k = lemma_oldest_exists(rest);
        assert forall|j: int| 0 <= j < n implies {
            &&& ring[k].source_timestamp <= (#[trigger] ring[j]).source_timestamp
            &&& j < k ==> ring[k].source_timestamp < ring[j].source_timestamp
        } by {
            assert(rest[j] == ring[j]);
        }
        if ring[n].source_timestamp < ring[k].source_timestamp {
            n
        } else {
            k
        }
    };
    lemma_oldest_is_unique(ring, i);
    i
}

/// A ring has at most one oldest slot, and `oldest_slot` is it.
pub(crate) proof fn lemma_oldest_is_unique(ring: Seq<OracleSnapshotEntry>, i: int)
    requires
        model::is_oldest(ring, i),
    ensures
        forall|j: int| model::is_oldest(ring, j) ==> i == j,
        model::oldest_slot(ring) == i,
{
    assert forall|j: int| model::is_oldest(ring, j) implies i == j by {
        assert(ring[i].source_timestamp <= ring[j].source_timestamp);
        assert(ring[j].source_timestamp <= ring[i].source_timestamp);
    }
}

/// No reading is newer than the latest one.
pub(crate) proof fn lemma_latest_is_largest(ring: Seq<OracleSnapshotEntry>, i: int)
    requires
        0 <= i < ring.len(),
        ring[i].written(),
    ensures
        model::latest(ring) matches Some(b) && b.written() && ring[i].source_timestamp
            <= b.source_timestamp,
{
    let k = lemma_newest_exists(ring);
}

/// Pushes keep the number of slots.
pub(crate) proof fn lemma_pushed_all_len(
    ring: Seq<OracleSnapshotEntry>,
    entries: Seq<OracleSnapshotEntry>,
)
    requires
        ring.len() > 0,
    ensures
        model::pushed_all(ring, entries).len() == ring.len(),
    decreases entries.len(),
{
    if entries.len() > 0 {
        lemma_pushed_all_len(ring, entries.drop_last());
        let k = lemma_oldest_exists(model::pushed_all(ring, entries.drop_last()));
    }
}

/// Two pushes less than a round apart go to different slots.
pub(crate) proof fn lemma_slots_differ(j: int, k: int)
    requires
        0 <= j < k < j + RING_LEN,
    ensures
        j % RING_LEN as int != k % RING_LEN as int,
{
}

/// Of the last round of pushes, exactly one went to slot `j`.
pub(crate) proof fn lemma_push_of_slot(n: int, j: int) -> (k: int)
    requires
        RING_LEN <= n,
        0 <= j < RING_LEN,
    ensures
        n - RING_LEN <= k < n,
        k % RING_LEN as int == j,
{
    n - RING_LEN + (j - n) % RING_LEN as int
}

/// Where the last round of pushes, with increasing timestamps, stands in its slots,
/// the slot of the first of them is the oldest.
pub(crate) proof fn lemma_oldest_of_rotated(
    ring: Seq<OracleSnapshotEntry>,
    entries: Seq<OracleSnapshotEntry>,
)
    requires
        ring.len() == RING_LEN,
        entries.len() >= RING_LEN,
        model::timestamps_increasing(entries),
        forall|k: int|
            0 <= k < entries.len() && entries.len() - RING_LEN <= k ==> ring[k % RING_LEN as int]
                == #[trigger] entries[k],
    ensures
        model::oldest_slot(ring) == entries.len() % RING_LEN as nat,
{
    let n = entries.len() as int;
    let first = n - RING_LEN;
    let s = n % RING_LEN as int;
    assert(first % RING_LEN as int == s);
    assert(ring[s] == entries[first]);
    assert forall|j: int| 0 <= j < RING_LEN && j != s implies ring[s].source_timestamp < (
    #[trigger] ring[j]).source_timestamp by {
        let k = lemma_push_of_slot(n, j);
        assert(ring[j] == entries[k]);
        assert(first < k);
    }
    assert(model::is_oldest(ring, s));
    lemma_oldest_is_unique(ring, s);
}

/// The window of no entries is empty.
pub(crate) proof fn lemma_window_of_none(now_slot: u64)
    ensures
        model::window(Seq::empty(), now_slot) == Seq::<OracleSnapshotEntry>::empty(),
{
    reveal(Seq::filter);
}

/// One entry more adds itself to the window, or nothing.
pub(crate) proof fn lemma_window_of_push(
    entries: Seq<OracleSnapshotEntry>,
    entry: OracleSnapshotEntry,
    now_slot: u64,
)
    ensures
        model::window(entries.push(entry), now_slot) == (if model::in_window(entry, now_slot) {
            model::window(entries, now_slot).push(entry)
        } else {
            model::window(entries, now_slot)
        }),
        model::sum_p(model::window(entries.push(entry), now_slot)) == model::sum_p(
            model::window(entries, now_slot),
        ) + window_share(entry, now_slot),
{
    reveal(Seq::filter);
    assert(entries.push(entry).drop_last() =~= entries);
    let w = model::window(entries, now_slot);
    assert(w.push(entry).drop_last() =~= w);
}

/// What one entry adds to the sum over the window.
pub(crate) open spec fn window_share(entry: OracleSnapshotEntry, now_slot: u64) -> nat {
    if model::in_window(entry, now_slot) {
        entry.p_yes_e6 as nat
    } else {
        0
    }
}

/// What one entry adds to the size of the window.
pub(crate) open spec fn window_weight(entry: OracleSnapshotEntry, now_slot: u64) -> nat {
    if model::in_window(entry, now_slot) {
        1
    } else {
        0
    }
}

/// The window without entry `k`: its size and its sum lack that entry's part.
pub(crate) proof fn lemma_window_of_remove(
    entries: Seq<OracleSnapshotEntry>,
    k: int,
    now_slot: u64,
)
    requires
        0 <= k < entries.len(),
    ensures
        model::window(entries, now_slot).len() == model::window(entries.remove(k), now_slot).len()
            + window_weight(entries[k], now_slot),
        model::sum_p(model::window(entries, now_slot)) == model::sum_p(
            model::window(entries.remove(k), now_slot),
        ) + window_share(entries[k], now_slot),
    decreases entries.len(),
{
    let n = entries.len() - 1;
    let rest = entries.drop_last();
    assert(entries =~= rest.push(entries[n]));
    lemma_window_of_push(rest, entries[n], now_slot);
    if k == n {
        assert(entries.remove(k) =~= rest);
    } else {
        lemma_window_of_remove(rest, k, now_slot);
        assert(entries.remove(k) =~= rest.remove(k).push(entries[n]));
        lemma_window_of_push(rest.remove(k), entries[n], now_slot);
    }
}

/// Where all probabilities lie in a range, so does their sum, by the range times
/// the number of entries.
pub(crate) proof fn lemma_sum_between(entries: Seq<OracleSnapshotEntry>, lo: nat, hi: nat)
    requires
        forall|i: int| 0 <= i < entries.len() ==> lo <= (#[trigger] entries[i]).p_yes_e6 <= hi,
    ensures
        lo * entries.len() <= model::sum_p(entries) <= hi * entries.len(),
    decreases entries.len(),
{
    if entries.len() > 0 {
        let rest = entries.drop_last();
        assert forall|i: int| 0 <= i < rest.len() implies lo <= (#[trigger] rest[i]).p_yes_e6
            <= hi by {
            assert(rest[i] == entries[i]);
        }
        lemma_sum_between(rest, lo, hi);
        let m = rest.len();
        assert(lo * (m + 1) == lo * m + lo) by (nonlinear_arith);
        assert(hi * (m + 1) == hi * m + hi) by (nonlinear_arith);
    }
}

/// A ring's worth of probabilities, each at most its share of the largest `u64`, has
/// a sum that fits.
pub(crate) proof fn lemma_sum_fits(entries: Seq<OracleSnapshotEntry>)
    requires
        entries.len() <= RING_LEN,
        forall|i: int|
            0 <= i < entries.len() ==> (#[trigger] entries[i]).p_yes_e6 <= u64::MAX
                / RING_LEN as u64,
    ensures
        model::sum_p(entries) <= u64::MAX,
{
    let top: nat = (u64::MAX / RING_LEN as u64) as nat;
    let n = entries.len();
    lemma_sum_between(entries, 0, top);
    assert(top * n <= top * RING_LEN as nat) by (nonlinear_arith)
        requires
            n <= RING_LEN,
    ;
    assert(top == 0xffff_ffff_ffff_ffffnat / 60);
    assert(top * 60 <= u64::MAX);
}

/// What the window holds, it has from the entries; and it is no longer than they.
pub(crate) proof fn lemma_window_members(entries: Seq<OracleSnapshotEntry>, now_slot: u64)
    ensures
        model::window(entries, now_slot).len() <= entries.len(),
        forall|i: int|
            0 <= i < model::window(entries, now_slot).len() ==> {
                &&& model::in_window(#[trigger] model::window(entries, now_slot)[i], now_slot)
                &&& entries.contains(model::window(entries, now_slot)[i])
            },
        forall|i: int|
            0 <= i < entries.len() && model::in_window(#[trigger] entries[i], now_slot)
                ==> model::window(entries, now_slot).contains(entries[i]),
    decreases entries.len(),
{
    let w = model::window(entries, now_slot);
    if entries.len() == 0 {
        assert(entries =~= Seq::empty());
        lemma_window_of_none(now_slot);
    } else {
        let n = entries.len() - 1;
        let rest = entries.drop_last();
        let wr = model::window(rest, now_slot);
        assert(entries =~= rest.push(entries[n]));
        lemma_window_of_push(rest, entries[n], now_slot);
        lemma_window_members(rest, now_slot);
        assert forall|i: int| 0 <= i < w.len() implies model::in_window(#[trigger] w[i], now_slot)
            && entries.contains(w[i]) by {
            if i < wr.len() {
                assert(w[i] == wr[i]);
                let k = choose|k: int| 0 <= k < rest.len() && rest[k] == wr[i];
                assert(entries[k] == w[i]);
            } else {
                assert(w[i] == entries[n]);
            }
        }
        assert forall|i: int|
            0 <= i < entries.len() && model::in_window(
                #[trigger] entries[i],
                now_slot,
            ) implies w.contains(entries[i]) by {
            if i < n {
                assert(rest[i] == entries[i]);
                let k = choose|k: int| 0 <= k < wr.len() && wr[k] == entries[i];
                assert(w[k] == entries[i]);
            } else {
                assert(w[w.len() - 1] == entries[i]);
            }
        }
    }
}

/// The size of the window and its sum depend on the entries, not on their order.
pub(crate) proof fn lemma_window_of_permutation(
    a: Seq<OracleSnapshotEntry>,
    b: Seq<OracleSnapshotEntry>,
    now_slot: u64,
)
    requires
        a.to_multiset() == b.to_multiset(),
    ensures
        model::window(a, now_slot).len() == model::window(b, now_slot).len(),
        model::sum_p(model::window(a, now_slot)) == model::sum_p(model::window(b, now_slot)),
    decreases a.len(),
{
    a.to_multiset_ensures();
    b.to_multiset_ensures();
    if a.len() == 0 {
        assert(a =~= b);
    } else {
        let n = a.len() - 1;
        assert(a.contains(a[n]));
        assert(b.to_multiset().count(a[n]) > 0);
        let k = choose|k: int| 0 <= k < b.len() && b[k] == a[n];
        lemma_window_of_permutation(a.remove(n), b.remove(k), now_slot);
        lemma_window_of_remove(a, n, now_slot);
        lemma_window_of_remove(b, k, now_slot);
    }
}

/// Entries outside the window may be exchanged for others outside it.
pub(crate) proof fn lemma_window_of_equivalent(
    a: Seq<OracleSnapshotEntry>,
    b: Seq<OracleSnapshotEntry>,
    now_slot: u64,
)
    requires
        a.len() == b.len(),
        forall|i: int|
            #![trigger a[i]]
            #![trigger b[i]]
            0 <= i < a.len() ==> a[i] == b[i] || (!model::in_window(a[i], now_slot)
                && !model::in_window(b[i], now_slot)),
    ensures
        model::window(a, now_slot) == model::window(b, now_slot),
    decreases a.len(),
{
    if a.len() == 0 {
        assert(a =~= b);
    } else {
        let (ra, rb) = (a.drop_last(), b.drop_last());
        assert(forall|i: int|
            #![trigger ra[i]]
            #![trigger rb[i]]
            0 <= i < ra.len() ==> ra[i] == a[i] && rb[i] == b[i]);
        lemma_window_of_equivalent(ra, rb, now_slot);
        assert(a =~= ra.push(a.last()));
        assert(b =~= rb.push(b.last()));
        lemma_window_of_push(ra, a.last(), now_slot);
        lemma_window_of_push(rb, b.last(), now_slot);
    }
}

/// Unwritten slots behind the entries add nothing to the window.
pub(crate) proof fn lemma_window_of_unwritten_tail(
    entries: Seq<OracleSnapshotEntry>,
    tail: Seq<OracleSnapshotEntry>,
    now_slot: u64,
)
    requires
        model::is_empty(tail),
    ensures
        model::window(entries + tail, now_slot) == model::window(entries, now_slot),
    decreases tail.len(),
{
    if tail.len() == 0 {
        assert(entries + tail =~= entries);
    } else {
        let rest = tail.drop_last();
        assert(forall|i: int| 0 <= i < rest.len() ==> #[trigger] rest[i] == tail[i]);
        assert(entries + tail =~= (entries + rest).push(tail.last()));
        lemma_window_of_unwritten_tail(entries, rest, now_slot);
        lemma_window_of_push(entries + rest, tail.last(), now_slot);
    }
}

/// A mean is no larger than its sum.
pub(crate) proof fn lemma_mean_at_most_sum(sum: nat, n: nat)
    requires
        n > 0,
    ensures
        sum / n <= sum,
{
    assert(sum / n <= sum) by (nonlinear_arith)
        requires
            n > 0,
    ;
}

/// A mean lies between the bounds that its sum has by the count.
pub(crate) proof fn lemma_mean_between(sum: nat, n: nat, lo: nat, hi: nat)
    requires
        n > 0,
    ensures
        sum <= hi * n ==> sum / n <= hi,
        lo * n <= sum ==> lo <= sum / n,
{
    if sum <= hi * n {
        assert(sum / n <= hi) by (nonlinear_arith)
            requires
                n > 0,
                sum <= hi * n,
        ;
    }
    if lo * n <= sum {
        assert(lo <= sum / n) by (nonlinear_arith)
            requires
                n > 0,
                lo * n <= sum,
        ;
    }
}

/// Division by a fixed count grows by at most the difference divided by it,
/// rounded up.
pub(crate) proof fn lemma_mean_moves_little(x: int, y: int, d: int, n: int)
    requires
        n > 0,
        0 <= y,
        0 <= d,
        x <= y + d,
    ensures
        x / n - y / n <= (d + n - 1) / n,
{
    let c = (d + n - 1) / n;
    assert(d <= n * c) by (nonlinear_arith)
        requires
            n > 0,
            c == (d + n - 1) / n,
    ;
    vstd::arithmetic::div_mod::lemma_hoist_over_denominator(y, c, n as nat);
    assert(c * n == n * c) by (nonlinear_arith);
    vstd::arithmetic::div_mod::lemma_div_is_ordered(x, y + c * n, n);
}

/// A mean over `n` rises with its sum by at least the rise over the larger `m`, and
/// by no more than the rise.
pub(crate) proof fn lemma_mean_rises(x: int, d: int, n: int, m: int)
    requires
        0 <= x,
        0 <= d,
        0 < n <= m,
    ensures
        x / n + d / m <= (x + d) / n <= x / n + d,
{
    let q = d / m;
    assert(0 <= q && q * n <= d <= d * n) by (nonlinear_arith)
        requires
            q == d / m,
            0 <= d,
            0 < n <= m,
    ;
    vstd::arithmetic::div_mod::lemma_hoist_over_denominator(x, q, n as nat);
    vstd::arithmetic::div_mod::lemma_hoist_over_denominator(x, d, n as nat);
    vstd::arithmetic::div_mod::lemma_div_is_ordered(x + q * n, x + d, n);
    vstd::arithmetic::div_mod::lemma_div_is_ordered(x + d, x + d * n, n);
}

/// Entries that all lie in the window are their own window.
pub(crate) proof fn lemma_window_of_current(entries: Seq<OracleSnapshotEntry>, now_slot: u64)
    requires
        forall|i: int| 0 <= i < entries.len() ==> model::in_window(#[trigger] entries[i], now_slot),
    ensures
        model::window(entries, now_slot) == entries,
    decreases entries.len(),
{
    if entries.len() == 0 {
        assert(entries =~= Seq::empty());
        lemma_window_of_none(now_slot);
    } else {
        let rest = entries.drop_last();
        assert(forall|i: int| 0 <= i < rest.len() ==> #[trigger] rest[i] == entries[i]);
        lemma_window_of_current(rest, now_slot);
        assert(entries =~= rest.push(entries.last()));
        lemma_window_of_push(rest, entries.last(), now_slot);
    }
}

/// Entries outside the window add nothing to it when they stand behind others.
pub(crate) proof fn lemma_window_of_outside_tail(
    entries: Seq<OracleSnapshotEntry>,
    tail: Seq<OracleSnapshotEntry>,
    now_slot: u64,
)
    requires
        forall|i: int| 0 <= i < tail.len() ==> !model::in_window(#[trigger] tail[i], now_slot),
    ensures
        model::window(entries + tail, now_slot) == model::window(entries, now_slot),
    decreases tail.len(),
{
    if tail.len() == 0 {
        assert(entries + tail =~= entries);
    } else {
        let rest = tail.drop_last();
        assert(forall|i: int| 0 <= i < rest.len() ==> #[trigger] rest[i] == tail[i]);
        assert(entries + tail =~= (entries + rest).push(tail.last()));
        lemma_window_of_outside_tail(entries, rest, now_slot);
        lemma_window_of_push(entries + rest, tail.last(), now_slot);
    }
}

/// The sum of the probabilities is the fold of their addition.
pub(crate) proof fn lemma_sum_is_fold(entries: Seq<OracleSnapshotEntry>)
    ensures
        model::sum_p(entries) == entries.fold_left(
            0int,
            |acc: int, e: OracleSnapshotEntry| acc + e.p_yes_e6,
        ),
    decreases entries.len(),
{
    reveal(Seq::fold_left);
    if entries.len() > 0 {
        lemma_sum_is_fold(entries.drop_last());
    }
}

/// Where two sequences have entries in their windows at the same places, and those
/// in the second carry `k` more, the windows have one size and the sums differ by
/// `k` an entry.
pub(crate) proof fn lemma_window_of_parallel(
    a: Seq<OracleSnapshotEntry>,
    now_a: u64,
    b: Seq<OracleSnapshotEntry>,
    now_b: u64,
    k: nat,
)
    requires
        a.len() == b.len(),
        forall|i: int|
            #![trigger a[i]]
            #![trigger b[i]]
            0 <= i < a.len() ==> {
                &&& model::in_window(a[i], now_a) == model::in_window(b[i], now_b)
                &&& model::in_window(a[i], now_a) ==> b[i].p_yes_e6 == a[i].p_yes_e6 + k
            },
    ensures
        model::window(a, now_a).len() == model::window(b, now_b).len(),
        model::sum_p(model::window(b, now_b)) == model::sum_p(model::window(a, now_a)) + k
            * model::window(a, now_a).len(),
    decreases a.len(),
{
    if a.len() == 0 {
        assert(a =~= Seq::empty());
        assert(b =~= Seq::empty());
        lemma_window_of_none(now_a);
        lemma_window_of_none(now_b);
        assert(k * 0 == 0) by (nonlinear_arith);
    } else {
        let (ra, rb) = (a.drop_last(), b.drop_last());
        assert(forall|i: int|
            #![trigger ra[i]]
            #![trigger rb[i]]
            0 <= i < ra.len() ==> ra[i] == a[i] && rb[i] == b[i]);
        lemma_window_of_parallel(ra, now_a, rb, now_b, k);
        assert(a =~= ra.push(a.last()));
        assert(b =~= rb.push(b.last()));
        lemma_window_of_push(ra, a.last(), now_a);
        lemma_window_of_push(rb, b.last(), now_b);
        let m = model::window(ra, now_a).len();
        assert(k * (m + 1) == k * m + k) by (nonlinear_arith);
    }
}

} // verus!
