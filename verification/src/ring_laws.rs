//! Laws of the ring buffer.
//!
//! A ring that only ever received timestamps in non-decreasing order (and
//! never skipped further ahead than one retention window) satisfies the
//! `chron` invariant below.  Under it, the slot under the cursor holds
//! the newest sample and a chronological read yields strictly increasing
//! timestamps.  Timestamps written out of order can break these shapes:
//! writing at 75 s and then at 17 s into a ten-slot one-second ring
//! leaves slot 5 newer than slot 7, and a read visits slot 5 first.
//!
//! Separately, a ring whose empty slots are all blank — a zero timestamp
//! only ever beside the NaN pattern, as every fresh ring starts out and
//! every write keeps it — never lets a reader see either empty form.

use vstd::arithmetic::div_mod::{lemma_small_mod, lemma_sub_mod_noop};
use vstd::prelude::*;

use crate::fbits::is_nan_bits;
use crate::ring::{keep_slot, points_prefix, read_points, write_view, RingView};

verus! {

/// The epoch of a timestamp: which interval it falls in.
pub open spec fn epoch(v: RingView, ts: u64) -> u64 {
    ts / v.slab.interval_ns
}

/// Shorthand for the ring's slot count as an integer.
pub open spec fn slots(v: RingView) -> int {
    v.slab.slot_count as int
}

/// The state a ring reaches through in-order writes: every stamped slot
/// holds a timestamp that maps back to it, the cursor's sample has the
/// largest epoch, every stamped sample lies within one revolution of the
/// cursor's, and before a wrap no slot beyond the cursor is stamped.
pub open spec fn chron(v: RingView) -> bool {
    &&& v.wf()
    &&& forall|s: int|
        0 <= s < slots(v) && #[trigger] v.slab.timestamps[s] != 0 ==> v.slot_of(
            v.slab.timestamps[s],
        ) == s as u64
    &&& (v.is_empty() ==> forall|s: int|
        0 <= s < slots(v) ==> #[trigger] v.slab.timestamps[s] == 0)
    &&& (!v.is_empty() ==> forall|s: int|
        0 <= s < slots(v) && #[trigger] v.slab.timestamps[s] != 0 ==> {
            let e = epoch(v, v.slab.timestamps[s]);
            let top = epoch(v, v.slab.timestamps[v.slab.write_cursor as int]);
            e <= top && top < e + v.slab.slot_count as u64
        })
    &&& (!v.wrapped ==> forall|s: int|
        v.slab.write_cursor < s < slots(v) ==> #[trigger] v.slab.timestamps[s] == 0)
}

/// Empty slots are blank: a zero timestamp sits beside the NaN pattern
/// in every column.
pub open spec fn blank_slots(v: RingView) -> bool {
    forall|s: int, c: int|
        0 <= s < slots(v) && 0 <= c < v.slab.max_series as int && v.slab.timestamps[s] == 0
            ==> is_nan_bits(#[trigger] v.slab.values[c][s])
}

/// A freshly created ring is in chronological shape with blank slots: a
/// store starts out satisfying every reader-facing invariant.
pub proof fn lemma_fresh_ring_laws(v: RingView)
    requires
        v.wf(),
        crate::store::fresh_ring(v),
    ensures
        chron(v),
        blank_slots(v),
{
}

/// A freshly initialised ring is in chronological shape.
pub proof fn lemma_fresh_chron(v: RingView)
    requires
        v.wf(),
        !v.wrapped,
        forall|s: int| 0 <= s < slots(v) ==> #[trigger] v.slab.timestamps[s] == 0,
    ensures
        chron(v),
{
}

/// A write stamps the slot it moves the cursor to, so the newest sample
/// of the written ring carries exactly the written timestamp.
pub proof fn lemma_write_newest(v: RingView, column: u32, value_bits: u64, ts: u64)
    requires
        v.wf(),
        column < v.slab.max_series,
        ts != 0,
    ensures
        write_view(v, column, value_bits, ts).spec_newest() == Some(ts),
{
    let w = write_view(v, column, value_bits, ts);
    assert(v.slot_of(ts) < v.slab.slot_count as u64);
    assert(w.slab.timestamps[w.slab.write_cursor as int] == ts);
}

/// After the first wrap, the oldest sample sits right behind the cursor.
pub proof fn lemma_oldest_after_wrap(v: RingView)
    requires
        v.wf(),
        v.wrapped,
        !v.is_empty(),
        v.slab.timestamps[(v.slab.write_cursor as int + 1) % slots(v)] != 0,
    ensures
        v.spec_oldest() == Some(
            v.slab.timestamps[(v.slab.write_cursor as int + 1) % slots(v)],
        ),
{
}

/// Writing a timestamp at least as new as the cursor's sample, and within
/// one revolution of every stored sample, keeps the ring chronological.
pub proof fn lemma_write_chron(v: RingView, column: u32, value_bits: u64, ts: u64)
    requires
        chron(v),
        column < v.slab.max_series,
        ts != 0,
        v.spec_newest() matches Some(t) ==> t <= ts,
        forall|s: int|
            0 <= s < slots(v) && #[trigger] v.slab.timestamps[s] != 0 ==> epoch(v, ts) < epoch(
                v,
                v.slab.timestamps[s],
            ) + v.slab.slot_count as u64,
    ensures
        chron(write_view(v, column, value_bits, ts)),
{
    let w = write_view(v, column, value_bits, ts);
    let n = slots(v);
    let slot = v.slot_of(ts) as int;
    assert(0 <= slot < n);
    assert(w.slab.timestamps =~= v.slab.timestamps.update(slot, ts));
    assert(!w.is_empty());
    // slot mapping holds: the new slot maps to itself, others are unchanged
    assert forall|s: int| 0 <= s < n && #[trigger] w.slab.timestamps[s] != 0 implies w.slot_of(
        w.slab.timestamps[s],
    ) == s as u64 by {
        if s != slot {
            assert(w.slab.timestamps[s] == v.slab.timestamps[s]);
        }
    }
    // epochs stay inside one revolution of the new top
    assert forall|s: int| 0 <= s < n && #[trigger] w.slab.timestamps[s] != 0 implies {
        let e = epoch(w, w.slab.timestamps[s]);
        let top = epoch(w, w.slab.timestamps[w.slab.write_cursor as int]);
        e <= top && top < e + w.slab.slot_count as u64
    } by {
        let top = epoch(w, w.slab.timestamps[w.slab.write_cursor as int]);
        assert(w.slab.timestamps[w.slab.write_cursor as int] == ts);
        if s != slot {
            assert(w.slab.timestamps[s] == v.slab.timestamps[s]);
            // the old sample's epoch cannot pass the new one's
            if v.is_empty() {
                assert(v.slab.timestamps[s] == 0);
            } else {
                let old_top = epoch(v, v.slab.timestamps[v.slab.write_cursor as int]);
                assert(v.slab.timestamps[v.slab.write_cursor as int] != 0);
                assert(epoch(v, v.slab.timestamps[s]) <= old_top);
                assert(v.spec_newest() == Some(
                    v.slab.timestamps[v.slab.write_cursor as int],
                ));
                vstd::arithmetic::div_mod::lemma_div_is_ordered(
                    v.slab.timestamps[v.slab.write_cursor as int] as int,
                    ts as int,
                    v.slab.interval_ns as int,
                );
            }
        }
    }
    // before a wrap nothing sits past the cursor
    if !w.wrapped {
        assert(!v.wrapped);
        assert(slot >= v.slab.write_cursor as int);
        assert forall|s: int| w.slab.write_cursor < s < n implies #[trigger] w.slab.timestamps[s]
            == 0 by {
            assert(s != slot);
            assert(s > v.slab.write_cursor as int);
        }
    }
}

/// A write never blanks a slot and stamps the one slot whose value it
/// touches, so blank slots stay blank.
pub proof fn lemma_write_blank(v: RingView, column: u32, value_bits: u64, ts: u64)
    requires
        v.wf(),
        blank_slots(v),
        column < v.slab.max_series,
        ts != 0,
    ensures
        blank_slots(write_view(v, column, value_bits, ts)),
{
    let w = write_view(v, column, value_bits, ts);
    let n = slots(v);
    let slot = v.slot_of(ts) as int;
    assert(0 <= slot < n);
    assert forall|s: int, c: int|
        0 <= s < slots(w) && 0 <= c < w.slab.max_series as int && w.slab.timestamps[s]
            == 0 implies is_nan_bits(#[trigger] w.slab.values[c][s]) by {
        assert(s != slot);
        assert(w.slab.timestamps[s] == v.slab.timestamps[s]);
        if c == column as int {
            assert(w.slab.values[c][s] == v.slab.values[c][s]);
        } else {
            assert(w.slab.values[c] == v.slab.values[c]);
        }
    }
}

/// Every point a read yields lies in the requested range and is not an
/// empty form: neither the NaN pattern nor — in a ring whose empty slots
/// are blank — the reserved zero timestamp.
pub proof fn lemma_read_no_empty_forms(v: RingView, column: u32, start_ns: u64, end_ns: u64)
    requires
        v.wf(),
        blank_slots(v),
        column < v.slab.max_series,
    ensures
        forall|i: int|
            0 <= i < read_points(v, column, start_ns, end_ns).len() ==> {
                let p = #[trigger] read_points(v, column, start_ns, end_ns)[i];
                &&& start_ns <= p.0 < end_ns
                &&& p.0 != 0
                &&& !is_nan_bits(p.1)
            },
{
    lemma_prefix_no_empty_forms(v, column, start_ns, end_ns, v.visit_len());
}

/// The range and emptiness facts of `lemma_read_no_empty_forms`, proved
/// along the visit walk.
proof fn lemma_prefix_no_empty_forms(v: RingView, column: u32, start_ns: u64, end_ns: u64, k: int)
    requires
        v.wf(),
        blank_slots(v),
        column < v.slab.max_series,
        k <= v.visit_len(),
    ensures
        forall|i: int|
            0 <= i < points_prefix(v, column, start_ns, end_ns, k).len() ==> {
                let p = #[trigger] points_prefix(v, column, start_ns, end_ns, k)[i];
                &&& start_ns <= p.0 < end_ns
                &&& p.0 != 0
                &&& !is_nan_bits(p.1)
            },
    decreases k,
{
    if k > 0 {
        lemma_prefix_no_empty_forms(v, column, start_ns, end_ns, k - 1);
        let prev = points_prefix(v, column, start_ns, end_ns, k - 1);
        let cur = points_prefix(v, column, start_ns, end_ns, k);
        let s = v.visit_slot(k - 1);
        lemma_visit_slot_in_range(v, k - 1);
        if keep_slot(v, column, start_ns, end_ns, s) {
            assert(!is_nan_bits(v.slab.values[column as int][s]));
            assert(v.slab.timestamps[s] != 0);
            assert(cur == prev.push((v.slab.timestamps[s], v.slab.values[column as int][s])));
            assert forall|i: int| 0 <= i < cur.len() implies {
                let p = #[trigger] cur[i];
                &&& start_ns <= p.0 < end_ns
                &&& p.0 != 0
                &&& !is_nan_bits(p.1)
            } by {
                if i < prev.len() {
                    assert(cur[i] == prev[i]);
                }
            }
        } else {
            assert(cur == prev);
        }
    }
}

/// Visited slots lie inside the ring.
proof fn lemma_visit_slot_in_range(v: RingView, k: int)
    requires
        v.wf(),
        0 <= k < v.visit_len(),
    ensures
        0 <= v.visit_slot(k) < slots(v),
{
}

/// The epoch of a stamped visited slot: along the chronological walk,
/// epochs rise by exactly one per visit position.
proof fn lemma_visit_epoch(v: RingView, k: int)
    requires
        chron(v),
        !v.is_empty(),
        0 <= k < v.visit_len(),
        v.slab.timestamps[v.visit_slot(k)] != 0,
    ensures
        epoch(v, v.slab.timestamps[v.visit_slot(k)]) as int == epoch(
            v,
            v.slab.timestamps[v.slab.write_cursor as int],
        ) as int - (v.visit_len() - 1 - k),
{
    let n = slots(v);
    let c = v.slab.write_cursor as int;
    let s = v.visit_slot(k);
    lemma_visit_slot_in_range(v, k);
    let ts = v.slab.timestamps[s];
    let e = epoch(v, ts) as int;
    let top = epoch(v, v.slab.timestamps[c]) as int;
    assert(v.slab.timestamps[c] != 0);
    assert(top % n == c) by {
        assert(((v.slab.timestamps[c] / v.slab.interval_ns) % (v.slab.slot_count as u64)) == c
            as u64);
    }
    assert(e % n == s) by {
        assert(((ts / v.slab.interval_ns) % (v.slab.slot_count as u64)) == s as u64);
    }
    assert(top - n < e <= top);
    let d = top - e;
    assert(0 <= d < n);
    assert((top - e) % n == d) by {
        lemma_small_mod(d as nat, n as nat);
    }
    assert((c - s) % n == d) by {
        lemma_sub_mod_noop(top, e, n);
        lemma_sub_mod_noop(c, s, n);
        lemma_small_mod(c as nat, n as nat);
        lemma_small_mod(s as nat, n as nat);
    }
    if v.wrapped {
        assert(s == (c + 1 + k) % n);
        assert(v.visit_len() == n);
        // from s == (c + 1 + k) % n the distance d works out to n - 1 - k
        assert(d == n - 1 - k) by {
            lemma_sub_mod_noop(c, c + 1 + k, n);
            lemma_small_mod(c as nat, n as nat);
            assert((c - (c + 1 + k)) % n == (c - s) % n);
            assert((-(1 + k)) % n == d);
            assert((n - 1 - k) % n == n - 1 - k) by {
                lemma_small_mod((n - 1 - k) as nat, n as nat);
            }
            assert((-(1 + k)) % n == (n - 1 - k) % n) by {
                assert((-(1 + k)) - (n - 1 - k) == -n);
                lemma_sub_mod_noop(-(1 + k), n, n);
                assert(n % n == 0) by {
                    vstd::arithmetic::div_mod::lemma_mod_self_0(n);
                }
                assert(((-(1 + k)) - n) % n == (-(1 + k)) % n);
                assert((n - 1 - k) == (-(1 + k)) + n);
                lemma_sub_mod_noop(n - 1 - k, n, n);
                assert(((n - 1 - k) - n) % n == (n - 1 - k) % n);
            }
        }
    } else {
        assert(s == k);
        assert(s <= c) by {
            if s > c {
                assert(v.slab.timestamps[s] == 0);
            }
        }
        assert((c - s) % n == c - s) by {
            lemma_small_mod((c - s) as nat, n as nat);
        }
        assert(d == c - s);
        assert(v.visit_len() == c + 1);
    }
}

/// A strictly larger epoch means a strictly larger timestamp.
proof fn lemma_epoch_order(v: RingView, a: u64, b: u64)
    requires
        v.slab.interval_ns > 0,
        epoch(v, a) < epoch(v, b),
    ensures
        a < b,
{
    if a >= b {
        vstd::arithmetic::div_mod::lemma_div_is_ordered(
            b as int,
            a as int,
            v.slab.interval_ns as int,
        );
    }
}

/// Under the chronological invariant with blank empty slots, a read
/// yields strictly increasing timestamps.
pub proof fn lemma_read_sorted(v: RingView, column: u32, start_ns: u64, end_ns: u64)
    requires
        chron(v),
        blank_slots(v),
        column < v.slab.max_series,
    ensures
        forall|i: int, j: int|
            0 <= i < j < read_points(v, column, start_ns, end_ns).len() ==> (
            #[trigger] read_points(v, column, start_ns, end_ns)[i]).0 < (#[trigger] read_points(
                v,
                column,
                start_ns,
                end_ns,
            )[j]).0,
{
    lemma_prefix_sorted(v, column, start_ns, end_ns, v.visit_len());
}

/// Sortedness along the visit walk: the last collected point always
/// comes from the newest visited stamped slot, and each freshly kept
/// point strictly exceeds it.
proof fn lemma_prefix_sorted(v: RingView, column: u32, start_ns: u64, end_ns: u64, k: int)
    requires
        chron(v),
        blank_slots(v),
        column < v.slab.max_series,
        k <= v.visit_len(),
    ensures
        forall|i: int, j: int|
            0 <= i < j < points_prefix(v, column, start_ns, end_ns, k).len() ==> (
            #[trigger] points_prefix(v, column, start_ns, end_ns, k)[i]).0 < (
            #[trigger] points_prefix(v, column, start_ns, end_ns, k)[j]).0,
        points_prefix(v, column, start_ns, end_ns, k).len() > 0 ==> exists|kk: int|
            0 <= kk < k && #[trigger] v.slab.timestamps[v.visit_slot(kk)] != 0 && points_prefix(
                v,
                column,
                start_ns,
                end_ns,
                k,
            ).last().0 == v.slab.timestamps[v.visit_slot(kk)],
    decreases k,
{
    if k > 0 {
        lemma_prefix_sorted(v, column, start_ns, end_ns, k - 1);
        let prev = points_prefix(v, column, start_ns, end_ns, k - 1);
        let cur = points_prefix(v, column, start_ns, end_ns, k);
        let s = v.visit_slot(k - 1);
        lemma_visit_slot_in_range(v, k - 1);
        if keep_slot(v, column, start_ns, end_ns, s) {
            // the fresh point comes from a stamped slot
            assert(v.slab.timestamps[s] != 0);
            assert(!v.is_empty()) by {
                if v.is_empty() {
                    assert(v.slab.timestamps[s] == 0);
                }
            }
            assert(cur == prev.push((v.slab.timestamps[s], v.slab.values[column as int][s])));
            if prev.len() > 0 {
                let kk = choose|kk: int|
                    0 <= kk < k - 1 && #[trigger] v.slab.timestamps[v.visit_slot(kk)] != 0
                        && prev.last().0 == v.slab.timestamps[v.visit_slot(kk)];
                lemma_visit_epoch(v, kk);
                lemma_visit_epoch(v, k - 1);
                lemma_epoch_order(
                    v,
                    v.slab.timestamps[v.visit_slot(kk)],
                    v.slab.timestamps[s],
                );
                assert(prev.last().0 < v.slab.timestamps[s]);
                assert forall|i: int, j: int| 0 <= i < j < cur.len() implies (
                #[trigger] cur[i]).0 < (#[trigger] cur[j]).0 by {
                    if j < cur.len() - 1 {
                        assert(cur[i] == prev[i] && cur[j] == prev[j]);
                    } else {
                        assert(cur[j].0 == v.slab.timestamps[s]);
                        if i < prev.len() - 1 {
                            assert(cur[i].0 == prev[i].0);
                            assert(prev[i].0 < prev.last().0);
                        } else {
                            assert(cur[i].0 == prev.last().0);
                        }
                    }
                }
            }
            assert(cur.last().0 == v.slab.timestamps[v.visit_slot(k - 1)]);
        } else {
            assert(cur == prev);
            if cur.len() > 0 {
                let kk = choose|kk: int|
                    0 <= kk < k - 1 && #[trigger] v.slab.timestamps[v.visit_slot(kk)] != 0
                        && prev.last().0 == v.slab.timestamps[v.visit_slot(kk)];
                assert(0 <= kk < k && v.slab.timestamps[v.visit_slot(kk)] != 0 && cur.last().0
                    == v.slab.timestamps[v.visit_slot(kk)]);
            }
        }
    }
}

} // verus!
