//! Ring-buffer semantics over a slab.
//!
//! The ring maps a timestamp to a slot (`(ts / interval) mod slot_count`),
//! tracks whether the buffer has wrapped at least once, and reads slots back
//! in chronological visit order.  Writes validate their inputs; reads skip
//! empty values and filter by a half-open time range.

use vstd::prelude::*;

use crate::error::{QueryError, RecordError, RondoError};
use crate::fbits::{inf_bits, is_inf_bits, is_nan_bits, nan_bits};
use crate::slab::{Slab, SlabView};

verus! {

/// Mathematical view of a ring buffer: the slab plus the wrap flag.
pub struct RingView {
    /// View of the underlying slab.
    pub slab: SlabView,
    /// Whether the ring has wrapped around at least once.
    pub wrapped: bool,
}

impl RingView {
    /// Structural well-formedness is the slab's.
    pub open spec fn wf(self) -> bool {
        self.slab.wf()
    }

    /// The slot a timestamp is stored in.
    pub open spec fn slot_of(self, ts: u64) -> u64 {
        (ts / self.slab.interval_ns) % (self.slab.slot_count as u64)
    }

    /// A ring is empty while the cursor's slot is unstamped.
    pub open spec fn is_empty(self) -> bool {
        self.slab.timestamps[self.slab.write_cursor as int] == 0
    }

    /// The newest timestamp: the one under the cursor.
    pub open spec fn spec_newest(self) -> Option<u64> {
        if self.slab.timestamps[self.slab.write_cursor as int] == 0 {
            None
        } else {
            Some(self.slab.timestamps[self.slab.write_cursor as int])
        }
    }

    /// The oldest timestamp: after a wrap it sits right behind the cursor,
    /// before a wrap it is the first stamped slot.
    pub open spec fn spec_oldest(self) -> Option<u64> {
        if self.is_empty() {
            None
        } else if self.wrapped {
            let s = ((self.slab.write_cursor as int + 1) % (self.slab.slot_count as int));
            if self.slab.timestamps[s] != 0 {
                Some(self.slab.timestamps[s])
            } else {
                None
            }
        } else {
            first_stamped(self.slab.timestamps, 0)
        }
    }

    /// Number of slots the chronological read walks.
    pub open spec fn visit_len(self) -> int {
        if self.is_empty() {
            0
        } else if self.wrapped {
            self.slab.slot_count as int
        } else {
            self.slab.write_cursor as int + 1
        }
    }

    /// The slot visited at position `k` of the chronological read: wrapped
    /// rings start right behind the cursor, fresh rings at slot zero.
    pub open spec fn visit_slot(self, k: int) -> int {
        if self.wrapped {
            (self.slab.write_cursor as int + 1 + k) % (self.slab.slot_count as int)
        } else {
            k
        }
    }
}

/// First non-zero timestamp at or after index `i`.
pub open spec fn first_stamped(ts: Seq<u64>, i: int) -> Option<u64>
    decreases ts.len() - i,
{
    if i < 0 || i >= ts.len() {
        None
    } else if ts[i] != 0 {
        Some(ts[i])
    } else {
        first_stamped(ts, i + 1)
    }
}

/// Number of non-zero timestamps at or after index `i`.
pub open spec fn count_stamped(ts: Seq<u64>, i: int) -> int
    decreases ts.len() - i,
{
    if i < 0 || i >= ts.len() {
        0
    } else if ts[i] != 0 {
        1 + count_stamped(ts, i + 1)
    } else {
        count_stamped(ts, i + 1)
    }
}

/// State of a ring after one write: the slot is stamped and carries the
/// value, the cursor moves to the slot, and the wrap flag is raised when
/// the slot lies behind the old cursor.
pub open spec fn write_view(v: RingView, column: u32, value_bits: u64, ts: u64) -> RingView {
    let slot = v.slot_of(ts) as int;
    RingView {
        slab: SlabView {
            timestamps: v.slab.timestamps.update(slot, ts),
            values: v.slab.values.update(
                column as int,
                v.slab.values[column as int].update(slot, value_bits),
            ),
            write_cursor: v.slot_of(ts) as u32,
            ..v.slab
        },
        wrapped: v.wrapped || v.slot_of(ts) < v.slab.write_cursor as u64,
    }
}

/// Value columns after a batch write: each entry's value lands in its
/// column at the shared slot, in entry order.
pub open spec fn batch_values(
    values: Seq<Seq<u64>>,
    entries: Seq<(u32, u64)>,
    slot: int,
) -> Seq<Seq<u64>>
    decreases entries.len(),
{
    if entries.len() == 0 {
        values
    } else {
        let prev = batch_values(values, entries.drop_last(), slot);
        let e = entries.last();
        prev.update(e.0 as int, prev[e.0 as int].update(slot, e.1))
    }
}

/// State of a ring after one batch write at a shared timestamp.
pub open spec fn write_batch_view(v: RingView, entries: Seq<(u32, u64)>, ts: u64) -> RingView {
    let slot = v.slot_of(ts) as int;
    RingView {
        slab: SlabView {
            timestamps: v.slab.timestamps.update(slot, ts),
            values: batch_values(v.slab.values, entries, slot),
            write_cursor: v.slot_of(ts) as u32,
            ..v.slab
        },
        wrapped: v.wrapped || v.slot_of(ts) < v.slab.write_cursor as u64,
    }
}

/// Whether the chronological read yields the slot: its timestamp lies in
/// `[start, end)` and the slot is in neither empty form — an unstamped
/// slot (timestamp zero, as a torn write leaves it) and an empty (NaN)
/// value are both treated as absent.
pub open spec fn keep_slot(v: RingView, column: u32, start: u64, end: u64, slot: int) -> bool {
    &&& v.slab.timestamps[slot] != 0
    &&& start <= v.slab.timestamps[slot]
    &&& v.slab.timestamps[slot] < end
    &&& !is_nan_bits(v.slab.values[column as int][slot])
}

/// The pairs collected from the first `k` visited slots.
pub open spec fn points_prefix(v: RingView, column: u32, start: u64, end: u64, k: int) -> Seq<
    (u64, u64),
>
    decreases k,
{
    if k <= 0 {
        Seq::empty()
    } else {
        let prev = points_prefix(v, column, start, end, k - 1);
        let s = v.visit_slot(k - 1);
        if keep_slot(v, column, start, end, s) {
            prev.push((v.slab.timestamps[s], v.slab.values[column as int][s]))
        } else {
            prev
        }
    }
}

/// Everything a chronological read of one column yields for a range.
pub open spec fn read_points(v: RingView, column: u32, start: u64, end: u64) -> Seq<(u64, u64)> {
    points_prefix(v, column, start, end, v.visit_len())
}

/// How a freshly attached ring decides whether the slab has wrapped: the
/// slot right after the cursor is already stamped.
pub open spec fn wrap_detect(s: SlabView) -> bool {
    if s.write_cursor == 0 {
        s.slot_count > 1 && s.timestamps[1] != 0
    } else {
        s.timestamps[(s.write_cursor as int + 1) % (s.slot_count as int)] != 0
    }
}

/// A ring buffer: a slab plus the wrap flag.
#[derive(Debug)]
pub struct RingBuffer {
    /// The underlying slab.
    pub slab: Slab,
    /// Whether the ring has wrapped around at least once.
    pub has_wrapped: bool,
}

impl View for RingBuffer {
    type V = RingView;

    open spec fn view(&self) -> RingView {
        RingView { slab: self.slab@, wrapped: self.has_wrapped }
    }
}

impl RingBuffer {
    /// Wraps a slab in ring semantics, detecting a prior wrap from the
    /// slot behind the cursor.
    pub fn new(slab: Slab) -> (r: RingBuffer)
        requires
            slab@.wf(),
        ensures
            r@.wf(),
            r@.slab == slab@,
            r@.wrapped == wrap_detect(slab@),
    {
        let write_cursor = slab.write_cursor();
        let has_wrapped = if write_cursor == 0 {
            slab.slot_count() > 1 && slab.read_timestamp(1) != 0
        } else {
            let next_slot = (write_cursor + 1) % slab.slot_count();
            slab.read_timestamp(next_slot) != 0
        };
        RingBuffer { slab, has_wrapped }
    }

    /// The underlying slab.
    pub fn slab(&self) -> (r: &Slab)
        ensures
            r@ == self@.slab,
    {
        &self.slab
    }

    /// The underlying slab, mutably.
    pub fn slab_mut(&mut self) -> (r: &mut Slab)
        ensures
            r@ == old(self)@.slab,
            final(self).slab == *final(r),
            final(self).has_wrapped == old(self).has_wrapped,
    {
        &mut self.slab
    }

    /// Gives the slab back.
    pub fn into_slab(self) -> (r: Slab)
        ensures
            r@ == self@.slab,
    {
        self.slab
    }

    /// The slot a timestamp maps to.
    fn compute_slot(&self, timestamp_ns: u64) -> (r: u32)
        requires
            self@.wf(),
        ensures
            r as u64 == self@.slot_of(timestamp_ns),
            r < self@.slab.slot_count,
    {
        let interval_ns = self.slab.interval_ns();
        let slot_count = self.slab.slot_count();
        ((timestamp_ns / interval_ns) % (slot_count as u64)) as u32
    }

    /// Writes one value at a timestamp.  An infinite value or the reserved
    /// timestamp zero is rejected and the ring is left unchanged; any other
    /// input (the NaN pattern included) is stored.
    pub fn write(&mut self, series_column: u32, value_bits: u64, timestamp_ns: u64) -> (r: Result<
        (),
        RondoError,
    >)
        requires
            old(self)@.wf(),
            series_column < old(self)@.slab.max_series,
        ensures
            final(self)@.wf(),
            r is Ok <==> (!is_inf_bits(value_bits) && timestamp_ns != 0),
            is_inf_bits(value_bits) ==> (r matches Err(RondoError::Record(
                RecordError::InvalidValue { .. },
            )) && final(self)@ == old(self)@),
            !is_inf_bits(value_bits) && timestamp_ns == 0 ==> (r matches Err(RondoError::Record(
                RecordError::InvalidTimestamp { timestamp: 0u64 },
            )) && final(self)@ == old(self)@),
            r is Ok ==> final(self)@ == write_view(
                old(self)@,
                series_column,
                value_bits,
                timestamp_ns,
            ),
    {
        if inf_bits(value_bits) {
            return Err(
                RondoError::Record(
                    RecordError::InvalidValue {
                        value_bits,
                        reason: "infinite values are not allowed".to_owned(),
                    },
                ),
            );
        }
        if timestamp_ns == 0 {
            return Err(RondoError::Record(RecordError::InvalidTimestamp { timestamp: 0 }));
        }
        let slot_index = self.compute_slot(timestamp_ns);
        let current_cursor = self.slab.write_cursor();
        if slot_index < current_cursor && !self.has_wrapped {
            self.has_wrapped = true;
        }
        self.slab.write_timestamp(slot_index, timestamp_ns);
        self.slab.write_value(slot_index, series_column, value_bits);
        self.slab.set_write_cursor(slot_index);
        Ok(())
    }

    /// Writes several columns at one shared timestamp, stamping the slot
    /// once.  The timestamp and every value are validated before anything
    /// is stored, so a rejected batch leaves the ring unchanged.
    pub fn write_batch(&mut self, entries: &[(u32, u64)], timestamp_ns: u64) -> (r: Result<
        (),
        RondoError,
    >)
        requires
            old(self)@.wf(),
            forall|i: int|
                0 <= i < entries@.len() ==> (#[trigger] entries@[i]).0 < old(
                    self,
                )@.slab.max_series,
        ensures
            final(self)@.wf(),
            r is Ok <==> (timestamp_ns != 0 && forall|i: int|
                0 <= i < entries@.len() ==> !is_inf_bits((#[trigger] entries@[i]).1)),
            timestamp_ns == 0 ==> (r matches Err(RondoError::Record(
                RecordError::InvalidTimestamp { timestamp: 0u64 },
            )) && final(self)@ == old(self)@),
            timestamp_ns != 0 && (exists|i: int|
                0 <= i < entries@.len() && is_inf_bits((#[trigger] entries@[i]).1)) ==> (r matches
                Err(RondoError::Record(RecordError::InvalidValue { .. })) && final(self)@ == old(
                self,
            )@),
            r is Ok ==> final(self)@ == write_batch_view(old(self)@, entries@, timestamp_ns),
    {
        if timestamp_ns == 0 {
            return Err(RondoError::Record(RecordError::InvalidTimestamp { timestamp: 0 }));
        }
        let n = entries.len();
        let mut i: usize = 0;
        while i < n
            invariant
                i <= n,
                n == entries@.len(),
                *self == *old(self),
                old(self)@.wf(),
                timestamp_ns != 0,
                forall|j: int| 0 <= j < i ==> !is_inf_bits((#[trigger] entries@[j]).1),
            decreases n - i,
        {
            if inf_bits(entries[i].1) {
                return Err(
                    RondoError::Record(
                        RecordError::InvalidValue {
                            value_bits: entries[i].1,
                            reason: "infinite values are not allowed".to_owned(),
                        },
                    ),
                );
            }
            i = i + 1;
        }
        let slot_index = self.compute_slot(timestamp_ns);
        let current_cursor = self.slab.write_cursor();
        if slot_index < current_cursor && !self.has_wrapped {
            self.has_wrapped = true;
        }
        self.slab.write_timestamp(slot_index, timestamp_ns);
        let mut i: usize = 0;
        while i < n
            invariant
                i <= n,
                n == entries@.len(),
                self.has_wrapped == old(self)@.wrapped || (old(self)@.slot_of(timestamp_ns) < old(
                    self,
                )@.slab.write_cursor as u64),
                self.has_wrapped == (old(self)@.wrapped || old(self)@.slot_of(timestamp_ns) < old(
                    self,
                )@.slab.write_cursor as u64),
                slot_index as u64 == old(self)@.slot_of(timestamp_ns),
                slot_index < old(self)@.slab.slot_count,
                forall|j: int|
                    0 <= j < entries@.len() ==> (#[trigger] entries@[j]).0 < old(
                        self,
                    )@.slab.max_series,
                self.slab@ == (SlabView {
                    timestamps: old(self)@.slab.timestamps.update(slot_index as int, timestamp_ns),
                    values: batch_values(
                        old(self)@.slab.values,
                        entries@.take(i as int),
                        slot_index as int,
                    ),
                    ..old(self)@.slab
                }),
                self.slab@.wf(),
            decreases n - i,
        {
            proof {
                assert(entries@.take(i as int + 1).drop_last() =~= entries@.take(i as int));
                assert(entries@.take(i as int + 1).last() == entries@[i as int]);
            }
            self.slab.write_value(slot_index, entries[i].0, entries[i].1);
            i = i + 1;
        }
        proof {
            assert(entries@.take(n as int) =~= entries@);
        }
        self.slab.set_write_cursor(slot_index);
        Ok(())
    }

    /// Reads one column over `[start_ns, end_ns)`, returning the stored
    /// pairs in chronological visit order with empty values skipped.
    pub fn read(&self, series_column: u32, start_ns: u64, end_ns: u64) -> (r: Result<
        Vec<(u64, u64)>,
        RondoError,
    >)
        requires
            self@.wf(),
            series_column < self@.slab.max_series,
        ensures
            r is Ok <==> start_ns < end_ns,
            start_ns >= end_ns ==> (r matches Err(RondoError::Query(
                QueryError::InvalidTimeRange { start: s, end: e },
            )) && s == start_ns && e == end_ns),
            r matches Ok(points) ==> points@ == read_points(
                self@,
                series_column,
                start_ns,
                end_ns,
            ),
    {
        if start_ns >= end_ns {
            return Err(
                RondoError::Query(QueryError::InvalidTimeRange { start: start_ns, end: end_ns }),
            );
        }
        let mut points: Vec<(u64, u64)> = Vec::new();
        if self.is_empty() {
            return Ok(points);
        }
        let slot_count = self.slab.slot_count();
        let (start_slot, visit_count) = if self.has_wrapped {
            (((self.slab.write_cursor() + 1) % slot_count), slot_count)
        } else {
            (0u32, self.slab.write_cursor() + 1)
        };
        let mut current_slot = start_slot;
        let mut k: u32 = 0;
        while k < visit_count
            invariant
                self@.wf(),
                series_column < self@.slab.max_series,
                !self@.is_empty(),
                visit_count as int == self@.visit_len(),
                visit_count <= slot_count,
                slot_count == self@.slab.slot_count,
                k <= visit_count,
                k < visit_count ==> current_slot as int == self@.visit_slot(k as int),
                k < visit_count ==> current_slot < slot_count,
                points@ == points_prefix(self@, series_column, start_ns, end_ns, k as int),
            decreases visit_count - k,
        {
            let ts = self.slab.read_timestamp(current_slot);
            let value_bits = self.slab.read_value(current_slot, series_column);
            proof {
                assert(self@.visit_slot(k as int) == current_slot as int);
            }
            if ts != 0 && ts >= start_ns && ts < end_ns && !nan_bits(value_bits) {
                points.push((ts, value_bits));
            }
            proof {
                let n = self@.slab.slot_count as int;
                if self@.wrapped {
                    let a = self@.slab.write_cursor as int + 1 + k as int;
                    vstd::arithmetic::div_mod::lemma_add_mod_noop(a, 1, n);
                    if n > 1 {
                        vstd::arithmetic::div_mod::lemma_small_mod(1, n as nat);
                    }
                } else {
                    if k as int + 1 < self@.visit_len() {
                        vstd::arithmetic::div_mod::lemma_small_mod((k + 1) as nat, n as nat);
                    }
                }
            }
            current_slot = (current_slot + 1) % slot_count;
            k = k + 1;
        }
        Ok(points)
    }

    /// The oldest stored timestamp, or absent when the ring is empty.
    pub fn oldest_timestamp(&self) -> (r: Option<u64>)
        requires
            self@.wf(),
        ensures
            r == self@.spec_oldest(),
    {
        if self.is_empty() {
            return None;
        }
        if self.has_wrapped {
            let cursor = self.slab.write_cursor();
            let oldest_slot = (cursor + 1) % self.slab.slot_count();
            let timestamp = self.slab.read_timestamp(oldest_slot);
            if timestamp != 0 {
                Some(timestamp)
            } else {
                None
            }
        } else {
            let n = self.slab.slot_count();
            let mut slot: u32 = 0;
            while slot < n
                invariant
                    self@.wf(),
                    n == self@.slab.slot_count,
                    slot <= n,
                    !self@.is_empty(),
                    !self@.wrapped,
                    first_stamped(self@.slab.timestamps, 0) == first_stamped(
                        self@.slab.timestamps,
                        slot as int,
                    ),
                decreases n - slot,
            {
                let timestamp = self.slab.read_timestamp(slot);
                if timestamp != 0 {
                    return Some(timestamp);
                }
                slot = slot + 1;
            }
            None
        }
    }

    /// The newest stored timestamp, or absent when the ring is empty.
    pub fn newest_timestamp(&self) -> (r: Option<u64>)
        requires
            self@.wf(),
        ensures
            r == self@.spec_newest(),
    {
        let cursor = self.slab.write_cursor();
        let timestamp = self.slab.read_timestamp(cursor);
        if timestamp != 0 {
            Some(timestamp)
        } else {
            None
        }
    }

    /// Whether no write has reached the ring yet.
    pub fn is_empty(&self) -> (r: bool)
        requires
            self@.wf(),
        ensures
            r == self@.is_empty(),
    {
        let cursor = self.slab.write_cursor();
        self.slab.read_timestamp(cursor) == 0
    }

    /// Whether the ring has wrapped at least once.
    pub fn has_wrapped(&self) -> (r: bool)
        ensures
            r == self@.wrapped,
    {
        self.has_wrapped
    }

    /// Number of slots holding data: all of them after a wrap, otherwise
    /// the stamped ones.
    pub fn slots_used(&self) -> (r: u32)
        requires
            self@.wf(),
        ensures
            self@.is_empty() ==> r == 0,
            !self@.is_empty() && self@.wrapped ==> r == self@.slab.slot_count,
            !self@.is_empty() && !self@.wrapped ==> r as int == count_stamped(
                self@.slab.timestamps,
                0,
            ),
    {
        if self.is_empty() {
            return 0;
        }
        if self.has_wrapped {
            return self.slab.slot_count();
        }
        let n = self.slab.slot_count();
        let mut count: u32 = 0;
        let mut slot: u32 = 0;
        while slot < n
            invariant
                self@.wf(),
                n == self@.slab.slot_count,
                slot <= n,
                count <= slot,
                count as int + count_stamped(self@.slab.timestamps, slot as int) == count_stamped(
                    self@.slab.timestamps,
                    0,
                ),
            decreases n - slot,
        {
            if self.slab.read_timestamp(slot) != 0 {
                count = count + 1;
            }
            slot = slot + 1;
        }
        count
    }
}

} // verus!
