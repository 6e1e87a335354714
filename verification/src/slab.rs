//! Columnar sample storage for one tier of one schema.
//!
//! A slab holds a fixed number of time slots.  Per slot it stores one
//! timestamp (zero while the slot is empty) and one value per series
//! column (the NaN pattern while unwritten), plus a directory that maps
//! series ids to their columns.  The slab knows nothing about time
//! semantics; it only offers typed, indexed access.  Its byte image — the
//! form in which a host program keeps it on disk — is defined in
//! [`crate::slab_image`].

use vstd::prelude::*;

use crate::fbits::NAN_BITS;

verus! {

/// Directory entry meaning "no column assigned to this series id".
pub const UNASSIGNED_COLUMN: u32 = 0xffff_ffff;

/// Version number of the slab format.
pub const SLAB_VERSION: u32 = 1;

/// Mathematical view of a slab.
pub struct SlabView {
    /// Stable hash of the owning schema.
    pub schema_hash: u64,
    /// Number of time slots.
    pub slot_count: u32,
    /// Number of value columns.
    pub max_series: u32,
    /// Sample interval in nanoseconds.
    pub interval_ns: u64,
    /// Slot index of the most recent write.
    pub write_cursor: u32,
    /// Number of registered series.
    pub series_count: u32,
    /// Column assigned to each series id, or [`UNASSIGNED_COLUMN`].
    pub directory: Seq<u32>,
    /// Timestamp per slot; zero marks an empty slot.
    pub timestamps: Seq<u64>,
    /// Value bits per column and slot, indexed `values[column][slot]`.
    pub values: Seq<Seq<u64>>,
}

impl SlabView {
    /// Structural well-formedness: positive geometry, cursor and counters
    /// in range, and every region sized by the header fields.
    pub open spec fn wf(self) -> bool {
        &&& self.slot_count > 0
        &&& self.interval_ns > 0
        &&& self.write_cursor < self.slot_count
        &&& self.series_count <= self.max_series
        &&& self.directory.len() == self.max_series
        &&& self.timestamps.len() == self.slot_count
        &&& self.values.len() == self.max_series
        &&& forall|c: int|
            0 <= c < self.values.len() ==> (#[trigger] self.values[c]).len() == self.slot_count
    }
}

/// In-memory slab: header fields and the three data regions.
#[derive(Debug)]
pub struct Slab {
    /// Stable hash of the owning schema.
    pub schema_hash: u64,
    /// Number of time slots.
    pub slot_count: u32,
    /// Number of value columns.
    pub max_series: u32,
    /// Sample interval in nanoseconds.
    pub interval_ns: u64,
    /// Slot index of the most recent write.
    pub write_cursor: u32,
    /// Number of registered series.
    pub series_count: u32,
    /// Column assigned to each series id, or [`UNASSIGNED_COLUMN`].
    pub directory: Vec<u32>,
    /// Timestamp per slot; zero marks an empty slot.
    pub timestamps: Vec<u64>,
    /// Value bits, one vector per column, each `slot_count` long.
    pub values: Vec<Vec<u64>>,
}

impl View for Slab {
    type V = SlabView;

    open spec fn view(&self) -> SlabView {
        SlabView {
            schema_hash: self.schema_hash,
            slot_count: self.slot_count,
            max_series: self.max_series,
            interval_ns: self.interval_ns,
            write_cursor: self.write_cursor,
            series_count: self.series_count,
            directory: self.directory@,
            timestamps: self.timestamps@,
            values: self.values@.map_values(|c: Vec<u64>| c@),
        }
    }
}

impl Slab {
    /// Builds a fresh slab: every slot empty (timestamp zero, NaN values)
    /// and every series id unassigned.
    pub fn new(schema_hash: u64, slot_count: u32, max_series: u32, interval_ns: u64) -> (r: Slab)
        requires
            slot_count > 0,
            interval_ns > 0,
        ensures
            r@.wf(),
            r@.schema_hash == schema_hash,
            r@.slot_count == slot_count,
            r@.max_series == max_series,
            r@.interval_ns == interval_ns,
            r@.write_cursor == 0,
            r@.series_count == 0,
            forall|i: int| 0 <= i < max_series ==> r@.directory[i] == UNASSIGNED_COLUMN,
            forall|i: int| 0 <= i < slot_count ==> r@.timestamps[i] == 0,
            forall|c: int, s: int|
                0 <= c < max_series && 0 <= s < slot_count ==> r@.values[c][s] == NAN_BITS,
    {
        let mut directory: Vec<u32> = Vec::new();
        let mut i: usize = 0;
        while i < max_series as usize
            invariant
                i == directory@.len(),
                i <= max_series as usize,
                forall|j: int| 0 <= j < i ==> directory@[j] == UNASSIGNED_COLUMN,
            decreases max_series as usize - i,
        {
            directory.push(UNASSIGNED_COLUMN);
            i = i + 1;
        }
        let mut timestamps: Vec<u64> = Vec::new();
        let mut i: usize = 0;
        while i < slot_count as usize
            invariant
                i == timestamps@.len(),
                i <= slot_count as usize,
                forall|j: int| 0 <= j < i ==> timestamps@[j] == 0,
            decreases slot_count as usize - i,
        {
            timestamps.push(0);
            i = i + 1;
        }
        let mut values: Vec<Vec<u64>> = Vec::new();
        let mut c: usize = 0;
        while c < max_series as usize
            invariant
                c == values@.len(),
                c <= max_series as usize,
                forall|j: int| 0 <= j < c ==> (#[trigger] values@[j])@.len() == slot_count,
                forall|j: int, s: int|
                    0 <= j < c && 0 <= s < slot_count ==> #[trigger] (values@[j])@[s] == NAN_BITS,
            decreases max_series as usize - c,
        {
            let mut column: Vec<u64> = Vec::new();
            let mut s: usize = 0;
            while s < slot_count as usize
                invariant
                    s == column@.len(),
                    s <= slot_count as usize,
                    forall|j: int| 0 <= j < s ==> column@[j] == NAN_BITS,
                decreases slot_count as usize - s,
            {
                column.push(NAN_BITS);
                s = s + 1;
            }
            values.push(column);
            c = c + 1;
        }
        let slab = Slab {
            schema_hash,
            slot_count,
            max_series,
            interval_ns,
            write_cursor: 0,
            series_count: 0,
            directory,
            timestamps,
            values,
        };
        proof {
            assert(forall|j: int|
                0 <= j < slab@.values.len() ==> slab@.values[j] == (
                #[trigger] slab.values@[j])@);
        }
        slab
    }

    /// Decides the structural well-formedness of a slab that was
    /// assembled from stored data.
    pub fn is_wf(&self) -> (r: bool)
        ensures
            r == self@.wf(),
    {
        proof {
            assert(self@.values.len() == self.values@.len());
        }
        if !(self.slot_count > 0 && self.interval_ns > 0 && self.write_cursor < self.slot_count
            && self.series_count <= self.max_series) {
            return false;
        }
        if self.directory.len() != self.max_series as usize {
            return false;
        }
        if self.timestamps.len() != self.slot_count as usize {
            return false;
        }
        if self.values.len() != self.max_series as usize {
            return false;
        }
        let n = self.values.len();
        let mut c: usize = 0;
        while c < n
            invariant
                c <= n,
                n == self.values@.len(),
                forall|j: int|
                    0 <= j < c ==> (#[trigger] self.values@[j])@.len() == self.slot_count,
            decreases n - c,
        {
            if self.values[c].len() != self.slot_count as usize {
                proof {
                    assert(self@.values[c as int] == self.values@[c as int]@);
                }
                return false;
            }
            c = c + 1;
        }
        proof {
            assert(forall|j: int|
                0 <= j < self@.values.len() ==> #[trigger] self@.values[j] == self.values@[j]@);
        }
        true
    }

    /// Reads the timestamp stored at a slot.
    pub fn read_timestamp(&self, slot_index: u32) -> (r: u64)
        requires
            self@.wf(),
            slot_index < self@.slot_count,
        ensures
            r == self@.timestamps[slot_index as int],
    {
        self.timestamps[slot_index as usize]
    }

    /// Stamps a slot with a timestamp.
    pub fn write_timestamp(&mut self, slot_index: u32, timestamp: u64)
        requires
            old(self)@.wf(),
            slot_index < old(self)@.slot_count,
        ensures
            final(self)@ == (SlabView {
                timestamps: old(self)@.timestamps.update(slot_index as int, timestamp),
                ..old(self)@
            }),
            final(self)@.wf(),
    {
        self.timestamps[slot_index as usize] = timestamp;
    }

    /// Reads the value bits stored for a series column at a slot.
    pub fn read_value(&self, slot_index: u32, series_column: u32) -> (r: u64)
        requires
            self@.wf(),
            slot_index < self@.slot_count,
            series_column < self@.max_series,
        ensures
            r == self@.values[series_column as int][slot_index as int],
    {
        proof {
            assert(self@.values[series_column as int] == self.values@[series_column as int]@);
        }
        self.values[series_column as usize][slot_index as usize]
    }

    /// Stores value bits for a series column at a slot.
    pub fn write_value(&mut self, slot_index: u32, series_column: u32, value_bits: u64)
        requires
            old(self)@.wf(),
            slot_index < old(self)@.slot_count,
            series_column < old(self)@.max_series,
        ensures
            final(self)@ == (SlabView {
                values: old(self)@.values.update(
                    series_column as int,
                    old(self)@.values[series_column as int].update(slot_index as int, value_bits),
                ),
                ..old(self)@
            }),
            final(self)@.wf(),
    {
        proof {
            assert(self@.values[series_column as int] == self.values@[series_column as int]@);
        }
        let column = &mut self.values[series_column as usize];
        column[slot_index as usize] = value_bits;
        proof {
            assert(final(self)@.values =~= old(self)@.values.update(
                series_column as int,
                old(self)@.values[series_column as int].update(slot_index as int, value_bits),
            ));
        }
    }

    /// Looks up the column assigned to a series id; an out-of-range id or
    /// the unassigned sentinel reads as absent.
    pub fn get_series_column(&self, series_id: u32) -> (r: Option<u32>)
        requires
            self@.wf(),
        ensures
            r == if series_id < self@.max_series && self@.directory[series_id as int]
                != UNASSIGNED_COLUMN {
                Some(self@.directory[series_id as int])
            } else {
                Option::<u32>::None
            },
    {
        if series_id >= self.max_series {
            return None;
        }
        let column = self.directory[series_id as usize];
        if column == UNASSIGNED_COLUMN {
            None
        } else {
            Some(column)
        }
    }

    /// Assigns a column to a series id in the directory.
    pub fn set_series_column(&mut self, series_id: u32, column: u32)
        requires
            old(self)@.wf(),
            series_id < old(self)@.max_series,
        ensures
            final(self)@ == (SlabView {
                directory: old(self)@.directory.update(series_id as int, column),
                ..old(self)@
            }),
            final(self)@.wf(),
    {
        self.directory[series_id as usize] = column;
    }

    /// Moves the write cursor.
    pub fn set_write_cursor(&mut self, pos: u32)
        requires
            old(self)@.wf(),
            pos < old(self)@.slot_count,
        ensures
            final(self)@ == (SlabView { write_cursor: pos, ..old(self)@ }),
            final(self)@.wf(),
    {
        self.write_cursor = pos;
    }

    /// Records how many series are registered.
    pub fn set_series_count(&mut self, count: u32)
        requires
            old(self)@.wf(),
            count <= old(self)@.max_series,
        ensures
            final(self)@ == (SlabView { series_count: count, ..old(self)@ }),
            final(self)@.wf(),
    {
        self.series_count = count;
    }

    /// Stable hash of the owning schema, as recorded at creation.
    pub fn schema_hash(&self) -> (r: u64)
        ensures
            r == self@.schema_hash,
    {
        self.schema_hash
    }

    /// Number of slots in the ring.
    pub fn slot_count(&self) -> (r: u32)
        ensures
            r == self@.slot_count,
    {
        self.slot_count
    }

    /// Number of value columns.
    pub fn max_series(&self) -> (r: u32)
        ensures
            r == self@.max_series,
    {
        self.max_series
    }

    /// Sample interval in nanoseconds.
    pub fn interval_ns(&self) -> (r: u64)
        ensures
            r == self@.interval_ns,
    {
        self.interval_ns
    }

    /// Slot index of the most recent write.
    pub fn write_cursor(&self) -> (r: u32)
        ensures
            r == self@.write_cursor,
    {
        self.write_cursor
    }

    /// Number of registered series.
    pub fn series_count(&self) -> (r: u32)
        ensures
            r == self@.series_count,
    {
        self.series_count
    }
}

} // verus!
