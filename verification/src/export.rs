//! Cursor-based export of new samples.
//!
//! A drain returns, per registered series, every sample of one tier that
//! is newer than the consumer's cursor, and advances the cursor to the
//! last returned timestamp.  Persisting the cursor is the caller's
//! explicit step, so it can be tied to a successful downstream push.

use vstd::prelude::*;

use crate::error::RondoError;
use crate::ring::{read_points, RingBuffer, RingView};
use crate::ring_laws::{blank_slots, chron};
use crate::series::SeriesHandle;

verus! {

/// One consumer's progress for one (schema, tier, column) triple.
#[derive(Debug, Clone, Copy, PartialEq, Eq, Structural)]
pub struct ExportEntry {
    /// Schema index.
    pub schema_index: usize,
    /// Tier index within the schema.
    pub tier_index: usize,
    /// Series column within the tier.
    pub column: u32,
    /// Timestamp of the last exported point.
    pub last_timestamp: u64,
}

/// Index of the first entry for the triple, or -1.
pub open spec fn export_idx(
    entries: Seq<ExportEntry>,
    schema_index: usize,
    tier_index: usize,
    column: u32,
) -> int
    decreases entries.len(),
{
    if entries.len() == 0 {
        -1
    } else if entries[0].schema_index == schema_index && entries[0].tier_index == tier_index
        && entries[0].column == column {
        0
    } else {
        let r = export_idx(entries.drop_first(), schema_index, tier_index, column);
        if r < 0 {
            -1
        } else {
            r + 1
        }
    }
}

/// The recorded timestamp for a triple, if an entry exists.
pub open spec fn exported_of(
    entries: Seq<ExportEntry>,
    schema_index: usize,
    tier_index: usize,
    column: u32,
) -> Option<u64> {
    let i = export_idx(entries, schema_index, tier_index, column);
    if i < 0 {
        None
    } else {
        Some(entries[i].last_timestamp)
    }
}

/// An export consumer's cursor: the last exported timestamp per series.
#[derive(Debug)]
pub struct ExportCursor {
    /// The entries, at most one per (schema, tier, column) triple.
    pub cursors: Vec<ExportEntry>,
}

impl ExportCursor {
    /// At most one entry per triple.
    pub open spec fn wf(self) -> bool {
        forall|i: int, j: int|
            #![trigger self.cursors@[i], self.cursors@[j]]
            0 <= i < j < self.cursors@.len() ==> !(self.cursors@[i].schema_index
                == self.cursors@[j].schema_index && self.cursors@[i].tier_index
                == self.cursors@[j].tier_index && self.cursors@[i].column
                == self.cursors@[j].column)
    }

    /// A fresh cursor that has exported nothing.
    pub fn new() -> (r: ExportCursor)
        ensures
            r.wf(),
            r.cursors@.len() == 0,
    {
        ExportCursor { cursors: Vec::new() }
    }

    /// Rebuilds a cursor from stored entries: succeeds exactly when no
    /// series triple is recorded twice.
    pub fn from_records(records: Vec<ExportEntry>) -> (r: Option<ExportCursor>)
        ensures
            r is Some <==> (ExportCursor { cursors: records }).wf(),
            r matches Some(c) ==> c.wf() && c.cursors == records,
    {
        let n = records.len();
        let mut i: usize = 0;
        while i < n
            invariant
                i <= n,
                n == records@.len(),
                forall|p: int, q: int|
                    #![trigger records@[p], records@[q]]
                    0 <= p < q < i ==> !(records@[p].schema_index == records@[q].schema_index
                        && records@[p].tier_index == records@[q].tier_index && records@[p].column
                        == records@[q].column),
            decreases n - i,
        {
            let mut j: usize = 0;
            while j < i
                invariant
                    j <= i,
                    i < n,
                    n == records@.len(),
                    forall|q: int|
                        0 <= q < j ==> !((#[trigger] records@[q]).schema_index
                            == records@[i as int].schema_index && records@[q].tier_index
                            == records@[i as int].tier_index && records@[q].column
                            == records@[i as int].column),
                decreases i - j,
            {
                if records[j].schema_index == records[i].schema_index && records[j].tier_index
                    == records[i].tier_index && records[j].column == records[i].column {
                    proof {
                        let ghost cs = (ExportCursor { cursors: records }).cursors@;
                        assert(cs[j as int].schema_index == cs[i as int].schema_index
                            && cs[j as int].tier_index == cs[i as int].tier_index
                            && cs[j as int].column == cs[i as int].column);
                        assert(!(ExportCursor { cursors: records }).wf());
                    }
                    return None;
                }
                j = j + 1;
            }
            i = i + 1;
        }
        Some(ExportCursor { cursors: records })
    }

    /// The stored entries, for persistence.
    pub fn entries(&self) -> (r: &Vec<ExportEntry>)
        ensures
            r == &self.cursors,
    {
        &self.cursors
    }

    /// The last exported timestamp for a series, if any.
    pub fn get(&self, schema_index: usize, tier_index: usize, series_column: u32) -> (r: Option<
        u64,
    >)
        ensures
            r == exported_of(self.cursors@, schema_index, tier_index, series_column),
    {
        let n = self.cursors.len();
        let mut i: usize = 0;
        while i < n
            invariant
                i <= n,
                n == self.cursors@.len(),
                forall|j: int|
                    0 <= j < i ==> !((#[trigger] self.cursors@[j]).schema_index == schema_index
                        && self.cursors@[j].tier_index == tier_index && self.cursors@[j].column
                        == series_column),
            decreases n - i,
        {
            let c = &self.cursors[i];
            if c.schema_index == schema_index && c.tier_index == tier_index && c.column
                == series_column {
                proof {
                    lemma_export_idx_first(
                        self.cursors@,
                        schema_index,
                        tier_index,
                        series_column,
                        i as int,
                    );
                }
                return Some(c.last_timestamp);
            }
            i = i + 1;
        }
        proof {
            lemma_export_idx_first(self.cursors@, schema_index, tier_index, series_column, n as int);
        }
        None
    }

    /// Records the last exported timestamp for a series.
    pub fn update(
        &mut self,
        schema_index: usize,
        tier_index: usize,
        series_column: u32,
        timestamp: u64,
    )
        requires
            old(self).wf(),
        ensures
            final(self).wf(),
            exported_of(final(self).cursors@, schema_index, tier_index, series_column) == Some(
                timestamp,
            ),
            forall|s: usize, t: usize, c: u32|
                !(s == schema_index && t == tier_index && c == series_column)
                    ==> #[trigger] exported_of(final(self).cursors@, s, t, c) == exported_of(
                    old(self).cursors@,
                    s,
                    t,
                    c,
                ),
    {
        let entry = ExportEntry {
            schema_index,
            tier_index,
            column: series_column,
            last_timestamp: timestamp,
        };
        let n = self.cursors.len();
        let mut i: usize = 0;
        while i < n
            invariant
                i <= n,
                n == self.cursors@.len(),
                *self == *old(self),
                old(self).wf(),
                entry == (ExportEntry {
                    schema_index,
                    tier_index,
                    column: series_column,
                    last_timestamp: timestamp,
                }),
                forall|j: int|
                    0 <= j < i ==> !((#[trigger] self.cursors@[j]).schema_index == schema_index
                        && self.cursors@[j].tier_index == tier_index && self.cursors@[j].column
                        == series_column),
            decreases n - i,
        {
            let c = &self.cursors[i];
            if c.schema_index == schema_index && c.tier_index == tier_index && c.column
                == series_column {
                self.cursors[i] = entry;
                proof {
                    lemma_export_update(old(self).cursors@, final(self).cursors@, entry, i as int);
                }
                return ;
            }
            i = i + 1;
        }
        self.cursors.push(entry);
        proof {
            lemma_export_push(old(self).cursors@, entry);
        }
    }
}

impl Default for ExportCursor {
    /// A fresh cursor that has exported nothing.
    fn default() -> (r: ExportCursor)
        ensures
            r.wf(),
            r.cursors@.len() == 0,
    {
        ExportCursor { cursors: Vec::new() }
    }
}

/// A found entry index lies in bounds and points at the triple's record.
proof fn lemma_export_idx_bounds(
    entries: Seq<ExportEntry>,
    schema_index: usize,
    tier_index: usize,
    column: u32,
)
    ensures
        export_idx(entries, schema_index, tier_index, column) >= 0 ==> {
            let i = export_idx(entries, schema_index, tier_index, column);
            &&& i < entries.len()
            &&& entries[i].schema_index == schema_index
            &&& entries[i].tier_index == tier_index
            &&& entries[i].column == column
        },
    decreases entries.len(),
{
    if entries.len() > 0 {
        lemma_export_idx_bounds(entries.drop_first(), schema_index, tier_index, column);
        let r = export_idx(entries.drop_first(), schema_index, tier_index, column);
        if r >= 0 {
            assert(entries.drop_first()[r] == entries[r + 1]);
        }
    }
}

/// A scan that rejected every entry before `i` has found the first.
proof fn lemma_export_idx_first(
    entries: Seq<ExportEntry>,
    schema_index: usize,
    tier_index: usize,
    column: u32,
    i: int,
)
    requires
        0 <= i <= entries.len(),
        forall|j: int|
            0 <= j < i ==> !((#[trigger] entries[j]).schema_index == schema_index
                && entries[j].tier_index == tier_index && entries[j].column == column),
    ensures
        i < entries.len() && entries[i].schema_index == schema_index && entries[i].tier_index
            == tier_index && entries[i].column == column ==> export_idx(
            entries,
            schema_index,
            tier_index,
            column,
        ) == i,
        i == entries.len() ==> export_idx(entries, schema_index, tier_index, column) == -1,
    decreases i + (entries.len() - i),
{
    if entries.len() == 0 {
    } else if i == 0 {
    } else {
        assert forall|j: int| 0 <= j < i - 1 implies !((#[trigger] entries.drop_first()[
        j]).schema_index == schema_index && entries.drop_first()[j].tier_index == tier_index
            && entries.drop_first()[j].column == column) by {
            assert(entries.drop_first()[j] == entries[j + 1]);
        }
        lemma_export_idx_first(entries.drop_first(), schema_index, tier_index, column, i - 1);
        if i < entries.len() {
            assert(entries.drop_first()[i - 1] == entries[i]);
        }
    }
}

/// Replacing the triple's entry in place keeps every other record.
proof fn lemma_export_update(
    before: Seq<ExportEntry>,
    after: Seq<ExportEntry>,
    entry: ExportEntry,
    i: int,
)
    requires
        0 <= i < before.len(),
        before[i].schema_index == entry.schema_index,
        before[i].tier_index == entry.tier_index,
        before[i].column == entry.column,
        forall|j: int|
            0 <= j < i ==> !((#[trigger] before[j]).schema_index == entry.schema_index
                && before[j].tier_index == entry.tier_index && before[j].column == entry.column),
        after == before.update(i, entry),
    ensures
        exported_of(after, entry.schema_index, entry.tier_index, entry.column) == Some(
            entry.last_timestamp,
        ),
        forall|s: usize, t: usize, c: u32|
            !(s == entry.schema_index && t == entry.tier_index && c == entry.column)
                ==> #[trigger] exported_of(after, s, t, c) == exported_of(before, s, t, c),
    decreases i,
{
    let es = entry.schema_index;
    let et = entry.tier_index;
    let ec = entry.column;
    if i == 0 {
        assert(after[0] == entry);
        assert(export_idx(after, es, et, ec) == 0);
        assert forall|s: usize, t: usize, c: u32|
            !(s == es && t == et && c == ec) implies #[trigger] exported_of(after, s, t, c)
            == exported_of(before, s, t, c) by {
            assert(after.drop_first() =~= before.drop_first());
            lemma_export_idx_bounds(after.drop_first(), s, t, c);
            let ra = export_idx(after.drop_first(), s, t, c);
            if ra >= 0 {
                assert(after[ra + 1] == after.drop_first()[ra]);
                assert(before[ra + 1] == before.drop_first()[ra]);
            }
        }
    } else {
        assert(after.drop_first() =~= before.drop_first().update(i - 1, entry));
        lemma_export_update(before.drop_first(), after.drop_first(), entry, i - 1);
        assert(after[0] == before[0]);
        assert(!(before[0].schema_index == es && before[0].tier_index == et && before[0].column
            == ec));
        lemma_export_idx_bounds(after.drop_first(), es, et, ec);
        let r = export_idx(after.drop_first(), es, et, ec);
        assert(exported_of(after.drop_first(), es, et, ec) == Some(entry.last_timestamp));
        assert(r >= 0);
        assert(after[r + 1] == after.drop_first()[r]);
        assert(export_idx(after, es, et, ec) == r + 1);
        assert forall|s: usize, t: usize, c: u32|
            !(s == es && t == et && c == ec) implies #[trigger] exported_of(after, s, t, c)
            == exported_of(before, s, t, c) by {
            assert(exported_of(after.drop_first(), s, t, c) == exported_of(
                before.drop_first(),
                s,
                t,
                c,
            ));
            lemma_export_idx_bounds(after.drop_first(), s, t, c);
            lemma_export_idx_bounds(before.drop_first(), s, t, c);
            let ra = export_idx(after.drop_first(), s, t, c);
            let rb = export_idx(before.drop_first(), s, t, c);
            if ra >= 0 {
                assert(after[ra + 1] == after.drop_first()[ra]);
            }
            if rb >= 0 {
                assert(before[rb + 1] == before.drop_first()[rb]);
            }
        }
    }
}

/// Appending an entry for a triple that had none records it, leaving
/// every other record alone.
proof fn lemma_export_push(before: Seq<ExportEntry>, entry: ExportEntry)
    requires
        forall|j: int|
            0 <= j < before.len() ==> !((#[trigger] before[j]).schema_index == entry.schema_index
                && before[j].tier_index == entry.tier_index && before[j].column == entry.column),
    ensures
        exported_of(before.push(entry), entry.schema_index, entry.tier_index, entry.column)
            == Some(entry.last_timestamp),
        forall|s: usize, t: usize, c: u32|
            !(s == entry.schema_index && t == entry.tier_index && c == entry.column)
                ==> #[trigger] exported_of(before.push(entry), s, t, c) == exported_of(
                before,
                s,
                t,
                c,
            ),
    decreases before.len(),
{
    let es = entry.schema_index;
    let et = entry.tier_index;
    let ec = entry.column;
    let pushed = before.push(entry);
    if before.len() == 0 {
        assert(pushed[0] == entry);
        assert(export_idx(pushed, es, et, ec) == 0);
        assert forall|s: usize, t: usize, c: u32|
            !(s == es && t == et && c == ec) implies #[trigger] exported_of(pushed, s, t, c)
            == exported_of(before, s, t, c) by {
            assert(pushed.drop_first() =~= Seq::<ExportEntry>::empty());
            assert(export_idx(Seq::<ExportEntry>::empty(), s, t, c) == -1);
            assert(export_idx(pushed, s, t, c) == -1);
            assert(export_idx(before, s, t, c) == -1);
        }
    } else {
        lemma_export_push(before.drop_first(), entry);
        assert(pushed[0] == before[0]);
        assert(pushed.drop_first() =~= before.drop_first().push(entry));
        assert(!(before[0].schema_index == es && before[0].tier_index == et && before[0].column
            == ec));
        lemma_export_idx_bounds(before.drop_first().push(entry), es, et, ec);
        let r = export_idx(before.drop_first().push(entry), es, et, ec);
        assert(exported_of(before.drop_first().push(entry), es, et, ec) == Some(
            entry.last_timestamp,
        ));
        assert(r >= 0);
        assert(pushed[r + 1] == pushed.drop_first()[r]);
        assert(export_idx(pushed, es, et, ec) == r + 1);
        assert forall|s: usize, t: usize, c: u32|
            !(s == es && t == et && c == ec) implies #[trigger] exported_of(pushed, s, t, c)
            == exported_of(before, s, t, c) by {
            assert(exported_of(before.drop_first().push(entry), s, t, c) == exported_of(
                before.drop_first(),
                s,
                t,
                c,
            ));
            lemma_export_idx_bounds(pushed.drop_first(), s, t, c);
            lemma_export_idx_bounds(before.drop_first(), s, t, c);
            let ra = export_idx(pushed.drop_first(), s, t, c);
            let rb = export_idx(before.drop_first(), s, t, c);
            if ra >= 0 {
                assert(pushed[ra + 1] == pushed.drop_first()[ra]);
            }
            if rb >= 0 {
                assert(before[rb + 1] == before.drop_first()[rb]);
            }
        }
    }
}

/// A batch of exported points for one series.
#[derive(Debug)]
pub struct SeriesExport {
    /// The series the points belong to.
    pub handle: SeriesHandle,
    /// The exported (timestamp, value bits) pairs, in chronological order.
    pub points: Vec<(u64, u64)>,
}

/// What a drain of one series yields: everything in the ring strictly
/// newer than the cursor, up to and including the newest sample.
pub open spec fn drain_spec(v: RingView, column: u32, last: Option<u64>) -> Seq<(u64, u64)> {
    if v.spec_oldest() is None || v.spec_newest() is None {
        Seq::empty()
    } else {
        let oldest = v.spec_oldest()->0;
        let newest = v.spec_newest()->0;
        let start_i: int = match last {
            Some(l) => l as int + 1,
            None => oldest as int,
        };
        let end_i: int = if newest == u64::MAX {
            u64::MAX as int
        } else {
            newest as int + 1
        };
        if start_i >= end_i {
            Seq::empty()
        } else {
            read_points(v, column, start_i as u64, end_i as u64)
        }
    }
}

/// Every drained point lies strictly above the cursor it was drained
/// from, so across successive drains no point is ever handed out twice.
pub proof fn lemma_drain_above_cursor(v: RingView, column: u32, last: u64)
    requires
        v.wf(),
        blank_slots(v),
        column < v.slab.max_series,
    ensures
        forall|i: int|
            0 <= i < drain_spec(v, column, Some(last)).len() ==> (#[trigger] drain_spec(
                v,
                column,
                Some(last),
            )[i]).0 > last,
{
    if !(v.spec_oldest() is None || v.spec_newest() is None) {
        let newest = v.spec_newest()->0;
        let end_i: int = if newest == u64::MAX {
            u64::MAX as int
        } else {
            newest as int + 1
        };
        if last as int + 1 < end_i {
            crate::ring_laws::lemma_read_no_empty_forms(
                v,
                column,
                (last + 1) as u64,
                end_i as u64,
            );
        }
    }
}

/// Within one drain the points are strictly increasing, so none repeats.
pub proof fn lemma_drain_sorted(v: RingView, column: u32, last: Option<u64>)
    requires
        chron(v),
        blank_slots(v),
        column < v.slab.max_series,
    ensures
        forall|i: int, j: int|
            0 <= i < j < drain_spec(v, column, last).len() ==> (#[trigger] drain_spec(
                v,
                column,
                last,
            )[i]).0 < (#[trigger] drain_spec(v, column, last)[j]).0,
{
    if !(v.spec_oldest() is None || v.spec_newest() is None) {
        let oldest = v.spec_oldest()->0;
        let newest = v.spec_newest()->0;
        let start_i: int = match last {
            Some(l) => l as int + 1,
            None => oldest as int,
        };
        let end_i: int = if newest == u64::MAX {
            u64::MAX as int
        } else {
            newest as int + 1
        };
        if start_i < end_i {
            crate::ring_laws::lemma_read_sorted(v, column, start_i as u64, end_i as u64);
        }
    }
}

/// Drains one series of one tier: returns the points newer than the
/// cursor and advances the cursor to the last returned timestamp.
pub fn drain_series(
    ring: &RingBuffer,
    schema_index: usize,
    tier_index: usize,
    series_column: u32,
    cursor: &mut ExportCursor,
) -> (r: Result<Vec<(u64, u64)>, RondoError>)
    requires
        ring@.wf(),
        series_column < ring@.slab.max_series,
        old(cursor).wf(),
    ensures
        final(cursor).wf(),
        r is Ok,
        r matches Ok(points) ==> {
            &&& points@ == drain_spec(
                ring@,
                series_column,
                exported_of(old(cursor).cursors@, schema_index, tier_index, series_column),
            )
            &&& (points@.len() == 0 ==> *final(cursor) == *old(cursor))
            &&& (points@.len() > 0 ==> {
                &&& exported_of(final(cursor).cursors@, schema_index, tier_index, series_column)
                    == Some(points@.last().0)
                &&& forall|s: usize, t: usize, c: u32|
                    !(s == schema_index && t == tier_index && c == series_column)
                        ==> #[trigger] exported_of(final(cursor).cursors@, s, t, c) == exported_of(
                        old(cursor).cursors@,
                        s,
                        t,
                        c,
                    )
            })
        },
{
    let last_exported = cursor.get(schema_index, tier_index, series_column);
    let oldest = ring.oldest_timestamp();
    let newest = ring.newest_timestamp();
    let oldest_ts = match oldest {
        Some(t) => t,
        None => {
            return Ok(Vec::new());
        },
    };
    let newest_ts = match newest {
        Some(t) => t,
        None => {
            return Ok(Vec::new());
        },
    };
    let start = match last_exported {
        Some(ts) => {
            match ts.checked_add(1) {
                Some(s) => s,
                None => {
                    return Ok(Vec::new());
                },
            }
        },
        None => oldest_ts,
    };
    let end = if newest_ts == u64::MAX {
        u64::MAX
    } else {
        newest_ts + 1
    };
    if start >= end {
        return Ok(Vec::new());
    }
    let points = match ring.read(series_column, start, end) {
        Ok(p) => p,
        Err(e) => {
            return Err(e);
        },
    };
    if points.len() > 0 {
        let last_ts = points[points.len() - 1].0;
        proof {
            assert(points@[points@.len() - 1] == points@.last());
        }
        cursor.update(schema_index, tier_index, series_column, last_ts);
    }
    Ok(points)
}

/// Drains one listed series and appends its batch when it has new
/// points: the batch is the series' full pending run against the
/// cursor, the cursor advances to its last timestamp, and every other
/// key keeps its value.
fn drain_one(
    ring: &RingBuffer,
    schema_index: usize,
    tier_index: usize,
    handle: SeriesHandle,
    cursor: &mut ExportCursor,
    exports: &mut Vec<SeriesExport>,
) -> (r: Result<(), RondoError>)
    requires
        ring@.wf(),
        handle.schema_index == schema_index,
        handle.column < ring@.slab.max_series,
        old(cursor).wf(),
    ensures
        final(cursor).wf(),
        r is Ok,
        ({
            let d = drain_spec(
                ring@,
                handle.column,
                exported_of(old(cursor).cursors@, schema_index, tier_index, handle.column),
            );
            &&& (d.len() == 0 ==> *final(cursor) == *old(cursor) && final(exports)@ == old(
                exports,
            )@)
            &&& (d.len() > 0 ==> {
                &&& final(exports)@.len() == old(exports)@.len() + 1
                &&& forall|k: int|
                    0 <= k < old(exports)@.len() ==> #[trigger] final(exports)@[k] == old(
                        exports,
                    )@[k]
                &&& final(exports)@.last().handle == handle
                &&& final(exports)@.last().points@ == d
                &&& exported_of(final(cursor).cursors@, schema_index, tier_index, handle.column)
                    == Some(d.last().0)
            })
            &&& forall|s: usize, t: usize, c: u32|
                !(s == schema_index && t == tier_index && c == handle.column)
                    ==> #[trigger] exported_of(final(cursor).cursors@, s, t, c) == exported_of(
                    old(cursor).cursors@,
                    s,
                    t,
                    c,
                )
        }),
{
    let points = match drain_series(ring, schema_index, tier_index, handle.column, cursor) {
        Ok(p) => p,
        Err(e) => {
            return Err(e);
        },
    };
    if points.len() > 0 {
        exports.push(SeriesExport { handle, points });
    }
    Ok(())
}

/// Drains every given series of one tier, returning one batch per series
/// that had new data: each batch is exactly that series' pending points
/// against the cursor as the pass found it, the cursor advances to each
/// batch's last timestamp, and keys of other tiers keep their value.
#[verifier::rlimit(100)]
pub fn drain_tier(
    rings: &Vec<Vec<RingBuffer>>,
    schema_index: usize,
    tier_index: usize,
    handles: &[SeriesHandle],
    cursor: &mut ExportCursor,
) -> (r: Result<Vec<SeriesExport>, RondoError>)
    requires
        schema_index < rings@.len(),
        tier_index < rings@[schema_index as int]@.len(),
        rings@[schema_index as int]@[tier_index as int]@.wf(),
        forall|i: int|
            0 <= i < handles@.len() && (#[trigger] handles@[i]).schema_index == schema_index
                ==> handles@[i].column < rings@[schema_index as int]@[tier_index
                as int]@.slab.max_series,
        forall|i: int, j: int|
            0 <= i < j < handles@.len() && (#[trigger] handles@[i]).schema_index == schema_index
                && (#[trigger] handles@[j]).schema_index == schema_index ==> handles@[i].column
                != handles@[j].column,
        old(cursor).wf(),
    ensures
        final(cursor).wf(),
        r is Ok,
        r matches Ok(exports) ==> {
            let ring = rings@[schema_index as int]@[tier_index as int]@;
            // each batch is one listed series' full pending run
            &&& forall|k: int|
                0 <= k < exports@.len() ==> {
                    let h = (#[trigger] exports@[k]).handle;
                    &&& h.schema_index == schema_index
                    &&& exports@[k].points@.len() > 0
                    &&& exports@[k].points@ == drain_spec(
                        ring,
                        h.column,
                        exported_of(old(cursor).cursors@, schema_index, tier_index, h.column),
                    )
                    &&& exists|p: int| 0 <= p < handles@.len() && (#[trigger] handles@[p]) == h
                }
            // every listed series with pending points is in the batch
            // with the cursor advanced; one with none keeps its value
            &&& forall|p: int|
                0 <= p < handles@.len() && (#[trigger] handles@[p]).schema_index == schema_index
                    ==> {
                    let d = drain_spec(
                        ring,
                        handles@[p].column,
                        exported_of(
                            old(cursor).cursors@,
                            schema_index,
                            tier_index,
                            handles@[p].column,
                        ),
                    );
                    &&& (d.len() > 0 ==> exported_of(
                        final(cursor).cursors@,
                        schema_index,
                        tier_index,
                        handles@[p].column,
                    ) == Some(d.last().0) && exists|k: int|
                        0 <= k < exports@.len() && (#[trigger] exports@[k]).handle == handles@[p])
                    &&& (d.len() == 0 ==> exported_of(
                        final(cursor).cursors@,
                        schema_index,
                        tier_index,
                        handles@[p].column,
                    ) == exported_of(
                        old(cursor).cursors@,
                        schema_index,
                        tier_index,
                        handles@[p].column,
                    ))
                }
            // keys of other tiers keep their value
            &&& forall|s: usize, t: usize, c: u32|
                !(s == schema_index && t == tier_index) ==> #[trigger] exported_of(
                    final(cursor).cursors@,
                    s,
                    t,
                    c,
                ) == exported_of(old(cursor).cursors@, s, t, c)
        },
{
    let mut exports: Vec<SeriesExport> = Vec::new();
    let ring = &rings[schema_index][tier_index];
    let n = handles.len();
    let mut i: usize = 0;
    while i < n
        invariant
            i <= n,
            n == handles@.len(),
            ring@.wf(),
            ring@ == rings@[schema_index as int]@[tier_index as int]@,
            forall|k: int|
                0 <= k < handles@.len() && (#[trigger] handles@[k]).schema_index == schema_index
                    ==> handles@[k].column < ring@.slab.max_series,
            forall|p: int, q: int|
                0 <= p < q < handles@.len() && (#[trigger] handles@[p]).schema_index
                    == schema_index && (#[trigger] handles@[q]).schema_index == schema_index
                    ==> handles@[p].column != handles@[q].column,
            cursor.wf(),
            forall|k: int|
                0 <= k < exports@.len() ==> {
                    let h = (#[trigger] exports@[k]).handle;
                    &&& h.schema_index == schema_index
                    &&& exports@[k].points@.len() > 0
                    &&& exports@[k].points@ == drain_spec(
                        ring@,
                        h.column,
                        exported_of(old(cursor).cursors@, schema_index, tier_index, h.column),
                    )
                    &&& exists|p: int| 0 <= p < i && (#[trigger] handles@[p]) == h
                },
            forall|p: int|
                0 <= p < i && (#[trigger] handles@[p]).schema_index == schema_index ==> {
                    let d = drain_spec(
                        ring@,
                        handles@[p].column,
                        exported_of(
                            old(cursor).cursors@,
                            schema_index,
                            tier_index,
                            handles@[p].column,
                        ),
                    );
                    &&& (d.len() > 0 ==> exported_of(
                        cursor.cursors@,
                        schema_index,
                        tier_index,
                        handles@[p].column,
                    ) == Some(d.last().0) && exists|k: int|
                        0 <= k < exports@.len() && (#[trigger] exports@[k]).handle == handles@[p])
                    &&& (d.len() == 0 ==> exported_of(
                        cursor.cursors@,
                        schema_index,
                        tier_index,
                        handles@[p].column,
                    ) == exported_of(
                        old(cursor).cursors@,
                        schema_index,
                        tier_index,
                        handles@[p].column,
                    ))
                },
            forall|p: int|
                i <= p < n && (#[trigger] handles@[p]).schema_index == schema_index
                    ==> exported_of(
                    cursor.cursors@,
                    schema_index,
                    tier_index,
                    handles@[p].column,
                ) == exported_of(
                    old(cursor).cursors@,
                    schema_index,
                    tier_index,
                    handles@[p].column,
                ),
            forall|s: usize, t: usize, c: u32|
                !(s == schema_index && t == tier_index) ==> #[trigger] exported_of(
                    cursor.cursors@,
                    s,
                    t,
                    c,
                ) == exported_of(old(cursor).cursors@, s, t, c),
        decreases n - i,
    {
        let handle = handles[i];
        let ghost cpre = cursor.cursors@;
        let ghost epre = exports@;
        if handle.schema_index == schema_index {
            proof {
                assert(exported_of(cursor.cursors@, schema_index, tier_index, handle.column)
                    == exported_of(old(cursor).cursors@, schema_index, tier_index, handle.column));
            }
            match drain_one(ring, schema_index, tier_index, handle, cursor, &mut exports) {
                Ok(()) => {},
                Err(e) => {
                    return Err(e);
                },
            }
            proof {
                let ghost di = drain_spec(
                    ring@,
                    handle.column,
                    exported_of(old(cursor).cursors@, schema_index, tier_index, handle.column),
                );
                assert forall|p: int|
                    0 <= p < i + 1 && (#[trigger] handles@[p]).schema_index
                        == schema_index implies {
                    let d = drain_spec(
                        ring@,
                        handles@[p].column,
                        exported_of(
                            old(cursor).cursors@,
                            schema_index,
                            tier_index,
                            handles@[p].column,
                        ),
                    );
                    &&& (d.len() > 0 ==> exported_of(
                        cursor.cursors@,
                        schema_index,
                        tier_index,
                        handles@[p].column,
                    ) == Some(d.last().0) && exists|k: int|
                        0 <= k < exports@.len() && (#[trigger] exports@[k]).handle == handles@[p])
                    &&& (d.len() == 0 ==> exported_of(
                        cursor.cursors@,
                        schema_index,
                        tier_index,
                        handles@[p].column,
                    ) == exported_of(
                        old(cursor).cursors@,
                        schema_index,
                        tier_index,
                        handles@[p].column,
                    ))
                } by {
                    if p < i {
                        assert(handles@[p].column != handles@[i as int].column);
                        assert(exported_of(cursor.cursors@, schema_index, tier_index, handles@[
                        p].column) == exported_of(cpre, schema_index, tier_index, handles@[
                        p].column));
                        let d = drain_spec(
                            ring@,
                            handles@[p].column,
                            exported_of(
                                old(cursor).cursors@,
                                schema_index,
                                tier_index,
                                handles@[p].column,
                            ),
                        );
                        if d.len() > 0 {
                            let k0 = choose|k: int|
                                0 <= k < epre.len() && (#[trigger] epre[k]).handle == handles@[p];
                            assert(exports@[k0] == epre[k0]);
                        }
                    } else {
                        if di.len() > 0 {
                            assert(exports@[exports@.len() - 1].handle == handles@[p]);
                        }
                    }
                }
                assert forall|p: int|
                    i + 1 <= p < n && (#[trigger] handles@[p]).schema_index
                        == schema_index implies exported_of(
                    cursor.cursors@,
                    schema_index,
                    tier_index,
                    handles@[p].column,
                ) == exported_of(
                    old(cursor).cursors@,
                    schema_index,
                    tier_index,
                    handles@[p].column,
                ) by {
                    assert(handles@[p].column != handles@[i as int].column);
                    assert(exported_of(cursor.cursors@, schema_index, tier_index, handles@[
                    p].column) == exported_of(cpre, schema_index, tier_index, handles@[p].column));
                }
                assert forall|s: usize, t: usize, c: u32|
                    !(s == schema_index && t == tier_index) implies #[trigger] exported_of(
                    cursor.cursors@,
                    s,
                    t,
                    c,
                ) == exported_of(old(cursor).cursors@, s, t, c) by {
                    assert(exported_of(cursor.cursors@, s, t, c) == exported_of(cpre, s, t, c));
                }
                assert forall|k: int| 0 <= k < exports@.len() implies {
                    let h = (#[trigger] exports@[k]).handle;
                    &&& h.schema_index == schema_index
                    &&& exports@[k].points@.len() > 0
                    &&& exports@[k].points@ == drain_spec(
                        ring@,
                        h.column,
                        exported_of(old(cursor).cursors@, schema_index, tier_index, h.column),
                    )
                    &&& exists|p: int| 0 <= p < i + 1 && (#[trigger] handles@[p]) == h
                } by {
                    if k < epre.len() {
                        assert(exports@[k] == epre[k]);
                    } else {
                        assert(exports@[k].handle == handle);
                        assert(exports@[k].points@ == di);
                        assert(handles@[i as int] == handle);
                    }
                }
            }
        }
        i = i + 1;
    }
    Ok(exports)
}

} // verus!
