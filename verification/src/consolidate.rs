//! Incremental downsampling between adjacent tiers.
//!
//! For every schema with more than one tier, the engine reads what the
//! source tier gained since the pair's cursor, buckets the samples into
//! windows aligned to the destination tier's interval, reduces each
//! window with the destination's consolidation function, and writes the
//! results into the destination ring.  Cursors record the newest source
//! timestamp consumed, so a later pass continues where this one ended.
//!
//! The order comparisons behind `Min`, `Max` and `Last` are exact integer
//! logic on the value bit patterns.  `Average`, `Sum` and `Count` need
//! floating-point arithmetic, which the engine cannot perform itself; the
//! caller supplies it as a function from the reducer and the window's
//! finite values to the reduced bit pattern.

use vstd::prelude::*;

use crate::error::{ConsolidationError, RondoError};
use crate::fbits::{bits_lt, finite_bits, is_finite_bits, lt_bits, nan_bits};
use crate::ring::RingBuffer;
use crate::schema::{schema_valid, ConsolidationFn, SchemaConfig};

verus! {

/// Progress record for one (schema, source tier, destination tier) pair.
#[derive(Debug, Clone, Copy, PartialEq, Eq, Structural)]
pub struct ConsolidationCursor {
    /// Schema index this cursor belongs to.
    pub schema_index: usize,
    /// Source tier index (higher resolution).
    pub source_tier_index: usize,
    /// Destination tier index (lower resolution).
    pub dest_tier_index: usize,
    /// Last timestamp consumed from the source tier.
    pub last_processed_timestamp: u64,
}

/// Index of the first cursor for the given pair, or -1.
pub open spec fn cursor_idx(
    cursors: Seq<ConsolidationCursor>,
    schema_index: usize,
    source_tier: usize,
    dest_tier: usize,
) -> int
    decreases cursors.len(),
{
    if cursors.len() == 0 {
        -1
    } else if cursors[0].schema_index == schema_index && cursors[0].source_tier_index
        == source_tier && cursors[0].dest_tier_index == dest_tier {
        0
    } else {
        let r = cursor_idx(cursors.drop_first(), schema_index, source_tier, dest_tier);
        if r < 0 {
            -1
        } else {
            r + 1
        }
    }
}

/// The recorded timestamp for a pair, if a cursor exists.
pub open spec fn last_processed_of(
    cursors: Seq<ConsolidationCursor>,
    schema_index: usize,
    source_tier: usize,
    dest_tier: usize,
) -> Option<u64> {
    let i = cursor_idx(cursors, schema_index, source_tier, dest_tier);
    if i < 0 {
        None
    } else {
        Some(cursors[i].last_processed_timestamp)
    }
}

/// Consolidation is progress-monotonic: no pair's recorded timestamp
/// ever moves backwards, and no pair's record disappears.
pub open spec fn cursors_monotone(
    before: Seq<ConsolidationCursor>,
    after: Seq<ConsolidationCursor>,
) -> bool {
    forall|s: usize, a: usize, b: usize|
        match #[trigger] last_processed_of(before, s, a, b) {
            Option::None => true,
            Option::Some(x) => match last_processed_of(after, s, a, b) {
                Option::Some(y) => x <= y,
                Option::None => false,
            },
        }
}

/// Progress-monotonicity composes across passes.
pub proof fn lemma_cursors_monotone_trans(
    a: Seq<ConsolidationCursor>,
    b: Seq<ConsolidationCursor>,
    c: Seq<ConsolidationCursor>,
)
    requires
        cursors_monotone(a, b),
        cursors_monotone(b, c),
    ensures
        cursors_monotone(a, c),
{
    assert forall|s: usize, t: usize, d: usize|
        match #[trigger] last_processed_of(a, s, t, d) {
            Option::None => true,
            Option::Some(x) => match last_processed_of(c, s, t, d) {
                Option::Some(y) => x <= y,
                Option::None => false,
            },
        } by {
        assert(match last_processed_of(a, s, t, d) {
            Option::None => true,
            Option::Some(x) => match last_processed_of(b, s, t, d) {
                Option::Some(y) => x <= y,
                Option::None => false,
            },
        });
        assert(match last_processed_of(b, s, t, d) {
            Option::None => true,
            Option::Some(x) => match last_processed_of(c, s, t, d) {
                Option::Some(y) => x <= y,
                Option::None => false,
            },
        });
    }
}

/// The set of consolidation cursors, one per processed tier pair.
#[derive(Debug)]
pub struct ConsolidationCursors {
    /// The cursors, at most one per (schema, source, destination) triple.
    pub cursors: Vec<ConsolidationCursor>,
}

impl ConsolidationCursors {
    /// At most one cursor per pair.
    pub open spec fn wf(self) -> bool {
        forall|i: int, j: int|
            #![trigger self.cursors@[i], self.cursors@[j]]
            0 <= i < j < self.cursors@.len() ==> !(self.cursors@[i].schema_index
                == self.cursors@[j].schema_index && self.cursors@[i].source_tier_index
                == self.cursors@[j].source_tier_index && self.cursors@[i].dest_tier_index
                == self.cursors@[j].dest_tier_index)
    }

    /// An empty cursor set.
    pub fn new() -> (r: ConsolidationCursors)
        ensures
            r.wf(),
            r.cursors@.len() == 0,
    {
        ConsolidationCursors { cursors: Vec::new() }
    }

    /// Rebuilds a cursor set from stored records: succeeds exactly when
    /// no tier pair is recorded twice.
    pub fn from_records(records: Vec<ConsolidationCursor>) -> (r: Option<ConsolidationCursors>)
        ensures
            r is Some <==> (ConsolidationCursors { cursors: records }).wf(),
            r matches Some(c) ==> c.wf() && c.cursors == records,
    {
        let n = records.len();
        let mut i: usize = 0;
        while i < n
            invariant
                i <= n,
                n == records@.len(),
                forall|p: int, q: int|
                    #![trigger records@[p], records@[q]]
                    0 <= p < q < i ==> !(records@[p].schema_index == records@[q].schema_index
                        && records@[p].source_tier_index == records@[q].source_tier_index
                        && records@[p].dest_tier_index == records@[q].dest_tier_index),
            decreases n - i,
        {
            let mut j: usize = 0;
            while j < i
                invariant
                    j <= i,
                    i < n,
                    n == records@.len(),
                    forall|q: int|
                        0 <= q < j ==> !((#[trigger] records@[q]).schema_index
                            == records@[i as int].schema_index && records@[q].source_tier_index
                            == records@[i as int].source_tier_index
                            && records@[q].dest_tier_index
                            == records@[i as int].dest_tier_index),
                decreases i - j,
            {
                if records[j].schema_index == records[i].schema_index
                    && records[j].source_tier_index == records[i].source_tier_index
                    && records[j].dest_tier_index == records[i].dest_tier_index {
                    proof {
                        let ghost cs = (ConsolidationCursors { cursors: records }).cursors@;
                        assert(cs[j as int].schema_index == cs[i as int].schema_index
                            && cs[j as int].source_tier_index == cs[i as int].source_tier_index
                            && cs[j as int].dest_tier_index == cs[i as int].dest_tier_index);
                        assert(!(ConsolidationCursors { cursors: records }).wf());
                    }
                    return None;
                }
                j = j + 1;
            }
            i = i + 1;
        }
        Some(ConsolidationCursors { cursors: records })
    }

    /// Finds the cursor for a pair.
    pub fn get_cursor(&self, schema_index: usize, source_tier: usize, dest_tier: usize) -> (r:
        Option<&ConsolidationCursor>)
        ensures
            r is Some <==> cursor_idx(self.cursors@, schema_index, source_tier, dest_tier) >= 0,
            r matches Some(c) ==> *c == self.cursors@[cursor_idx(
                self.cursors@,
                schema_index,
                source_tier,
                dest_tier,
            )],
    {
        let n = self.cursors.len();
        let mut i: usize = 0;
        while i < n
            invariant
                i <= n,
                n == self.cursors@.len(),
                forall|j: int|
                    0 <= j < i ==> !((#[trigger] self.cursors@[j]).schema_index == schema_index
                        && self.cursors@[j].source_tier_index == source_tier
                        && self.cursors@[j].dest_tier_index == dest_tier),
            decreases n - i,
        {
            let c = &self.cursors[i];
            if c.schema_index == schema_index && c.source_tier_index == source_tier
                && c.dest_tier_index == dest_tier {
                proof {
                    lemma_cursor_idx_first(
                        self.cursors@,
                        schema_index,
                        source_tier,
                        dest_tier,
                        i as int,
                    );
                }
                return Some(c);
            }
            i = i + 1;
        }
        proof {
            lemma_cursor_idx_first(self.cursors@, schema_index, source_tier, dest_tier, n as int);
        }
        None
    }

    /// The recorded timestamp for a pair, if any.
    pub fn get_last_processed(
        &self,
        schema_index: usize,
        source_tier: usize,
        dest_tier: usize,
    ) -> (r: Option<u64>)
        ensures
            r == last_processed_of(self.cursors@, schema_index, source_tier, dest_tier),
    {
        match self.get_cursor(schema_index, source_tier, dest_tier) {
            Some(c) => Some(c.last_processed_timestamp),
            None => None,
        }
    }

    /// Stores a cursor, replacing the pair's previous record.
    pub fn set_cursor(&mut self, cursor: ConsolidationCursor)
        requires
            old(self).wf(),
        ensures
            final(self).wf(),
            last_processed_of(
                final(self).cursors@,
                cursor.schema_index,
                cursor.source_tier_index,
                cursor.dest_tier_index,
            ) == Some(cursor.last_processed_timestamp),
            forall|s: usize, a: usize, b: usize|
                !(s == cursor.schema_index && a == cursor.source_tier_index && b
                    == cursor.dest_tier_index) ==> #[trigger] last_processed_of(
                    final(self).cursors@,
                    s,
                    a,
                    b,
                ) == last_processed_of(old(self).cursors@, s, a, b),
    {
        let n = self.cursors.len();
        let mut i: usize = 0;
        while i < n
            invariant
                i <= n,
                n == self.cursors@.len(),
                *self == *old(self),
                old(self).wf(),
                forall|j: int|
                    0 <= j < i ==> !((#[trigger] self.cursors@[j]).schema_index
                        == cursor.schema_index && self.cursors@[j].source_tier_index
                        == cursor.source_tier_index && self.cursors@[j].dest_tier_index
                        == cursor.dest_tier_index),
            decreases n - i,
        {
            let c = &self.cursors[i];
            if c.schema_index == cursor.schema_index && c.source_tier_index
                == cursor.source_tier_index && c.dest_tier_index == cursor.dest_tier_index {
                self.cursors[i] = cursor;
                proof {
                    lemma_cursor_update(old(self).cursors@, final(self).cursors@, cursor, i as int);
                }
                return ;
            }
            i = i + 1;
        }
        self.cursors.push(cursor);
        proof {
            lemma_cursor_push(old(self).cursors@, cursor);
        }
    }

    /// Records the newest consumed timestamp for a pair.
    pub fn update_last_processed(
        &mut self,
        schema_index: usize,
        source_tier: usize,
        dest_tier: usize,
        timestamp: u64,
    )
        requires
            old(self).wf(),
        ensures
            final(self).wf(),
            last_processed_of(final(self).cursors@, schema_index, source_tier, dest_tier) == Some(
                timestamp,
            ),
            forall|s: usize, a: usize, b: usize|
                !(s == schema_index && a == source_tier && b == dest_tier)
                    ==> #[trigger] last_processed_of(final(self).cursors@, s, a, b)
                    == last_processed_of(old(self).cursors@, s, a, b),
    {
        self.set_cursor(
            ConsolidationCursor {
                schema_index,
                source_tier_index: source_tier,
                dest_tier_index: dest_tier,
                last_processed_timestamp: timestamp,
            },
        );
    }

    /// The stored cursors, for persistence.
    pub fn iter_cursors(&self) -> (r: &Vec<ConsolidationCursor>)
        ensures
            r == &self.cursors,
    {
        &self.cursors
    }
}

impl Default for ConsolidationCursors {
    /// An empty cursor set.
    fn default() -> (r: ConsolidationCursors)
        ensures
            r.wf(),
            r.cursors@.len() == 0,
    {
        ConsolidationCursors { cursors: Vec::new() }
    }
}

/// A found cursor index lies in bounds and points at the pair's record.
proof fn lemma_cursor_idx_bounds(
    cursors: Seq<ConsolidationCursor>,
    schema_index: usize,
    source_tier: usize,
    dest_tier: usize,
)
    ensures
        cursor_idx(cursors, schema_index, source_tier, dest_tier) >= 0 ==> {
            let i = cursor_idx(cursors, schema_index, source_tier, dest_tier);
            &&& i < cursors.len()
            &&& cursors[i].schema_index == schema_index
            &&& cursors[i].source_tier_index == source_tier
            &&& cursors[i].dest_tier_index == dest_tier
        },
    decreases cursors.len(),
{
    if cursors.len() > 0 {
        lemma_cursor_idx_bounds(cursors.drop_first(), schema_index, source_tier, dest_tier);
        let r = cursor_idx(cursors.drop_first(), schema_index, source_tier, dest_tier);
        if r >= 0 {
            assert(cursors.drop_first()[r] == cursors[r + 1]);
        }
    }
}

/// A scan that rejected every cursor before `i` has found the first.
proof fn lemma_cursor_idx_first(
    cursors: Seq<ConsolidationCursor>,
    schema_index: usize,
    source_tier: usize,
    dest_tier: usize,
    i: int,
)
    requires
        0 <= i <= cursors.len(),
        forall|j: int|
            0 <= j < i ==> !((#[trigger] cursors[j]).schema_index == schema_index
                && cursors[j].source_tier_index == source_tier && cursors[j].dest_tier_index
                == dest_tier),
    ensures
        i < cursors.len() && cursors[i].schema_index == schema_index
            && cursors[i].source_tier_index == source_tier && cursors[i].dest_tier_index
            == dest_tier ==> cursor_idx(cursors, schema_index, source_tier, dest_tier) == i,
        i == cursors.len() ==> cursor_idx(cursors, schema_index, source_tier, dest_tier) == -1,
    decreases i + (cursors.len() - i),
{
    if cursors.len() == 0 {
    } else if i == 0 {
    } else {
        assert forall|j: int| 0 <= j < i - 1 implies !((#[trigger] cursors.drop_first()[
        j]).schema_index == schema_index && cursors.drop_first()[j].source_tier_index
            == source_tier && cursors.drop_first()[j].dest_tier_index == dest_tier) by {
            assert(cursors.drop_first()[j] == cursors[j + 1]);
        }
        lemma_cursor_idx_first(cursors.drop_first(), schema_index, source_tier, dest_tier, i - 1);
        if i < cursors.len() {
            assert(cursors.drop_first()[i - 1] == cursors[i]);
        }
    }
}

/// Replacing the pair's cursor in place keeps every other pair's record.
proof fn lemma_cursor_update(
    before: Seq<ConsolidationCursor>,
    after: Seq<ConsolidationCursor>,
    cursor: ConsolidationCursor,
    i: int,
)
    requires
        0 <= i < before.len(),
        before[i].schema_index == cursor.schema_index,
        before[i].source_tier_index == cursor.source_tier_index,
        before[i].dest_tier_index == cursor.dest_tier_index,
        forall|j: int|
            0 <= j < i ==> !((#[trigger] before[j]).schema_index == cursor.schema_index
                && before[j].source_tier_index == cursor.source_tier_index
                && before[j].dest_tier_index == cursor.dest_tier_index),
        after == before.update(i, cursor),
    ensures
        last_processed_of(
            after,
            cursor.schema_index,
            cursor.source_tier_index,
            cursor.dest_tier_index,
        ) == Some(cursor.last_processed_timestamp),
        forall|s: usize, a: usize, b: usize|
            !(s == cursor.schema_index && a == cursor.source_tier_index && b
                == cursor.dest_tier_index) ==> #[trigger] last_processed_of(after, s, a, b)
                == last_processed_of(before, s, a, b),
    decreases i,
{
    let cs = cursor.schema_index;
    let ca = cursor.source_tier_index;
    let cb = cursor.dest_tier_index;
    if i == 0 {
        assert(after[0] == cursor);
        assert(cursor_idx(after, cs, ca, cb) == 0);
        assert forall|s: usize, a: usize, b: usize|
            !(s == cs && a == ca && b == cb) implies #[trigger] last_processed_of(after, s, a, b)
            == last_processed_of(before, s, a, b) by {
            assert(after.drop_first() =~= before.drop_first());
            lemma_cursor_idx_bounds(after.drop_first(), s, a, b);
            let ra = cursor_idx(after.drop_first(), s, a, b);
            if ra >= 0 {
                assert(after[ra + 1] == after.drop_first()[ra]);
                assert(before[ra + 1] == before.drop_first()[ra]);
            }
        }
    } else {
        assert(after.drop_first() =~= before.drop_first().update(i - 1, cursor));
        lemma_cursor_update(before.drop_first(), after.drop_first(), cursor, i - 1);
        assert(after[0] == before[0]);
        assert(!(before[0].schema_index == cs && before[0].source_tier_index == ca
            && before[0].dest_tier_index == cb));
        lemma_cursor_idx_bounds(after.drop_first(), cs, ca, cb);
        let r = cursor_idx(after.drop_first(), cs, ca, cb);
        assert(last_processed_of(after.drop_first(), cs, ca, cb) == Some(
            cursor.last_processed_timestamp,
        ));
        assert(r >= 0);
        assert(after[r + 1] == after.drop_first()[r]);
        assert(cursor_idx(after, cs, ca, cb) == r + 1);
        assert forall|s: usize, a: usize, b: usize|
            !(s == cs && a == ca && b == cb) implies #[trigger] last_processed_of(after, s, a, b)
            == last_processed_of(before, s, a, b) by {
            assert(last_processed_of(after.drop_first(), s, a, b) == last_processed_of(
                before.drop_first(),
                s,
                a,
                b,
            ));
            lemma_cursor_idx_bounds(after.drop_first(), s, a, b);
            lemma_cursor_idx_bounds(before.drop_first(), s, a, b);
            let ra = cursor_idx(after.drop_first(), s, a, b);
            let rb = cursor_idx(before.drop_first(), s, a, b);
            if ra >= 0 {
                assert(after[ra + 1] == after.drop_first()[ra]);
            }
            if rb >= 0 {
                assert(before[rb + 1] == before.drop_first()[rb]);
            }
        }
    }
}

/// Appending a cursor for a pair that had none records it, leaving every
/// other pair's record alone.
proof fn lemma_cursor_push(before: Seq<ConsolidationCursor>, cursor: ConsolidationCursor)
    requires
        forall|j: int|
            0 <= j < before.len() ==> !((#[trigger] before[j]).schema_index == cursor.schema_index
                && before[j].source_tier_index == cursor.source_tier_index
                && before[j].dest_tier_index == cursor.dest_tier_index),
    ensures
        last_processed_of(
            before.push(cursor),
            cursor.schema_index,
            cursor.source_tier_index,
            cursor.dest_tier_index,
        ) == Some(cursor.last_processed_timestamp),
        forall|s: usize, a: usize, b: usize|
            !(s == cursor.schema_index && a == cursor.source_tier_index && b
                == cursor.dest_tier_index) ==> #[trigger] last_processed_of(
                before.push(cursor),
                s,
                a,
                b,
            ) == last_processed_of(before, s, a, b),
    decreases before.len(),
{
    let cs = cursor.schema_index;
    let ca = cursor.source_tier_index;
    let cb = cursor.dest_tier_index;
    let pushed = before.push(cursor);
    if before.len() == 0 {
        assert(pushed[0] == cursor);
        assert(cursor_idx(pushed, cs, ca, cb) == 0);
        assert forall|s: usize, a: usize, b: usize|
            !(s == cs && a == ca && b == cb) implies #[trigger] last_processed_of(pushed, s, a, b)
            == last_processed_of(before, s, a, b) by {
            assert(pushed.drop_first() =~= Seq::<ConsolidationCursor>::empty());
            assert(cursor_idx(Seq::<ConsolidationCursor>::empty(), s, a, b) == -1);
            assert(cursor_idx(pushed, s, a, b) == -1);
            assert(cursor_idx(before, s, a, b) == -1);
        }
    } else {
        lemma_cursor_push(before.drop_first(), cursor);
        assert(pushed[0] == before[0]);
        assert(pushed.drop_first() =~= before.drop_first().push(cursor));
        assert(!(before[0].schema_index == cs && before[0].source_tier_index == ca
            && before[0].dest_tier_index == cb));
        lemma_cursor_idx_bounds(before.drop_first().push(cursor), cs, ca, cb);
        let r = cursor_idx(before.drop_first().push(cursor), cs, ca, cb);
        assert(last_processed_of(before.drop_first().push(cursor), cs, ca, cb) == Some(
            cursor.last_processed_timestamp,
        ));
        assert(r >= 0);
        assert(pushed[r + 1] == pushed.drop_first()[r]);
        assert(cursor_idx(pushed, cs, ca, cb) == r + 1);
        assert forall|s: usize, a: usize, b: usize|
            !(s == cs && a == ca && b == cb) implies #[trigger] last_processed_of(pushed, s, a, b)
            == last_processed_of(before, s, a, b) by {
            assert(last_processed_of(before.drop_first().push(cursor), s, a, b)
                == last_processed_of(before.drop_first(), s, a, b));
            lemma_cursor_idx_bounds(pushed.drop_first(), s, a, b);
            lemma_cursor_idx_bounds(before.drop_first(), s, a, b);
            let ra = cursor_idx(pushed.drop_first(), s, a, b);
            let rb = cursor_idx(before.drop_first(), s, a, b);
            if ra >= 0 {
                assert(pushed[ra + 1] == pushed.drop_first()[ra]);
            }
            if rb >= 0 {
                assert(before[rb + 1] == before.drop_first()[rb]);
            }
        }
    }
}

/// One consolidation window: samples of the source tier bucketed to a
/// destination-aligned start timestamp, per series column.
#[derive(Debug)]
pub struct ConsolidationWindow {
    /// Start timestamp of the window (inclusive), aligned to the
    /// destination interval.
    pub start_timestamp: u64,
    /// End timestamp of the window (exclusive).
    pub end_timestamp: u64,
    /// Collected value bits per series column, in arrival order.
    pub data: Vec<(u32, Vec<u64>)>,
}

impl ConsolidationWindow {
    /// Every recorded column lies below the bound.
    pub open spec fn cols_below(self, max_series: u32) -> bool {
        forall|i: int| 0 <= i < self.data@.len() ==> (#[trigger] self.data@[i]).0 < max_series
    }

    /// An empty window over `[start_timestamp, end_timestamp)`.
    pub fn new(start_timestamp: u64, end_timestamp: u64) -> (r: ConsolidationWindow)
        ensures
            r.start_timestamp == start_timestamp,
            r.end_timestamp == end_timestamp,
            r.data@.len() == 0,
    {
        ConsolidationWindow { start_timestamp, end_timestamp, data: Vec::new() }
    }

    /// Adds one sample for a column; the empty (NaN) pattern is ignored.
    pub fn add_point(&mut self, series_column: u32, value_bits: u64)
        ensures
            forall|m: u32|
                old(self).cols_below(m) && series_column < m ==> final(self).cols_below(m),
            final(self).start_timestamp == old(self).start_timestamp,
            final(self).end_timestamp == old(self).end_timestamp,
            crate::fbits::is_nan_bits(value_bits) ==> *final(self) == *old(self),
    {
        if nan_bits(value_bits) {
            return ;
        }
        match find_column(&self.data, series_column) {
            Some(i) => {
                let entry = &mut self.data[i];
                entry.1.push(value_bits);
                proof {
                    let post = *final(self);
                    let pre = *old(self);
                    assert forall|m: u32|
                        pre.cols_below(m) && series_column < m implies post.cols_below(m) by {
                        assert(forall|q: int|
                            0 <= q < post.data@.len() && q != i ==> post.data@[q]
                                == pre.data@[q]);
                        assert(post.data@[i as int].0 == pre.data@[i as int].0);
                    }
                }
            },
            None => {
                let mut values: Vec<u64> = Vec::new();
                values.push(value_bits);
                self.data.push((series_column, values));
                proof {
                    let post = *final(self);
                    let pre = *old(self);
                    assert forall|m: u32|
                        pre.cols_below(m) && series_column < m implies post.cols_below(m) by {
                        assert(forall|q: int|
                            0 <= q < pre.data@.len() ==> post.data@[q] == pre.data@[q]);
                    }
                }
            },
        }
    }

    /// Whether the window already has an entry for a column.
    pub fn has_column(&self, series_column: u32) -> (r: bool)
        ensures
            r == exists|i: int|
                0 <= i < self.data@.len() && (#[trigger] self.data@[i]).0 == series_column,
    {
        match find_column(&self.data, series_column) {
            Some(_) => true,
            None => false,
        }
    }

    /// Whether any column collected a sample.
    pub fn has_data(&self) -> (r: bool)
        ensures
            r == (self.data@.len() > 0),
    {
        self.data.len() > 0
    }

    /// The samples collected for one column.
    pub fn get_values(&self, series_column: u32) -> (r: Option<&Vec<u64>>)
        ensures
            r is Some ==> exists|i: int|
                0 <= i < self.data@.len() && (#[trigger] self.data@[i]).0 == series_column,
    {
        let n = self.data.len();
        let mut i: usize = 0;
        while i < n
            invariant
                i <= n,
                n == self.data@.len(),
            decreases n - i,
        {
            if self.data[i].0 == series_column {
                return Some(&self.data[i].1);
            }
            i = i + 1;
        }
        None
    }
}

/// Finds the window entry for a column.
fn find_column(data: &Vec<(u32, Vec<u64>)>, series_column: u32) -> (r: Option<usize>)
    ensures
        r matches Some(i) ==> (i as int) < data@.len() && data@[i as int].0 == series_column,
        r is None ==> forall|i: int|
            0 <= i < data@.len() ==> (#[trigger] data@[i]).0 != series_column,
{
    let n = data.len();
    let mut i: usize = 0;
    while i < n
        invariant
            i <= n,
            n == data@.len(),
            forall|j: int| 0 <= j < i ==> (#[trigger] data@[j]).0 != series_column,
        decreases n - i,
    {
        if data[i].0 == series_column {
            return Some(i);
        }
        i = i + 1;
    }
    None
}

/// Smallest pattern of a non-empty sequence, under the finite-double order.
pub open spec fn min_bits_of(s: Seq<u64>) -> u64
    decreases s.len(),
{
    if s.len() <= 1 {
        s[0]
    } else {
        let m = min_bits_of(s.drop_last());
        if bits_lt(s.last(), m) {
            s.last()
        } else {
            m
        }
    }
}

/// Largest pattern of a non-empty sequence, under the finite-double order.
pub open spec fn max_bits_of(s: Seq<u64>) -> u64
    decreases s.len(),
{
    if s.len() <= 1 {
        s[0]
    } else {
        let m = max_bits_of(s.drop_last());
        if bits_lt(m, s.last()) {
            s.last()
        } else {
            m
        }
    }
}

/// Whether the caller's arithmetic accepts every reducer and value list.
pub open spec fn arith_ok<F: Fn(ConsolidationFn, Vec<u64>) -> u64>(arith: F) -> bool {
    forall|cf: ConsolidationFn, vv: Vec<u64>| #[trigger] call_requires(arith, (cf, vv))
}

/// What the reduced pattern of a window must be: `Min`, `Max` and `Last`
/// are fixed by the finite-double order; for the arithmetic reducers any
/// answer the caller's arithmetic can give for the finite values stands.
pub open spec fn reduced_ok<F: Fn(ConsolidationFn, Vec<u64>) -> u64>(
    f: ConsolidationFn,
    finite: Seq<u64>,
    r: u64,
    arith: F,
) -> bool {
    match f {
        ConsolidationFn::Min => r == min_bits_of(finite),
        ConsolidationFn::Max => r == max_bits_of(finite),
        ConsolidationFn::Last => r == finite.last(),
        _ => exists|vv: Vec<u64>| vv@ == finite && call_ensures(arith, (f, vv), r),
    }
}

/// Reduces one window's samples for one column: non-finite patterns are
/// dropped first, an empty remainder yields nothing.
pub fn reduce_values<F: Fn(ConsolidationFn, Vec<u64>) -> u64>(
    f: ConsolidationFn,
    values: &Vec<u64>,
    arith: &F,
) -> (r: Option<u64>)
    requires
        arith_ok(*arith),
    ensures
        r is Some <==> values@.filter(|b: u64| is_finite_bits(b)).len() > 0,
        r matches Some(v) ==> reduced_ok(
            f,
            values@.filter(|b: u64| is_finite_bits(b)),
            v,
            *arith,
        ),
{
    let n = values.len();
    let mut finite: Vec<u64> = Vec::new();
    let mut i: usize = 0;
    proof {
        assert(values@.take(0).filter(|b: u64| is_finite_bits(b)) =~= Seq::<u64>::empty());
    }
    while i < n
        invariant
            i <= n,
            n == values@.len(),
            finite@ == values@.take(i as int).filter(|b: u64| is_finite_bits(b)),
        decreases n - i,
    {
        let b = values[i];
        if finite_bits(b) {
            finite.push(b);
        }
        proof {
            let fpred = |b: u64| is_finite_bits(b);
            values@.take(i as int).lemma_filter_push(values@[i as int], fpred);
            assert(values@.take(i as int).push(values@[i as int]) =~= values@.take(i as int + 1));
        }
        i = i + 1;
    }
    proof {
        assert(values@.take(n as int) =~= values@);
    }
    let m = finite.len();
    if m == 0 {
        return None;
    }
    match f {
        ConsolidationFn::Min => {
            let mut best = finite[0];
            let mut i: usize = 1;
            proof {
                assert(finite@.take(1).len() == 1);
                assert(min_bits_of(finite@.take(1)) == finite@[0]);
            }
            while i < m
                invariant
                    1 <= i <= m,
                    m == finite@.len(),
                    best == min_bits_of(finite@.take(i as int)),
                decreases m - i,
            {
                proof {
                    assert(finite@.take(i as int + 1).drop_last() =~= finite@.take(i as int));
                    assert(finite@.take(i as int + 1).last() == finite@[i as int]);
                }
                if lt_bits(finite[i], best) {
                    best = finite[i];
                }
                i = i + 1;
            }
            proof {
                assert(finite@.take(m as int) =~= finite@);
            }
            Some(best)
        },
        ConsolidationFn::Max => {
            let mut best = finite[0];
            let mut i: usize = 1;
            proof {
                assert(finite@.take(1).len() == 1);
                assert(max_bits_of(finite@.take(1)) == finite@[0]);
            }
            while i < m
                invariant
                    1 <= i <= m,
                    m == finite@.len(),
                    best == max_bits_of(finite@.take(i as int)),
                decreases m - i,
            {
                proof {
                    assert(finite@.take(i as int + 1).drop_last() =~= finite@.take(i as int));
                    assert(finite@.take(i as int + 1).last() == finite@[i as int]);
                }
                if lt_bits(best, finite[i]) {
                    best = finite[i];
                }
                i = i + 1;
            }
            proof {
                assert(finite@.take(m as int) =~= finite@);
            }
            Some(best)
        },
        ConsolidationFn::Last => Some(finite[m - 1]),
        _ => Some(arith(f, finite)),
    }
}

/// The consolidation engine: the schemas it serves and the cursors that
/// record its progress.
#[derive(Debug)]
pub struct ConsolidationEngine {
    /// Schema configurations, as the store holds them.
    pub schemas: Vec<SchemaConfig>,
    /// Progress cursors, one per processed tier pair.
    pub cursors: ConsolidationCursors,
}

/// The rings a store owns line up with its schemas: one ring per tier,
/// each ring sized by its tier's interval and the schema's capacity.
pub open spec fn rings_match(schemas: Seq<SchemaConfig>, rings: Seq<Vec<RingBuffer>>) -> bool {
    &&& rings.len() == schemas.len()
    &&& forall|s: int, t: int|
        #![trigger rings[s]@[t]]
        0 <= s < schemas.len() && 0 <= t < schemas[s].tiers@.len() ==> {
            let rv = rings[s]@[t]@;
            &&& rv.wf()
            &&& rv.slab.max_series == schemas[s].max_series
            &&& rv.slab.interval_ns == schemas[s].tiers@[t].interval_ns
        }
    &&& forall|s: int|
        0 <= s < schemas.len() ==> (#[trigger] rings[s])@.len() == schemas[s].tiers@.len()
}

impl ConsolidationEngine {
    /// An engine over the given schemas, continuing from stored cursors.
    pub fn new(schemas: Vec<SchemaConfig>, cursors: ConsolidationCursors) -> (r:
        ConsolidationEngine)
        ensures
            r.schemas == schemas,
            r.cursors == cursors,
    {
        ConsolidationEngine { schemas, cursors }
    }

    /// The engine's progress cursors.
    pub fn cursors(&self) -> (r: &ConsolidationCursors)
        ensures
            r == &self.cursors,
    {
        &self.cursors
    }

    /// Number of adjacent tier pairs the engine serves.
    pub fn consolidation_pair_count(&self) -> (r: usize)
        requires
            pair_count_of(self.schemas@, self.schemas@.len() as int) <= usize::MAX,
        ensures
            r as int == pair_count_of(self.schemas@, self.schemas@.len() as int),
    {
        let n = self.schemas.len();
        let mut total: usize = 0;
        let mut i: usize = 0;
        while i < n
            invariant
                i <= n,
                n == self.schemas@.len(),
                total as int == pair_count_of(self.schemas@, i as int),
                pair_count_of(self.schemas@, n as int) <= usize::MAX,
            decreases n - i,
        {
            proof {
                lemma_pair_count_mono(self.schemas@, i as int + 1, n as int);
            }
            let tiers = self.schemas[i].tiers.len();
            if tiers > 1 {
                total = total + (tiers - 1);
            }
            i = i + 1;
        }
        total
    }
}

impl ConsolidationEngine {
    /// Consolidates every adjacent tier pair of every schema once.
    pub fn consolidate<F: Fn(ConsolidationFn, Vec<u64>) -> u64>(
        &mut self,
        rings: &mut Vec<Vec<RingBuffer>>,
        arith: &F,
    ) -> (r: Result<usize, RondoError>)
        requires
            arith_ok(*arith),
            old(self).cursors.wf(),
            forall|s: int|
                0 <= s < old(self).schemas@.len() ==> schema_valid(
                    #[trigger] old(self).schemas@[s],
                ),
            rings_match(old(self).schemas@, old(rings)@),
        ensures
            final(self).schemas == old(self).schemas,
            final(self).cursors.wf(),
            rings_match(final(self).schemas@, final(rings)@),
            r matches Ok(n) && n == 0 ==> rings_unchanged(old(rings)@, final(rings)@),
            cursors_monotone(old(self).cursors.cursors@, final(self).cursors.cursors@),
            // a pass over settled pairs writes nothing and changes nothing
            all_pairs_settled(old(self).schemas@, old(self).cursors.cursors@, old(rings)@) ==> (r
                == Ok::<usize, RondoError>(0) && final(self).cursors == old(self).cursors
                && rings_unchanged(old(rings)@, final(rings)@)),
            // each pair's cursor is kept, freshly created at zero, or
            // advanced to its source tier's newest sample
            r is Ok ==> forall|s: usize, st: usize|
                s < old(self).schemas@.len() && st as int + 1 < old(self).schemas@[s
                    as int].tiers@.len() ==> {
                    let before = last_processed_of(
                        old(self).cursors.cursors@,
                        s,
                        st,
                        (st + 1) as usize,
                    );
                    let after = #[trigger] last_processed_of(
                        final(self).cursors.cursors@,
                        s,
                        st,
                        (st + 1) as usize,
                    );
                    let src = final(rings)@[s as int]@[st as int]@;
                    ||| after == before
                    ||| (before is None && after == Some(0u64))
                    ||| (src.spec_newest() is Some && after == Some(src.spec_newest()->0))
                },
            // keys that name no adjacent pair never move
            forall|s: usize, a: usize, b: usize|
                !(b as int == a as int + 1 && s < old(self).schemas@.len() && a as int + 1 < old(
                    self,
                ).schemas@[s as int].tiers@.len()) ==> #[trigger] last_processed_of(
                    final(self).cursors.cursors@,
                    s,
                    a,
                    b,
                ) == last_processed_of(old(self).cursors.cursors@, s, a, b),
    {
        let r = consolidate_pass(&self.schemas, &mut self.cursors, rings, arith);
        proof {
            if all_pairs_settled(old(self).schemas@, old(self).cursors.cursors@, old(rings)@) {
                assert(self.cursors == old(self).cursors);
            }
        }
        r
    }
}

/// Consolidates every adjacent tier pair of every schema once, in
/// order, and returns how many window values were written.  Source
/// tiers are processed before the tiers they feed, so one pass can
/// cascade fresh data downward.  A pass that writes nothing leaves
/// every ring unchanged.
#[verifier::rlimit(100)]
pub fn consolidate_pass<F: Fn(ConsolidationFn, Vec<u64>) -> u64>(
    schemas: &Vec<SchemaConfig>,
    cursors: &mut ConsolidationCursors,
    rings: &mut Vec<Vec<RingBuffer>>,
    arith: &F,
) -> (r: Result<usize, RondoError>)
    requires
        arith_ok(*arith),
        old(cursors).wf(),
        forall|s: int| 0 <= s < schemas@.len() ==> schema_valid(#[trigger] schemas@[s]),
        rings_match(schemas@, old(rings)@),
    ensures
        final(cursors).wf(),
        rings_match(schemas@, final(rings)@),
        r matches Ok(n) && n == 0 ==> rings_unchanged(old(rings)@, final(rings)@),
        cursors_monotone(old(cursors).cursors@, final(cursors).cursors@),
        // a pass over settled pairs writes nothing and changes nothing
        all_pairs_settled(schemas@, old(cursors).cursors@, old(rings)@) ==> (r == Ok::<
            usize,
            RondoError,
        >(0) && *final(cursors) == *old(cursors) && rings_unchanged(old(rings)@, final(rings)@)),
        // each pair's cursor is kept, freshly created at zero, or
        // advanced to its source tier's newest sample
        r is Ok ==> forall|s: usize, st: usize|
            s < schemas@.len() && st as int + 1 < schemas@[s as int].tiers@.len() ==> {
                let before = last_processed_of(old(cursors).cursors@, s, st, (st + 1) as usize);
                let after = #[trigger] last_processed_of(
                    final(cursors).cursors@,
                    s,
                    st,
                    (st + 1) as usize,
                );
                let src = final(rings)@[s as int]@[st as int]@;
                ||| after == before
                ||| (before is None && after == Some(0u64))
                ||| (src.spec_newest() is Some && after == Some(src.spec_newest()->0))
            },
        // keys that name no adjacent pair never move
        forall|s: usize, a: usize, b: usize|
            !(b as int == a as int + 1 && s < schemas@.len() && a as int + 1 < schemas@[s
                as int].tiers@.len()) ==> #[trigger] last_processed_of(
                final(cursors).cursors@,
                s,
                a,
                b,
            ) == last_processed_of(old(cursors).cursors@, s, a, b),
{
    {
        let mut total_operations: usize = 0;
        let schema_count = schemas.len();
        let mut schema_index: usize = 0;
        while schema_index < schema_count
            invariant
                schema_index <= schema_count,
                schema_count == schemas@.len(),
                cursors.wf(),
                arith_ok(*arith),
                forall|s: int|
                    0 <= s < schemas@.len() ==> schema_valid(#[trigger] schemas@[s]),
                rings_match(schemas@, rings@),
                total_operations == 0 ==> rings_unchanged(old(rings)@, rings@),
                cursors_monotone(old(cursors).cursors@, cursors.cursors@),
                all_pairs_settled(schemas@, old(cursors).cursors@, old(rings)@) ==> (*cursors
                    == *old(cursors) && total_operations == 0),
                forall|s: usize, st: usize|
                    s < schemas@.len() && st as int + 1 < schemas@[s as int].tiers@.len() ==> {
                        let before = last_processed_of(
                            old(cursors).cursors@,
                            s,
                            st,
                            (st + 1) as usize,
                        );
                        let after = #[trigger] last_processed_of(
                            cursors.cursors@,
                            s,
                            st,
                            (st + 1) as usize,
                        );
                        let src = rings@[s as int]@[st as int]@;
                        if s < schema_index {
                            ||| after == before
                            ||| (before is None && after == Some(0u64))
                            ||| (src.spec_newest() is Some && after == Some(
                                src.spec_newest()->0,
                            ))
                        } else {
                            after == before
                        }
                    },
                forall|s: usize, a: usize, b: usize|
                    !(b as int == a as int + 1 && s < schemas@.len() && a as int + 1 < schemas@[s
                        as int].tiers@.len()) ==> #[trigger] last_processed_of(
                        cursors.cursors@,
                        s,
                        a,
                        b,
                    ) == last_processed_of(old(cursors).cursors@, s, a, b),
            decreases schema_count - schema_index,
        {
            let tier_count = schemas[schema_index].tiers.len();
            if tier_count >= 2 {
                let mut source_tier_index: usize = 0;
                while source_tier_index < tier_count - 1
                    invariant
                        source_tier_index < tier_count,
                        schema_index < schema_count,
                        schema_count == schemas@.len(),
                        tier_count == schemas@[schema_index as int].tiers@.len(),
                        cursors.wf(),
                        arith_ok(*arith),
                        forall|s: int|
                            0 <= s < schemas@.len() ==> schema_valid(#[trigger] schemas@[s]),
                        rings_match(schemas@, rings@),
                        total_operations == 0 ==> rings_unchanged(old(rings)@, rings@),
                        cursors_monotone(old(cursors).cursors@, cursors.cursors@),
                        all_pairs_settled(schemas@, old(cursors).cursors@, old(rings)@) ==> (
                        *cursors == *old(cursors) && total_operations == 0),
                        forall|s: usize, st: usize|
                            s < schemas@.len() && st as int + 1 < schemas@[s
                                as int].tiers@.len() ==> {
                                let before = last_processed_of(
                                    old(cursors).cursors@,
                                    s,
                                    st,
                                    (st + 1) as usize,
                                );
                                let after = #[trigger] last_processed_of(
                                    cursors.cursors@,
                                    s,
                                    st,
                                    (st + 1) as usize,
                                );
                                let src = rings@[s as int]@[st as int]@;
                                if s < schema_index || (s == schema_index && st
                                    < source_tier_index) {
                                    ||| after == before
                                    ||| (before is None && after == Some(0u64))
                                    ||| (src.spec_newest() is Some && after == Some(
                                        src.spec_newest()->0,
                                    ))
                                } else {
                                    after == before
                                }
                            },
                        forall|s: usize, a: usize, b: usize|
                            !(b as int == a as int + 1 && s < schemas@.len() && a as int + 1
                                < schemas@[s as int].tiers@.len()) ==> #[trigger]
                            last_processed_of(cursors.cursors@, s, a, b) == last_processed_of(
                                old(cursors).cursors@,
                                s,
                                a,
                                b,
                            ),
                    decreases tier_count - source_tier_index,
                {
                    let ghost cursors_before = *cursors;
                    let ghost rings_before = rings@;
                    proof {
                        if all_pairs_settled(schemas@, old(cursors).cursors@, old(rings)@) {
                            assert(rings@[schema_index as int]@[source_tier_index as int] == old(
                                rings,
                            )@[schema_index as int]@[source_tier_index as int]);
                            assert(pair_settled(
                                old(cursors).cursors@,
                                old(rings)@,
                                schema_index,
                                source_tier_index,
                            ));
                            assert(pair_settled(
                                cursors.cursors@,
                                rings@,
                                schema_index,
                                source_tier_index,
                            ));
                        }
                    }
                    let operations = match consolidate_tier_pair(
                        schemas,
                        cursors,
                        rings,
                        schema_index,
                        source_tier_index,
                        source_tier_index + 1,
                        arith,
                    ) {
                        Ok(n) => {
                            proof {
                                lemma_cursors_monotone_trans(
                                    old(cursors).cursors@,
                                    cursors_before.cursors@,
                                    cursors.cursors@,
                                );
                            }
                            n
                        },
                        Err(e) => {
                            proof {
                                lemma_cursors_monotone_trans(
                                    old(cursors).cursors@,
                                    cursors_before.cursors@,
                                    cursors.cursors@,
                                );
                                assert forall|s: usize, a: usize, b: usize|
                                    !(b as int == a as int + 1 && s < schemas@.len() && a as int
                                        + 1 < schemas@[s as int].tiers@.len()) implies #[trigger]
                                last_processed_of(cursors.cursors@, s, a, b)
                                    == last_processed_of(old(cursors).cursors@, s, a, b) by {
                                    assert(last_processed_of(cursors.cursors@, s, a, b)
                                        == last_processed_of(cursors_before.cursors@, s, a, b));
                                }
                            }
                            return Err(e);
                        },
                    };
                    proof {
                        let ghost si = schema_index;
                        let ghost sti = source_tier_index;
                        if all_pairs_settled(schemas@, old(cursors).cursors@, old(rings)@) {
                            assert(operations == 0);
                            assert(*cursors == *old(cursors));
                        }
                        if total_operations == 0 && operations == 0 {
                            assert forall|s: int, t: int|
                                0 <= s < old(rings)@.len() && 0 <= t < old(
                                rings,
                            )@[s]@.len() implies #[trigger] rings@[s]@[t] == old(
                                rings,
                            )@[s]@[t] by {
                                assert(rings@[s]@[t] == rings_before[s]@[t]);
                                assert(rings_before[s]@[t] == old(rings)@[s]@[t]);
                            }
                            assert forall|s: int|
                                0 <= s < old(rings)@.len() implies (#[trigger] rings@[s])@.len()
                                == old(rings)@[s]@.len() by {
                                assert(rings@[s]@.len() == rings_before[s]@.len());
                            }
                            assert(rings_unchanged(old(rings)@, rings@));
                        }
                        assert forall|s: usize, st: usize|
                            s < schemas@.len() && st as int + 1 < schemas@[s
                                as int].tiers@.len() implies {
                            let before = last_processed_of(
                                old(cursors).cursors@,
                                s,
                                st,
                                (st + 1) as usize,
                            );
                            let after = #[trigger] last_processed_of(
                                cursors.cursors@,
                                s,
                                st,
                                (st + 1) as usize,
                            );
                            let src = rings@[s as int]@[st as int]@;
                            if s < si || (s == si && st < sti + 1) {
                                ||| after == before
                                ||| (before is None && after == Some(0u64))
                                ||| (src.spec_newest() is Some && after == Some(
                                    src.spec_newest()->0,
                                ))
                            } else {
                                after == before
                            }
                        } by {
                            if s == si && st == sti {
                                assert(rings_before[s as int]@[st as int] == rings@[s
                                    as int]@[st as int]);
                            } else {
                                assert(last_processed_of(cursors.cursors@, s, st, (st + 1)
                                    as usize) == last_processed_of(
                                    cursors_before.cursors@,
                                    s,
                                    st,
                                    (st + 1) as usize,
                                ));
                                if s < si || (s == si && st < sti) {
                                    assert(rings@[s as int]@[st as int] == rings_before[s
                                        as int]@[st as int]);
                                }
                            }
                        }
                        assert forall|s: usize, a: usize, b: usize|
                            !(b as int == a as int + 1 && s < schemas@.len() && a as int + 1
                                < schemas@[s as int].tiers@.len()) implies #[trigger]
                        last_processed_of(cursors.cursors@, s, a, b) == last_processed_of(
                            old(cursors).cursors@,
                            s,
                            a,
                            b,
                        ) by {
                            assert(last_processed_of(cursors.cursors@, s, a, b)
                                == last_processed_of(cursors_before.cursors@, s, a, b));
                        }
                    }
                    total_operations = total_operations.saturating_add(operations);
                    source_tier_index = source_tier_index + 1;
                }
            }
            schema_index = schema_index + 1;
        }
        Ok(total_operations)
    }
}

/// A consolidation pair with nothing left to consume: its cursor exists
/// and has reached its source's newest sample, or the source is empty.
pub open spec fn pair_settled(
    cursors: Seq<ConsolidationCursor>,
    rings: Seq<Vec<RingBuffer>>,
    schema_index: usize,
    source_tier_index: usize,
) -> bool {
    let last0 = last_processed_of(
        cursors,
        schema_index,
        source_tier_index,
        (source_tier_index + 1) as usize,
    );
    let src = rings[schema_index as int]@[source_tier_index as int]@;
    &&& last0 is Some
    &&& (src.spec_newest() is None || (last0->0 != 0 && last0->0 >= src.spec_newest()->0))
}

/// Every adjacent tier pair of every schema is settled: the state a
/// pass leaves behind once it has consumed all data, and the state in
/// which a pass writes nothing and returns zero.
pub open spec fn all_pairs_settled(
    schemas: Seq<SchemaConfig>,
    cursors: Seq<ConsolidationCursor>,
    rings: Seq<Vec<RingBuffer>>,
) -> bool {
    forall|s: usize, st: usize|
        s < schemas.len() && st as int + 1 < schemas[s as int].tiers@.len()
            ==> #[trigger] pair_settled(cursors, rings, s, st)
}

/// Consolidates one adjacent tier pair: reads the source's new range,
/// buckets it into destination windows, reduces and writes each one,
/// and advances the pair's cursor when anything was written.  An
/// error on the write path may leave already-written windows behind;
/// the ring invariants tolerate that, and the cursor only advances on
/// full success.
fn consolidate_tier_pair<F: Fn(ConsolidationFn, Vec<u64>) -> u64>(
    schemas: &Vec<SchemaConfig>,
    cursors: &mut ConsolidationCursors,
    rings: &mut Vec<Vec<RingBuffer>>,
    schema_index: usize,
    source_tier_index: usize,
    dest_tier_index: usize,
    arith: &F,
) -> (r: Result<usize, RondoError>)
    requires
        arith_ok(*arith),
        old(cursors).wf(),
        schema_index < schemas@.len(),
        forall|s: int| 0 <= s < schemas@.len() ==> schema_valid(#[trigger] schemas@[s]),
        dest_tier_index == source_tier_index + 1,
        dest_tier_index < schemas@[schema_index as int].tiers@.len(),
        rings_match(schemas@, old(rings)@),
    ensures
        final(cursors).wf(),
        rings_match(schemas@, final(rings)@),
            final(rings)@.len() == old(rings)@.len(),
            forall|s: int|
                0 <= s < old(rings)@.len() ==> (#[trigger] final(rings)@[s])@.len() == old(
                    rings,
                )@[s]@.len(),
            forall|s: int, t: int|
                #![trigger final(rings)@[s]@[t]]
                0 <= s < old(rings)@.len() && 0 <= t < old(rings)@[s]@.len() && !(s == schema_index
                    && t == dest_tier_index) ==> final(rings)@[s]@[t] == old(rings)@[s]@[t],
        r matches Ok(n) && n == 0 ==> rings_unchanged(old(rings)@, final(rings)@),
        cursors_monotone(old(cursors).cursors@, final(cursors).cursors@),
        // a write advances the pair's cursor to the source's newest sample
        r matches Ok(n) && n > 0 ==> {
            let src = old(rings)@[schema_index as int]@[source_tier_index as int]@;
            &&& src.spec_newest() is Some
            &&& last_processed_of(
                final(cursors).cursors@,
                schema_index,
                source_tier_index,
                dest_tier_index,
            ) == Some(src.spec_newest()->0)
        },
        // the pair's cursor is kept, freshly created at zero, or advanced
        // to the source's newest
        r is Ok ==> {
            let before = last_processed_of(
                old(cursors).cursors@,
                schema_index,
                source_tier_index,
                dest_tier_index,
            );
            let after = last_processed_of(
                final(cursors).cursors@,
                schema_index,
                source_tier_index,
                dest_tier_index,
            );
            let src = old(rings)@[schema_index as int]@[source_tier_index as int]@;
            ||| after == before
            ||| (before is None && after == Some(0u64))
            ||| (src.spec_newest() is Some && after == Some(src.spec_newest()->0))
        },
        // no other pair's cursor moves
        forall|s: usize, a: usize, b: usize|
            !(s == schema_index && a == source_tier_index && b == dest_tier_index)
                ==> #[trigger] last_processed_of(final(cursors).cursors@, s, a, b)
                == last_processed_of(old(cursors).cursors@, s, a, b),
        // a settled pair is a no-op
        pair_settled(old(cursors).cursors@, old(rings)@, schema_index, source_tier_index) ==> (r
            == Ok::<usize, RondoError>(0) && *final(cursors) == *old(cursors) && rings_unchanged(
            old(rings)@,
            final(rings)@,
        )),
        // and a pair that wrote is settled: the next pass consumes
        // nothing more from it
        r matches Ok(n) && n > 0 ==> pair_settled(
            final(cursors).cursors@,
            final(rings)@,
            schema_index,
            source_tier_index,
        ),
{
    {
        let ghost old_rings = rings@;
        let dst_interval = schemas[schema_index].tiers[dest_tier_index].interval_ns;
        let src_interval = schemas[schema_index].tiers[source_tier_index].interval_ns;
        let max_series = schemas[schema_index].max_series;
        let consolidation_fn = match schemas[schema_index].tiers[
            dest_tier_index].consolidation_fn {
            Some(f) => f,
            None => {
                // dead: a valid schema declares a reducer on every tier
                // after the first
                proof {
                    assert(schema_valid(schemas@[schema_index as int]));
                    assert(schemas@[schema_index as int].tiers@[dest_tier_index
                        as int].consolidation_fn is Some);
                    assert(false);
                }
                return Err(
                    RondoError::Consolidation(
                        ConsolidationError::NoConsolidationFunction {
                            schema_index,
                            tier_index: dest_tier_index,
                        },
                    ),
                );
            },
        };
        proof {
            assert(dst_interval > 0 && src_interval > 0) by {
                assert(crate::schema::tier_valid(
                    schemas@[schema_index as int].tiers@[dest_tier_index as int],
                ));
                assert(crate::schema::tier_valid(
                    schemas@[schema_index as int].tiers@[source_tier_index as int],
                ));
            }
        }
        // the pair's cursor, created at zero on the first visit
        let last_processed = match cursors.get_last_processed(
            schema_index,
            source_tier_index,
            dest_tier_index,
        ) {
            Some(t) => t,
            None => {
                cursors.update_last_processed(
                    schema_index,
                    source_tier_index,
                    dest_tier_index,
                    0,
                );
                0
            },
        };
        let ghost snap = *cursors;
        proof {
            assert(cursors_monotone(old(cursors).cursors@, snap.cursors@));
            assert(last_processed_of(
                snap.cursors@,
                schema_index,
                source_tier_index,
                dest_tier_index,
            ) == Some(last_processed));
            assert forall|s: usize, a: usize, b: usize|
                !(s == schema_index && a == source_tier_index && b
                    == dest_tier_index) implies #[trigger] last_processed_of(
                snap.cursors@,
                s,
                a,
                b,
            ) == last_processed_of(old(cursors).cursors@, s, a, b) by {}
        }
        // the range of source data not consumed yet
        let source_newest: u64;
        let start_timestamp: u64;
        let end_timestamp: u64;
        {
            let schema_rings = &rings[schema_index];
            let source = &schema_rings[source_tier_index];
            source_newest = match source.newest_timestamp() {
                Some(t) => t,
                None => {
                    return Ok(0);
                },
            };
            start_timestamp = if last_processed == 0 {
                match source.oldest_timestamp() {
                    Some(t) => t,
                    None => 0,
                }
            } else {
                match last_processed.checked_add(src_interval) {
                    Some(t) => t,
                    None => {
                        return Ok(0);
                    },
                }
            };
            end_timestamp = if source_newest == u64::MAX {
                u64::MAX
            } else {
                source_newest + 1
            };
        }
        if start_timestamp >= end_timestamp {
            return Ok(0);
        }
        proof {
            assert(last_processed <= source_newest);
        }
        // bucket the new samples into destination-aligned windows
        let mut windows: Vec<ConsolidationWindow> = Vec::new();
        {
            let schema_rings = &rings[schema_index];
            let source = &schema_rings[source_tier_index];
            let mut series_column: u32 = 0;
            while series_column < max_series
                invariant
                    series_column <= max_series,
                    source@.wf(),
                    max_series == source@.slab.max_series,
                    start_timestamp < end_timestamp,
                    dst_interval > 0,
                    *cursors == snap,
                    cursors_monotone(old(cursors).cursors@, snap.cursors@),
                    last_processed <= source_newest,
                    last_processed_of(
                        snap.cursors@,
                        schema_index,
                        source_tier_index,
                        dest_tier_index,
                    ) == Some(last_processed),
                    forall|w: int|
                        0 <= w < windows@.len() ==> (#[trigger] windows@[w]).cols_below(
                            max_series,
                        ),
                decreases max_series - series_column,
            {
                let points = match source.read(series_column, start_timestamp, end_timestamp) {
                    Ok(p) => p,
                    Err(e) => {
                        // a read over a checked non-empty range cannot fail
                        proof {
                            assert(false);
                        }
                        return Err(e);
                    },
                };
                bucket_points(&mut windows, &points, series_column, dst_interval, Ghost(max_series));
                series_column = series_column + 1;
            }
        }
        // reduce each window and write the results into the destination
        proof {
            assert(!pair_settled(
                old(cursors).cursors@,
                old(rings)@,
                schema_index,
                source_tier_index,
            ));
        }
        let mut operations: usize = 0;
        let window_count = windows.len();
        let mut wi: usize = 0;
        while wi < window_count
            invariant
                wi <= window_count,
                window_count == windows@.len(),
                arith_ok(*arith),
                cursors.wf(),
                *cursors == snap,
                cursors_monotone(old(cursors).cursors@, snap.cursors@),
                !pair_settled(
                    old(cursors).cursors@,
                    old(rings)@,
                    schema_index,
                    source_tier_index,
                ),
                forall|s: usize, a: usize, b: usize|
                    !(s == schema_index && a == source_tier_index && b == dest_tier_index)
                        ==> #[trigger] last_processed_of(snap.cursors@, s, a, b)
                        == last_processed_of(old(cursors).cursors@, s, a, b),
                last_processed <= source_newest,
                last_processed_of(
                    snap.cursors@,
                    schema_index,
                    source_tier_index,
                    dest_tier_index,
                ) == Some(last_processed),
                schema_index < rings@.len(),
                dest_tier_index < rings@[schema_index as int]@.len(),
                forall|w: int|
                    0 <= w < windows@.len() ==> (#[trigger] windows@[w]).cols_below(max_series),
                rings@.len() == old_rings.len(),
                forall|s: int|
                    0 <= s < old_rings.len() ==> (#[trigger] rings@[s])@.len()
                        == old_rings[s]@.len(),
                forall|s: int, t: int|
                    #![trigger rings@[s]@[t]]
                    0 <= s < old_rings.len() && 0 <= t < old_rings[s]@.len() && !(s == schema_index
                        && t == dest_tier_index) ==> rings@[s]@[t] == old_rings[s]@[t],
                rings@[schema_index as int]@[dest_tier_index as int]@.wf(),
                same_geometry(
                    rings@[schema_index as int]@[dest_tier_index as int]@,
                    old_rings[schema_index as int]@[dest_tier_index as int]@,
                ),
                max_series == old_rings[schema_index as int]@[dest_tier_index
                    as int]@.slab.max_series,
                operations == 0 ==> rings@[schema_index as int]@[dest_tier_index as int]
                    == old_rings[schema_index as int]@[dest_tier_index as int],
                old_rings == old(rings)@,
                rings_match(schemas@, old_rings),
            decreases window_count - wi,
        {
            let schema_rings = &mut rings[schema_index];
            let dest_ring = &mut schema_rings[dest_tier_index];
            let written = match write_window_values(
                dest_ring,
                &windows[wi],
                consolidation_fn,
                arith,
            ) {
                Ok(n) => n,
                Err(e) => {
                    proof {
                        lemma_rings_frame(schemas@, old_rings, rings@, schema_index as int, dest_tier_index as int);
                    }
                    return Err(e);
                },
            };
            operations = operations.saturating_add(written);
            wi = wi + 1;
        }
        proof {
            lemma_rings_frame(schemas@, old_rings, rings@, schema_index as int, dest_tier_index as int);
        }
        // record the progress once anything was written
        if operations > 0 {
            cursors.update_last_processed(
                schema_index,
                source_tier_index,
                dest_tier_index,
                source_newest,
            );
            proof {
                assert(cursors_monotone(snap.cursors@, final(cursors).cursors@));
                lemma_cursors_monotone_trans(
                    old(cursors).cursors@,
                    snap.cursors@,
                    final(cursors).cursors@,
                );
                assert forall|s: usize, a: usize, b: usize|
                    !(s == schema_index && a == source_tier_index && b
                        == dest_tier_index) implies #[trigger] last_processed_of(
                    cursors.cursors@,
                    s,
                    a,
                    b,
                ) == last_processed_of(old(cursors).cursors@, s, a, b) by {
                    assert(last_processed_of(cursors.cursors@, s, a, b) == last_processed_of(
                        snap.cursors@,
                        s,
                        a,
                        b,
                    ));
                }
            }
        }
        Ok(operations)
    }
}

/// Every ring of `after` is the very ring `before` held at that place.
pub open spec fn rings_unchanged(before: Seq<Vec<RingBuffer>>, after: Seq<Vec<RingBuffer>>) -> bool {
    &&& after.len() == before.len()
    &&& forall|s: int| 0 <= s < before.len() ==> (#[trigger] after[s])@.len() == before[s]@.len()
    &&& forall|s: int, t: int|
        #![trigger after[s]@[t]]
        0 <= s < before.len() && 0 <= t < before[s]@.len() ==> after[s]@[t] == before[s]@[t]
}

/// Two ring views agree on their fixed geometry.
pub open spec fn same_geometry(a: crate::ring::RingView, b: crate::ring::RingView) -> bool {
    &&& a.slab.max_series == b.slab.max_series
    &&& a.slab.interval_ns == b.slab.interval_ns
    &&& a.slab.slot_count == b.slab.slot_count
    &&& a.slab.schema_hash == b.slab.schema_hash
}

/// Rings that matched their schemas still match after one ring changed
/// without touching its well-formedness or geometry.
pub proof fn lemma_rings_frame(
    schemas: Seq<SchemaConfig>,
    before: Seq<Vec<RingBuffer>>,
    after: Seq<Vec<RingBuffer>>,
    si: int,
    ti: int,
)
    requires
        rings_match(schemas, before),
        after.len() == before.len(),
        0 <= si < before.len(),
        forall|s: int| 0 <= s < before.len() ==> (#[trigger] after[s])@.len() == before[s]@.len(),
        forall|s: int, t: int|
            #![trigger after[s]@[t]]
            0 <= s < before.len() && 0 <= t < before[s]@.len() && !(s == si && t == ti)
                ==> after[s]@[t] == before[s]@[t],
        0 <= ti < before[si]@.len() ==> after[si]@[ti]@.wf() && same_geometry(
            after[si]@[ti]@,
            before[si]@[ti]@,
        ),
    ensures
        rings_match(schemas, after),
{
    assert forall|s: int, t: int|
        #![trigger after[s]@[t]]
        0 <= s < schemas.len() && 0 <= t < schemas[s].tiers@.len() implies {
        let rv = after[s]@[t]@;
        &&& rv.wf()
        &&& rv.slab.max_series == schemas[s].max_series
        &&& rv.slab.interval_ns == schemas[s].tiers@[t].interval_ns
    } by {
        assert(before[s]@[t]@.wf());
        if s != si || t != ti {
            assert(after[s]@[t] == before[s]@[t]);
        }
    }
}

/// Buckets one column's chronological points into destination windows.
fn bucket_points(
    windows: &mut Vec<ConsolidationWindow>,
    points: &Vec<(u64, u64)>,
    series_column: u32,
    dst_interval: u64,
    max_series: Ghost<u32>,
)
    requires
        dst_interval > 0,
        series_column < max_series@,
        forall|w: int|
            0 <= w < old(windows)@.len() ==> (#[trigger] old(windows)@[w]).cols_below(
                max_series@,
            ),
    ensures
        forall|w: int|
            0 <= w < final(windows)@.len() ==> (#[trigger] final(windows)@[w]).cols_below(
                max_series@,
            ),
{
    let point_count = points.len();
    let mut k: usize = 0;
    while k < point_count
        invariant
            k <= point_count,
            point_count == points@.len(),
            dst_interval > 0,
            series_column < max_series@,
            forall|w: int|
                0 <= w < windows@.len() ==> (#[trigger] windows@[w]).cols_below(max_series@),
        decreases point_count - k,
    {
        let ts = points[k].0;
        let value_bits = points[k].1;
        if !nan_bits(value_bits) {
            proof {
                vstd::arithmetic::div_mod::lemma_fundamental_div_mod(
                    ts as int,
                    dst_interval as int,
                );
                vstd::arithmetic::mul::lemma_mul_is_commutative(
                    dst_interval as int,
                    (ts as int) / (dst_interval as int),
                );
            }
            let window_start = (ts / dst_interval) * dst_interval;
            let window_end = if window_start > u64::MAX - dst_interval {
                u64::MAX
            } else {
                window_start + dst_interval
            };
            add_to_windows(
                windows,
                window_start,
                window_end,
                series_column,
                value_bits,
                max_series,
            );
        }
        k = k + 1;
    }
}

/// How many columns of a window hold at least one finite sample: the
/// number of values one window write puts into the destination.
pub open spec fn finite_entry_count(data: Seq<(u32, Vec<u64>)>) -> int
    decreases data.len(),
{
    if data.len() == 0 {
        0
    } else {
        finite_entry_count(data.drop_last()) + if data.last().1@.filter(
            |b: u64| is_finite_bits(b),
        ).len() > 0 {
            1int
        } else {
            0int
        }
    }
}

/// The destination ring after one window write: one reduced value per
/// column holding finite samples, written in entry order at the window
/// start.
pub open spec fn fold_window_writes(
    before: crate::ring::RingView,
    data: Seq<(u32, Vec<u64>)>,
    vals: Seq<u64>,
    start: u64,
) -> crate::ring::RingView
    decreases data.len(),
{
    if data.len() == 0 {
        before
    } else {
        let prev = fold_window_writes(before, data.drop_last(), vals.drop_last(), start);
        let e = data.last();
        if e.1@.filter(|b: u64| is_finite_bits(b)).len() > 0 {
            crate::ring::write_view(prev, e.0, vals.last(), start)
        } else {
            prev
        }
    }
}

/// Reduces and writes one window's columns into the destination ring.
fn write_window_values<F: Fn(ConsolidationFn, Vec<u64>) -> u64>(
    dest_ring: &mut RingBuffer,
    window: &ConsolidationWindow,
    consolidation_fn: ConsolidationFn,
    arith: &F,
) -> (r: Result<usize, RondoError>)
    requires
        arith_ok(*arith),
        old(dest_ring)@.wf(),
        window.cols_below(old(dest_ring)@.slab.max_series),
    ensures
        final(dest_ring)@.wf(),
        same_geometry(final(dest_ring)@, old(dest_ring)@),
        r matches Ok(n) && n == 0 ==> *final(dest_ring) == *old(dest_ring),
        // the count is the number of columns holding finite samples, and
        // the ring took one reduced value per such column, in order
        r matches Ok(n) ==> n == finite_entry_count(window.data@),
        r matches Ok(n) ==> exists|vals: Seq<u64>|
            vals.len() == window.data@.len() && (forall|q: int|
                0 <= q < window.data@.len() && (#[trigger] window.data@[q]).1@.filter(
                    |b: u64| is_finite_bits(b),
                ).len() > 0 ==> reduced_ok(
                    consolidation_fn,
                    window.data@[q].1@.filter(|b: u64| is_finite_bits(b)),
                    vals[q],
                    *arith,
                )) && final(dest_ring)@ == fold_window_writes(
                old(dest_ring)@,
                window.data@,
                vals,
                window.start_timestamp,
            ),
{
    let mut written: usize = 0;
    let entry_count = window.data.len();
    let mut di: usize = 0;
    let ghost mut vals: Seq<u64> = Seq::empty();
    proof {
        assert(window.data@.take(0) =~= Seq::<(u32, Vec<u64>)>::empty());
    }
    while di < entry_count
        invariant
            di <= entry_count,
            entry_count == window.data@.len(),
            arith_ok(*arith),
            window.cols_below(old(dest_ring)@.slab.max_series),
            dest_ring@.wf(),
            same_geometry(dest_ring@, old(dest_ring)@),
            written == 0 ==> *dest_ring == *old(dest_ring),
            written <= di,
            vals.len() == di,
            written == finite_entry_count(window.data@.take(di as int)),
            forall|q: int|
                0 <= q < di && (#[trigger] window.data@[q]).1@.filter(
                    |b: u64| is_finite_bits(b),
                ).len() > 0 ==> reduced_ok(
                    consolidation_fn,
                    window.data@[q].1@.filter(|b: u64| is_finite_bits(b)),
                    vals[q],
                    *arith,
                ),
            dest_ring@ == fold_window_writes(
                old(dest_ring)@,
                window.data@.take(di as int),
                vals,
                window.start_timestamp,
            ),
        decreases entry_count - di,
    {
        proof {
            assert(window.data@.take(di as int + 1).drop_last() =~= window.data@.take(di as int));
            assert(window.data@.take(di as int + 1).last() == window.data@[di as int]);
        }
        let ghost vals_pre = vals;
        let ghost ring_pre = dest_ring@;
        let series_column = window.data[di].0;
        let reduced = reduce_values(consolidation_fn, &window.data[di].1, arith);
        match reduced {
            None => {
                proof {
                    vals = vals_pre.push(0u64);
                }
            },
            Some(value_bits) => {
                proof {
                    assert(window.data@[di as int].0 < old(dest_ring)@.slab.max_series);
                }
                match dest_ring.write(series_column, value_bits, window.start_timestamp) {
                    Ok(()) => {},
                    Err(e) => {
                        return Err(e);
                    },
                }
                written = written.saturating_add(1);
                proof {
                    vals = vals_pre.push(value_bits);
                }
            },
        }
        proof {
            assert(vals.drop_last() =~= vals_pre);
            assert(dest_ring@ == fold_window_writes(
                old(dest_ring)@,
                window.data@.take(di as int + 1),
                vals,
                window.start_timestamp,
            ));
        }
        di = di + 1;
    }
    proof {
        assert(window.data@.take(entry_count as int) =~= window.data@);
    }
    Ok(written)
}


/// Buckets one sample into the window starting at `window_start`,
/// creating the window in ascending-start position if it is new.
fn add_to_windows(
    windows: &mut Vec<ConsolidationWindow>,
    window_start: u64,
    window_end: u64,
    series_column: u32,
    value_bits: u64,
    max_series: Ghost<u32>,
)
    requires
        series_column < max_series@,
        forall|w: int|
            0 <= w < old(windows)@.len() ==> (#[trigger] old(windows)@[w]).cols_below(
                max_series@,
            ),
    ensures
        forall|w: int|
            0 <= w < final(windows)@.len() ==> (#[trigger] final(windows)@[w]).cols_below(
                max_series@,
            ),
{
    let n = windows.len();
    let mut i: usize = 0;
    while i < n
        invariant
            i <= n,
            n == windows@.len(),
            *windows == *old(windows),
            series_column < max_series@,
            forall|w: int|
                0 <= w < windows@.len() ==> (#[trigger] windows@[w]).cols_below(max_series@),
        decreases n - i,
    {
        if windows[i].start_timestamp == window_start {
            let w = &mut windows[i];
            w.add_point(series_column, value_bits);
            proof {
                let post = final(windows)@;
                let pre = old(windows)@;
                assert forall|q: int| 0 <= q < post.len() implies (#[trigger] post[q]).cols_below(
                    max_series@,
                ) by {
                    if q != i {
                        assert(post[q] == pre[q]);
                    }
                }
            }
            return ;
        }
        if windows[i].start_timestamp > window_start {
            let mut w = ConsolidationWindow::new(window_start, window_end);
            w.add_point(series_column, value_bits);
            windows.insert(i, w);
            proof {
                let post = final(windows)@;
                let pre = old(windows)@;
                assert forall|q: int| 0 <= q < post.len() implies (#[trigger] post[q]).cols_below(
                    max_series@,
                ) by {
                    if q < i {
                        assert(post[q] == pre[q]);
                    } else if q > i {
                        assert(post[q] == pre[q - 1]);
                    }
                }
            }
            return ;
        }
        i = i + 1;
    }
    let mut w = ConsolidationWindow::new(window_start, window_end);
    w.add_point(series_column, value_bits);
    windows.push(w);
    proof {
        let post = final(windows)@;
        let pre = old(windows)@;
        assert forall|q: int| 0 <= q < post.len() implies (#[trigger] post[q]).cols_below(
            max_series@,
        ) by {
            if q < pre.len() {
                assert(post[q] == pre[q]);
            }
        }
    }
}

/// Total number of adjacent tier pairs over the first `i` schemas.
pub open spec fn pair_count_of(schemas: Seq<SchemaConfig>, i: int) -> int
    decreases i,
{
    if i <= 0 {
        0
    } else {
        pair_count_of(schemas, i - 1) + if schemas[i - 1].tiers@.len() > 1 {
            schemas[i - 1].tiers@.len() - 1
        } else {
            0
        }
    }
}

/// The pair count only grows with the number of schemas considered.
proof fn lemma_pair_count_mono(schemas: Seq<SchemaConfig>, i: int, j: int)
    requires
        i <= j,
    ensures
        pair_count_of(schemas, i) <= pair_count_of(schemas, j),
    decreases j - i,
{
    if i < j {
        lemma_pair_count_mono(schemas, i, j - 1);
    }
}

} // verus!
