//! Series registration: mapping a name and label set to a storage handle.
//!
//! A series is identified by its name together with its label set; the
//! order labels are given in does not matter.  Registration routes the
//! series to the first schema whose matcher accepts the labels, allocates
//! the next series id and column there, and hands back a copyable handle
//! that the write path uses without further lookups.

use vstd::prelude::*;

use crate::error::{RondoError, SeriesError, StoreError};
use crate::schema::{matches_spec, pairs_view, SchemaConfig};
use crate::slab::Slab;
use crate::text::string_bytes;

verus! {

/// Opaque, copyable identifier of a registered series: which schema it
/// lives in, its id there, and the value column it writes to.
#[derive(Debug, Clone, Copy, PartialEq, Eq, Structural, Hash)]
pub struct SeriesHandle {
    /// Index of the schema this series belongs to.
    pub schema_index: usize,
    /// Unique id within the schema.
    pub series_id: u32,
    /// Value column in each of the schema's slabs.
    pub column: u32,
}

impl SeriesHandle {
    /// Builds a handle from its three coordinates.
    pub fn new(schema_index: usize, series_id: u32, column: u32) -> (r: SeriesHandle)
        ensures
            r == (SeriesHandle { schema_index, series_id, column }),
    {
        SeriesHandle { schema_index, series_id, column }
    }
}

/// Everything recorded about one registered series.
#[derive(Debug, Clone)]
pub struct SeriesInfo {
    /// The series name.
    pub name: String,
    /// The label pairs, as given at registration.
    pub labels: Vec<(String, String)>,
    /// Index of the schema the series was routed to.
    pub schema_index: usize,
    /// Unique id within the schema.
    pub series_id: u32,
    /// Assigned value column.
    pub column: u32,
}

/// Whether some stored record answers to the handle.
pub open spec fn handle_known(series: Seq<SeriesInfo>, h: SeriesHandle) -> bool {
    exists|i: int| 0 <= i < series.len() && handle_of(#[trigger] series[i]) == h
}

/// The handle a stored record answers to.
pub open spec fn handle_of(info: SeriesInfo) -> SeriesHandle {
    SeriesHandle {
        schema_index: info.schema_index,
        series_id: info.series_id,
        column: info.column,
    }
}

impl SeriesInfo {
    /// Builds a record from its parts.
    pub fn new(
        name: String,
        labels: Vec<(String, String)>,
        schema_index: usize,
        series_id: u32,
        column: u32,
    ) -> (r: SeriesInfo)
        ensures
            r == (SeriesInfo { name, labels, schema_index, series_id, column }),
    {
        SeriesInfo { name, labels, schema_index, series_id, column }
    }

    /// The series' handle.
    pub fn handle(&self) -> (r: SeriesHandle)
        ensures
            r == handle_of(*self),
    {
        SeriesHandle {
            schema_index: self.schema_index,
            series_id: self.series_id,
            column: self.column,
        }
    }
}

/// Index of the first pair carrying `key`, or -1.
pub open spec fn find_key(pairs: Seq<(Seq<char>, Seq<char>)>, key: Seq<char>) -> int
    decreases pairs.len(),
{
    if pairs.len() == 0 {
        -1
    } else if pairs[0].0 == key {
        0
    } else {
        let r = find_key(pairs.drop_first(), key);
        if r < 0 {
            -1
        } else {
            r + 1
        }
    }
}

/// Two label lists name the same series when they pair off: each pair of
/// one list matches the first not-yet-matched pair of the other list that
/// carries its key.  For lists with distinct keys this is equality as
/// sets of pairs, whatever order the pairs were given in.
pub open spec fn labels_equiv(
    a: Seq<(Seq<char>, Seq<char>)>,
    b: Seq<(Seq<char>, Seq<char>)>,
) -> bool
    decreases a.len(),
{
    if a.len() == 0 {
        b.len() == 0
    } else {
        let j = find_key(b, a[0].0);
        &&& j >= 0
        &&& b[j].1 == a[0].1
        &&& labels_equiv(a.drop_first(), b.remove(j))
    }
}

/// Label-set equivalence is reflexive: handing the registry the very
/// labels a series was registered with always finds it again, whatever
/// value each key carries.
pub proof fn lemma_labels_equiv_refl(a: Seq<(Seq<char>, Seq<char>)>)
    ensures
        labels_equiv(a, a),
    decreases a.len(),
{
    if a.len() > 0 {
        assert(find_key(a, a[0].0) == 0);
        assert(a.remove(0) =~= a.drop_first());
        lemma_labels_equiv_refl(a.drop_first());
    }
}

/// Whether a stored series answers to the given name and label set.
pub open spec fn series_match(
    info: SeriesInfo,
    name: Seq<char>,
    labels: Seq<(Seq<char>, Seq<char>)>,
) -> bool {
    info.name@ == name && labels_equiv(pairs_view(info.labels@), labels)
}

/// A label key or value is acceptable when it is non-empty and the key
/// does not begin with the reserved `__` prefix; the test is on the
/// UTF-8 bytes, where the prefix is two 0x5f bytes.
pub open spec fn label_ok(key: Seq<char>, value: Seq<char>) -> bool {
    &&& string_bytes(key).len() > 0
    &&& string_bytes(value).len() > 0
    &&& !(string_bytes(key).len() >= 2 && string_bytes(key)[0] == 0x5f_u8 && string_bytes(key)[1]
        == 0x5f_u8)
}

/// Every pair of the list is acceptable.
pub open spec fn labels_ok(labels: Seq<(Seq<char>, Seq<char>)>) -> bool {
    forall|i: int| 0 <= i < labels.len() ==> label_ok((#[trigger] labels[i]).0, labels[i].1)
}

/// Registry of all registered series across the configured schemas.
#[derive(Debug)]
pub struct SeriesRegistry {
    /// The schema configurations, in routing order.
    pub schemas: Vec<SchemaConfig>,
    /// One record per registered series, in registration order.
    pub series: Vec<SeriesInfo>,
    /// Next series id to hand out, per schema.
    pub next_series_id: Vec<u32>,
    /// Next column to hand out, per schema.
    pub next_column: Vec<u32>,
}

impl SeriesRegistry {
    /// Registry coherence: one counter pair per schema, columns allocated
    /// in step with ids, every stored record below its schema's counter,
    /// and ids unique within a schema.
    pub open spec fn wf(self) -> bool {
        &&& self.next_series_id@.len() == self.schemas@.len()
        &&& self.next_column@ == self.next_series_id@
        &&& forall|i: int|
            0 <= i < self.schemas@.len() ==> (#[trigger] self.next_series_id@[i])
                <= self.schemas@[i].max_series
        &&& forall|i: int|
            0 <= i < self.series@.len() ==> {
                let info = #[trigger] self.series@[i];
                &&& info.schema_index < self.schemas@.len()
                &&& info.series_id < self.next_series_id@[info.schema_index as int]
                &&& info.column == info.series_id
            }
        &&& forall|i: int, j: int|
            #![trigger self.series@[i], self.series@[j]]
            0 <= i < j < self.series@.len() && self.series@[i].schema_index
                == self.series@[j].schema_index ==> self.series@[i].series_id
                != self.series@[j].series_id
    }

    /// A fresh registry over the given schemas, with nothing registered.
    pub fn new(schemas: Vec<SchemaConfig>) -> (r: SeriesRegistry)
        ensures
            r.wf(),
            r.schemas == schemas,
            r.series@.len() == 0,
            forall|i: int| 0 <= i < schemas@.len() ==> (#[trigger] r.next_series_id@[i]) == 0,
    {
        let schema_count = schemas.len();
        let mut next_series_id: Vec<u32> = Vec::new();
        let mut next_column: Vec<u32> = Vec::new();
        let mut i: usize = 0;
        while i < schema_count
            invariant
                i <= schema_count,
                next_series_id@.len() == i,
                next_column@.len() == i,
                forall|j: int| 0 <= j < i ==> (#[trigger] next_series_id@[j]) == 0,
                forall|j: int| 0 <= j < i ==> (#[trigger] next_column@[j]) == 0,
            decreases schema_count - i,
        {
            next_series_id.push(0);
            next_column.push(0);
            i = i + 1;
        }
        proof {
            assert(next_column@ =~= next_series_id@);
        }
        SeriesRegistry { schemas, series: Vec::new(), next_series_id, next_column }
    }

    /// Registers a series, or returns the handle it already has.
    ///
    /// The name and labels are validated first; an invalid input leaves
    /// the registry unchanged.  A series whose name and label set are
    /// already registered gets its existing handle back, and the registry
    /// does not change.  Otherwise the labels are routed to the first
    /// matching schema; if that schema still has room, the next id and
    /// column are allocated, the record is appended, and the counters
    /// advance.
    pub fn register(&mut self, name: &str, labels: &[(String, String)]) -> (r: Result<
        SeriesHandle,
        RondoError,
    >)
        requires
            old(self).wf(),
        ensures
            final(self).wf(),
            final(self).schemas == old(self).schemas,
            r matches Ok(h) ==> h.schema_index < old(self).schemas@.len() && h.column < old(
                self,
            ).schemas@[h.schema_index as int].max_series && h.series_id == h.column,
            // rejected input: nothing changes
            r is Err ==> *final(self) == *old(self),
            // an empty name or a bad label is rejected
            string_bytes(name@).len() == 0 ==> (r matches Err(RondoError::Series(
                SeriesError::InvalidLabel { .. },
            ))),
            string_bytes(name@).len() > 0 && !labels_ok(pairs_view(labels@)) ==> (r matches Err(
                RondoError::Series(SeriesError::InvalidLabel { .. }),
            )),
            // an equivalent series keeps its handle and the registry its size
            string_bytes(name@).len() > 0 && labels_ok(pairs_view(labels@)) && (exists|i: int|
                0 <= i < old(self).series@.len() && series_match(
                    #[trigger] old(self).series@[i],
                    name@,
                    pairs_view(labels@),
                )) ==> {
                &&& *final(self) == *old(self)
                &&& r is Ok
                &&& exists|i: int|
                    0 <= i < old(self).series@.len() && series_match(
                        #[trigger] old(self).series@[i],
                        name@,
                        pairs_view(labels@),
                    ) && r == Ok::<SeriesHandle, RondoError>(handle_of(old(self).series@[i]))
            },
            // otherwise the labels must be routed somewhere
            string_bytes(name@).len() > 0 && labels_ok(pairs_view(labels@)) && !(exists|i: int|
                0 <= i < old(self).series@.len() && series_match(
                    #[trigger] old(self).series@[i],
                    name@,
                    pairs_view(labels@),
                )) && !(exists|s: int|
                0 <= s < old(self).schemas@.len() && matches_spec(
                    (#[trigger] old(self).schemas@[s]).label_matcher.pairs(),
                    pairs_view(labels@),
                )) ==> (r matches Err(RondoError::Series(SeriesError::NoMatchingSchema { .. }))),
            // fresh registration: routed to the first matching schema
            (string_bytes(name@).len() > 0 && labels_ok(pairs_view(labels@)) && !(exists|i: int|
                0 <= i < old(self).series@.len() && series_match(
                    #[trigger] old(self).series@[i],
                    name@,
                    pairs_view(labels@),
                )) && (exists|s: int|
                0 <= s < old(self).schemas@.len() && matches_spec(
                    (#[trigger] old(self).schemas@[s]).label_matcher.pairs(),
                    pairs_view(labels@),
                ))) ==> {
                let si = first_matching_schema(old(self).schemas@, pairs_view(labels@));
                if old(self).next_series_id@[si] >= old(self).schemas@[si].max_series {
                    r matches Err(RondoError::Series(SeriesError::MaxSeriesExceeded { .. }))
                        && *final(self) == *old(self)
                } else {
                    let id = old(self).next_series_id@[si];
                    &&& r == Ok::<SeriesHandle, RondoError>(
                        SeriesHandle { schema_index: si as usize, series_id: id, column: id },
                    )
                    &&& final(self).series@.len() == old(self).series@.len() + 1
                    &&& final(self).series@ == old(self).series@.push(
                        final(self).series@.last(),
                    )
                    &&& final(self).series@.last().name@ == name@
                    &&& pairs_view(final(self).series@.last().labels@) == pairs_view(labels@)
                    &&& handle_of(final(self).series@.last()) == (SeriesHandle {
                        schema_index: si as usize,
                        series_id: id,
                        column: id,
                    })
                    &&& final(self).next_series_id@ == old(self).next_series_id@.update(
                        si,
                        (id + 1) as u32,
                    )
                    &&& final(self).next_column@ == final(self).next_series_id@
                }
            },
    {
        if name.as_bytes().len() == 0 {
            return Err(
                RondoError::Series(
                    SeriesError::InvalidLabel {
                        key: "__name__".to_owned(),
                        value: name.to_owned(),
                        reason: "name cannot be empty".to_owned(),
                    },
                ),
            );
        }
        match validate_labels(labels) {
            Ok(()) => {},
            Err(e) => {
                return Err(e);
            },
        }
        match self.find_existing(name, labels) {
            Some(handle) => {
                return Ok(handle);
            },
            None => {},
        }
        let schema_index = match self.find_matching_schema(labels) {
            Some(si) => si,
            None => {
                return Err(
                    RondoError::Series(
                        SeriesError::NoMatchingSchema { labels: clone_labels(labels) },
                    ),
                );
            },
        };
        if self.next_series_id[schema_index] >= self.schemas[schema_index].max_series {
            return Err(
                RondoError::Series(
                    SeriesError::MaxSeriesExceeded {
                        max_series: self.schemas[schema_index].max_series,
                    },
                ),
            );
        }
        let series_id = self.next_series_id[schema_index];
        let column = self.next_column[schema_index];
        let info = SeriesInfo {
            name: name.to_owned(),
            labels: clone_labels(labels),
            schema_index,
            series_id,
            column,
        };
        self.series.push(info);
        self.next_series_id[schema_index] = series_id + 1;
        self.next_column[schema_index] = column + 1;
        proof {
            assert(final(self).next_column@ =~= final(self).next_series_id@);
        }
        Ok(SeriesHandle { schema_index, series_id, column })
    }

    /// Looks a series up without registering it.
    pub fn get_handle(&self, name: &str, labels: &[(String, String)]) -> (r: Option<SeriesHandle>)
        ensures
            r is Some <==> exists|i: int|
                0 <= i < self.series@.len() && series_match(
                    #[trigger] self.series@[i],
                    name@,
                    pairs_view(labels@),
                ),
            r matches Some(h) ==> exists|i: int|
                0 <= i < self.series@.len() && series_match(
                    #[trigger] self.series@[i],
                    name@,
                    pairs_view(labels@),
                ) && h == handle_of(self.series@[i]),
    {
        self.find_existing(name, labels)
    }

    /// Scans for the first record matching the name and label set.
    fn find_existing(&self, name: &str, labels: &[(String, String)]) -> (r: Option<SeriesHandle>)
        ensures
            r is Some <==> exists|i: int|
                0 <= i < self.series@.len() && series_match(
                    #[trigger] self.series@[i],
                    name@,
                    pairs_view(labels@),
                ),
            r matches Some(h) ==> exists|i: int|
                0 <= i < self.series@.len() && series_match(
                    #[trigger] self.series@[i],
                    name@,
                    pairs_view(labels@),
                ) && h == handle_of(self.series@[i]),
    {
        let n = self.series.len();
        let mut i: usize = 0;
        while i < n
            invariant
                i <= n,
                n == self.series@.len(),
                forall|j: int|
                    0 <= j < i ==> !series_match(
                        #[trigger] self.series@[j],
                        name@,
                        pairs_view(labels@),
                    ),
            decreases n - i,
        {
            if str_eq(self.series[i].name.as_str(), name) && labels_equiv_exec(
                self.series[i].labels.as_slice(),
                labels,
            ) {
                return Some(self.series[i].handle());
            }
            i = i + 1;
        }
        None
    }

    /// Finds the first schema whose matcher accepts the labels.
    fn find_matching_schema(&self, labels: &[(String, String)]) -> (r: Option<usize>)
        ensures
            r is Some <==> exists|s: int|
                0 <= s < self.schemas@.len() && matches_spec(
                    (#[trigger] self.schemas@[s]).label_matcher.pairs(),
                    pairs_view(labels@),
                ),
            r matches Some(si) ==> si as int == first_matching_schema(
                self.schemas@,
                pairs_view(labels@),
            ) && si < self.schemas@.len(),
    {
        let n = self.schemas.len();
        let mut i: usize = 0;
        while i < n
            invariant
                i <= n,
                n == self.schemas@.len(),
                forall|j: int|
                    0 <= j < i ==> !matches_spec(
                        (#[trigger] self.schemas@[j]).label_matcher.pairs(),
                        pairs_view(labels@),
                    ),
            decreases n - i,
        {
            if self.schemas[i].matches_labels(labels) {
                proof {
                    lemma_first_matching_schema(self.schemas@, pairs_view(labels@), i as int);
                }
                return Some(i);
            }
            i = i + 1;
        }
        None
    }

    /// Number of series registered under one schema; an out-of-range
    /// index reads as zero.
    pub fn series_count(&self, schema_index: usize) -> (r: u32)
        ensures
            r == if schema_index < self.next_series_id@.len() {
                self.next_series_id@[schema_index as int]
            } else {
                0u32
            },
    {
        if schema_index < self.next_series_id.len() {
            self.next_series_id[schema_index]
        } else {
            0
        }
    }

    /// Total number of registered series.
    pub fn total_series_count(&self) -> (r: usize)
        ensures
            r == self.series@.len(),
    {
        self.series.len()
    }

    /// The configured schemas.
    pub fn schemas(&self) -> (r: &Vec<SchemaConfig>)
        ensures
            r == &self.schemas,
    {
        &self.schemas
    }

    /// The stored records, in registration order.
    pub fn series_list(&self) -> (r: &Vec<SeriesInfo>)
        ensures
            r == &self.series,
    {
        &self.series
    }

    /// The per-schema id and column counters, for persistence.
    pub fn counters(&self) -> (r: (&Vec<u32>, &Vec<u32>))
        ensures
            r.0 == &self.next_series_id,
            r.1 == &self.next_column,
    {
        (&self.next_series_id, &self.next_column)
    }

    /// Handles of all registered series, in registration order.
    pub fn handles(&self) -> (r: Vec<SeriesHandle>)
        ensures
            r@.len() == self.series@.len(),
            forall|i: int|
                0 <= i < r@.len() ==> r@[i] == handle_of(#[trigger] self.series@[i]),
    {
        let n = self.series.len();
        let mut out: Vec<SeriesHandle> = Vec::new();
        let mut i: usize = 0;
        while i < n
            invariant
                i <= n,
                n == self.series@.len(),
                out@.len() == i,
                forall|j: int|
                    0 <= j < i ==> out@[j] == handle_of(#[trigger] self.series@[j]),
            decreases n - i,
        {
            out.push(self.series[i].handle());
            i = i + 1;
        }
        out
    }

    /// The record a handle refers to, if any.
    pub fn series_info(&self, handle: &SeriesHandle) -> (r: Option<&SeriesInfo>)
        ensures
            r is Some <==> exists|i: int|
                0 <= i < self.series@.len() && handle_of(#[trigger] self.series@[i]) == *handle,
            r matches Some(info) ==> exists|i: int|
                0 <= i < self.series@.len() && handle_of(#[trigger] self.series@[i]) == *handle
                    && *info == self.series@[i],
    {
        let n = self.series.len();
        let mut i: usize = 0;
        while i < n
            invariant
                i <= n,
                n == self.series@.len(),
                forall|j: int|
                    0 <= j < i ==> handle_of(#[trigger] self.series@[j]) != *handle,
            decreases n - i,
        {
            let info = &self.series[i];
            if info.schema_index == handle.schema_index && info.series_id == handle.series_id
                && info.column == handle.column {
                return Some(info);
            }
            i = i + 1;
        }
        None
    }

    /// Copies this registry's records for one schema into a slab: the
    /// series count and one directory entry per record.
    pub fn sync_to_slab(&self, schema_index: usize, slab: &mut Slab)
        requires
            self.wf(),
            schema_index < self.schemas@.len(),
            old(slab)@.wf(),
            old(slab)@.max_series == self.schemas@[schema_index as int].max_series,
        ensures
            final(slab)@.wf(),
            final(slab)@.slot_count == old(slab)@.slot_count,
            final(slab)@.max_series == old(slab)@.max_series,
            final(slab)@.interval_ns == old(slab)@.interval_ns,
            final(slab)@.schema_hash == old(slab)@.schema_hash,
            final(slab)@.write_cursor == old(slab)@.write_cursor,
            final(slab)@.timestamps == old(slab)@.timestamps,
            final(slab)@.values == old(slab)@.values,
            final(slab)@.series_count == self.next_series_id@[schema_index as int],
            forall|i: int|
                0 <= i < self.series@.len() && (#[trigger] self.series@[i]).schema_index
                    == schema_index ==> final(slab)@.directory[self.series@[i].series_id as int]
                    == self.series@[i].column,
            // directory entries of ids not registered to this schema stay
            forall|d: int|
                0 <= d < old(slab)@.directory.len() && !(exists|i: int|
                    0 <= i < self.series@.len() && (#[trigger] self.series@[i]).schema_index
                        == schema_index && self.series@[i].series_id as int == d)
                    ==> #[trigger] final(slab)@.directory[d] == old(slab)@.directory[d],
    {
        slab.set_series_count(self.next_series_id[schema_index]);
        let n = self.series.len();
        let mut i: usize = 0;
        while i < n
            invariant
                i <= n,
                n == self.series@.len(),
                self.wf(),
                schema_index < self.schemas@.len(),
                slab@.wf(),
                slab@.max_series == self.schemas@[schema_index as int].max_series,
                slab@.slot_count == old(slab)@.slot_count,
                slab@.interval_ns == old(slab)@.interval_ns,
                slab@.schema_hash == old(slab)@.schema_hash,
                slab@.write_cursor == old(slab)@.write_cursor,
                slab@.timestamps == old(slab)@.timestamps,
                slab@.values == old(slab)@.values,
                slab@.series_count == self.next_series_id@[schema_index as int],
                forall|j: int|
                    0 <= j < i && (#[trigger] self.series@[j]).schema_index == schema_index
                        ==> slab@.directory[self.series@[j].series_id as int]
                        == self.series@[j].column,
                slab@.directory.len() == old(slab)@.directory.len(),
                forall|d: int|
                    0 <= d < old(slab)@.directory.len() && !(exists|j: int|
                        0 <= j < i && (#[trigger] self.series@[j]).schema_index == schema_index
                            && self.series@[j].series_id as int == d)
                        ==> #[trigger] slab@.directory[d] == old(slab)@.directory[d],
            decreases n - i,
        {
            let info = &self.series[i];
            if info.schema_index == schema_index {
                slab.set_series_column(info.series_id, info.column);
            }
            i = i + 1;
        }
    }
}

/// Stored form of the registry: the records and the two counter vectors.
#[derive(Debug)]
pub struct SeriesIndex {
    /// All registered series.
    pub series: Vec<SeriesInfo>,
    /// Next series id per schema.
    pub next_series_id: Vec<u32>,
    /// Next column per schema.
    pub next_column: Vec<u32>,
}

impl SeriesRegistry {
    /// Rebuilds a registry from a stored index: succeeds exactly when the
    /// index coheres with the configured schemas — a counter per schema,
    /// columns in step with ids, every record under its schema's counter,
    /// and no id given out twice.
    pub fn from_index(schemas: Vec<SchemaConfig>, index: SeriesIndex) -> (r: Result<
        SeriesRegistry,
        RondoError,
    >)
        ensures
            r is Ok <==> (SeriesRegistry {
                schemas,
                series: index.series,
                next_series_id: index.next_series_id,
                next_column: index.next_column,
            }).wf(),
            r matches Ok(reg) ==> reg.wf() && reg.schemas == schemas && reg.series == index.series
                && reg.next_series_id == index.next_series_id && reg.next_column
                == index.next_column,
            r matches Err(e) ==> e matches RondoError::Store(StoreError::CorruptedMetadata { .. }),
    {
        if index.next_series_id.len() != schemas.len() || index.next_column.len()
            != schemas.len() {
            proof {
                assert(!(SeriesRegistry {
                        schemas,
                        series: index.series,
                        next_series_id: index.next_series_id,
                        next_column: index.next_column,
                    }).wf());
            }
            return Err(
                RondoError::Store(
                    StoreError::CorruptedMetadata {
                        reason: "schema count does not match the stored counters".to_owned(),
                    },
                ),
            );
        }
        let n = schemas.len();
        let mut i: usize = 0;
        while i < n
            invariant
                i <= n,
                n == schemas@.len(),
                n == index.next_series_id@.len(),
                n == index.next_column@.len(),
                forall|j: int|
                    0 <= j < i ==> (#[trigger] index.next_series_id@[j])
                        <= schemas@[j].max_series && index.next_column@[j]
                        == index.next_series_id@[j],
            decreases n - i,
        {
            if index.next_column[i] != index.next_series_id[i] || index.next_series_id[i]
                > schemas[i].max_series {
                proof {
                    let ghost candidate = (SeriesRegistry {
                        schemas,
                        series: index.series,
                        next_series_id: index.next_series_id,
                        next_column: index.next_column,
                    });
                    assert(candidate.next_column@[i as int] == index.next_column@[i as int]);
                    assert(candidate.next_series_id@[i as int] == index.next_series_id@[i as int]);
                    assert(!candidate.wf());
                }
                return Err(
                    RondoError::Store(
                        StoreError::CorruptedMetadata {
                            reason: "stored counters out of range".to_owned(),
                        },
                    ),
                );
            }
            i = i + 1;
        }
        let m = index.series.len();
        let mut i: usize = 0;
        while i < m
            invariant
                i <= m,
                m == index.series@.len(),
                n == schemas@.len(),
                n == index.next_series_id@.len(),
                forall|j: int|
                    0 <= j < i ==> {
                        let info = #[trigger] index.series@[j];
                        &&& info.schema_index < n
                        &&& info.series_id < index.next_series_id@[info.schema_index as int]
                        &&& info.column == info.series_id
                    },
                forall|p: int, q: int|
                    #![trigger index.series@[p], index.series@[q]]
                    0 <= p < q < i && index.series@[p].schema_index
                        == index.series@[q].schema_index ==> index.series@[p].series_id
                        != index.series@[q].series_id,
            decreases m - i,
        {
            let info = &index.series[i];
            if info.schema_index >= n || info.series_id >= index.next_series_id[info.schema_index]
                || info.column != info.series_id {
                proof {
                    let ghost candidate = (SeriesRegistry {
                        schemas,
                        series: index.series,
                        next_series_id: index.next_series_id,
                        next_column: index.next_column,
                    });
                    assert(candidate.series@[i as int] == index.series@[i as int]);
                    assert(!candidate.wf());
                }
                return Err(
                    RondoError::Store(
                        StoreError::CorruptedMetadata {
                            reason: "stored series record out of range".to_owned(),
                        },
                    ),
                );
            }
            let mut j: usize = 0;
            while j < i
                invariant
                    j <= i,
                    i < m,
                    m == index.series@.len(),
                    forall|q: int|
                        0 <= q < j ==> !((#[trigger] index.series@[q]).schema_index
                            == index.series@[i as int].schema_index && index.series@[q].series_id
                            == index.series@[i as int].series_id),
                decreases i - j,
            {
                if index.series[j].schema_index == index.series[i].schema_index
                    && index.series[j].series_id == index.series[i].series_id {
                    proof {
                        let ghost candidate = (SeriesRegistry {
                        schemas,
                        series: index.series,
                        next_series_id: index.next_series_id,
                        next_column: index.next_column,
                    });
                        assert(candidate.series@[j as int] == index.series@[j as int]);
                        assert(candidate.series@[i as int] == index.series@[i as int]);
                        assert(!candidate.wf());
                    }
                    return Err(
                        RondoError::Store(
                            StoreError::CorruptedMetadata {
                                reason: "stored series id given out twice".to_owned(),
                            },
                        ),
                    );
                }
                j = j + 1;
            }
            i = i + 1;
        }
        proof {
            assert(index.next_column@ =~= index.next_series_id@);
        }
        Ok(
            SeriesRegistry {
                schemas,
                series: index.series,
                next_series_id: index.next_series_id,
                next_column: index.next_column,
            },
        )
    }
}

/// Index of the first schema whose matcher accepts the labels.
pub open spec fn first_matching_schema(
    schemas: Seq<SchemaConfig>,
    labels: Seq<(Seq<char>, Seq<char>)>,
) -> int
    decreases schemas.len(),
{
    if schemas.len() == 0 {
        -1
    } else if matches_spec(schemas[0].label_matcher.pairs(), labels) {
        0
    } else {
        let r = first_matching_schema(schemas.drop_first(), labels);
        if r < 0 {
            -1
        } else {
            r + 1
        }
    }
}

/// A scan that rejected every schema before `i` and accepts `i` has found
/// the first match.
proof fn lemma_first_matching_schema(
    schemas: Seq<SchemaConfig>,
    labels: Seq<(Seq<char>, Seq<char>)>,
    i: int,
)
    requires
        0 <= i < schemas.len(),
        matches_spec(schemas[i].label_matcher.pairs(), labels),
        forall|j: int|
            0 <= j < i ==> !matches_spec(
                (#[trigger] schemas[j]).label_matcher.pairs(),
                labels,
            ),
    ensures
        first_matching_schema(schemas, labels) == i,
    decreases i,
{
    if i == 0 {
    } else {
        assert(schemas.drop_first()[i - 1] == schemas[i]);
        assert forall|j: int| 0 <= j < i - 1 implies !matches_spec(
            (#[trigger] schemas.drop_first()[j]).label_matcher.pairs(),
            labels,
        ) by {
            assert(schemas.drop_first()[j] == schemas[j + 1]);
        }
        lemma_first_matching_schema(schemas.drop_first(), labels, i - 1);
    }
}

/// Validates every label pair, reporting the first unacceptable one.
fn validate_labels(labels: &[(String, String)]) -> (r: Result<(), RondoError>)
    ensures
        r is Ok <==> labels_ok(pairs_view(labels@)),
        r matches Err(e) ==> e matches RondoError::Series(SeriesError::InvalidLabel { .. }),
{
    let n = labels.len();
    let mut i: usize = 0;
    while i < n
        invariant
            i <= n,
            n == labels@.len(),
            forall|j: int|
                0 <= j < i ==> label_ok(
                    (#[trigger] pairs_view(labels@)[j]).0,
                    pairs_view(labels@)[j].1,
                ),
        decreases n - i,
    {
        let key_bytes = labels[i].0.as_str().as_bytes();
        let value_bytes = labels[i].1.as_str().as_bytes();
        proof {
            assert(pairs_view(labels@)[i as int] == (labels@[i as int].0@, labels@[i as int].1@));
        }
        if key_bytes.len() == 0 {
            return Err(
                RondoError::Series(
                    SeriesError::InvalidLabel {
                        key: labels[i].0.clone(),
                        value: labels[i].1.clone(),
                        reason: "key cannot be empty".to_owned(),
                    },
                ),
            );
        }
        if value_bytes.len() == 0 {
            return Err(
                RondoError::Series(
                    SeriesError::InvalidLabel {
                        key: labels[i].0.clone(),
                        value: labels[i].1.clone(),
                        reason: "value cannot be empty".to_owned(),
                    },
                ),
            );
        }
        if key_bytes.len() >= 2 && key_bytes[0] == 0x5f_u8 && key_bytes[1] == 0x5f_u8 {
            return Err(
                RondoError::Series(
                    SeriesError::InvalidLabel {
                        key: labels[i].0.clone(),
                        value: labels[i].1.clone(),
                        reason: "keys starting with '__' are reserved for internal use".to_owned(),
                    },
                ),
            );
        }
        i = i + 1;
    }
    Ok(())
}

/// Compares two strings by value.
fn str_eq(a: &str, b: &str) -> (r: bool)
    ensures
        r == (a@ == b@),
{
    let sa = a.to_owned();
    let sb = b.to_owned();
    sa == sb
}

/// Clones a label list.
fn clone_labels(labels: &[(String, String)]) -> (r: Vec<(String, String)>)
    ensures
        r@ == labels@,
{
    let n = labels.len();
    let mut out: Vec<(String, String)> = Vec::new();
    let mut i: usize = 0;
    while i < n
        invariant
            i <= n,
            n == labels@.len(),
            out@.len() == i,
            forall|j: int| 0 <= j < i ==> out@[j] == labels@[j],
        decreases n - i,
    {
        out.push((labels[i].0.clone(), labels[i].1.clone()));
        i = i + 1;
    }
    proof {
        assert(out@ =~= labels@);
    }
    out
}

/// Skipping pairs that do not carry the key leaves the first find alone.
proof fn lemma_find_key_skip(pairs: Seq<(Seq<char>, Seq<char>)>, key: Seq<char>, j: int)
    requires
        0 <= j <= pairs.len(),
        forall|m: int| 0 <= m < j ==> (#[trigger] pairs[m]).0 != key,
    ensures
        j < pairs.len() && pairs[j].0 == key ==> find_key(pairs, key) == j,
        j == pairs.len() ==> find_key(pairs, key) == -1,
    decreases j + (pairs.len() - j),
{
    if pairs.len() == 0 {
    } else if j == 0 {
        if pairs[0].0 != key {
        }
    } else {
        assert(pairs[0].0 != key);
        assert forall|m: int| 0 <= m < j - 1 implies (#[trigger] pairs.drop_first()[m]).0
            != key by {
            assert(pairs.drop_first()[m] == pairs[m + 1]);
        }
        lemma_find_key_skip(pairs.drop_first(), key, j - 1);
        if j < pairs.len() && pairs[j].0 == key {
            assert(pairs.drop_first()[j - 1] == pairs[j]);
        }
    }
}

/// Removing an element commutes with taking the character view.
proof fn lemma_pairs_view_remove(labels: Seq<(String, String)>, j: int)
    requires
        0 <= j < labels.len(),
    ensures
        pairs_view(labels.remove(j)) == pairs_view(labels).remove(j),
{
    assert(pairs_view(labels.remove(j)) =~= pairs_view(labels).remove(j));
}

/// Finds the first pair carrying `key`.
fn find_key_pos(labels: &[(String, String)], key: &String) -> (r: Option<usize>)
    ensures
        r matches Some(j) ==> j as int == find_key(pairs_view(labels@), key@) && (j as int)
            < labels@.len() && pairs_view(labels@)[j as int].0 == key@,
        r is None ==> find_key(pairs_view(labels@), key@) == -1,
{
    let m = labels.len();
    let mut j: usize = 0;
    while j < m
        invariant
            j <= m,
            m == labels@.len(),
            forall|q: int| 0 <= q < j ==> (#[trigger] pairs_view(labels@)[q]).0 != key@,
        decreases m - j,
    {
        proof {
            assert(pairs_view(labels@)[j as int] == (labels@[j as int].0@, labels@[j as int].1@));
        }
        if str_eq(labels[j].0.as_str(), key.as_str()) {
            proof {
                lemma_find_key_skip(pairs_view(labels@), key@, j as int);
            }
            return Some(j);
        }
        j = j + 1;
    }
    proof {
        lemma_find_key_skip(pairs_view(labels@), key@, m as int);
    }
    None
}

/// Decides label-set equivalence by pairing each pair of `a` with the
/// first unmatched pair of `b` that carries its key.
fn labels_equiv_exec(a: &[(String, String)], b: &[(String, String)]) -> (r: bool)
    ensures
        r == labels_equiv(pairs_view(a@), pairs_view(b@)),
{
    let mut rem: Vec<(String, String)> = clone_labels(b);
    let n = a.len();
    let mut i: usize = 0;
    proof {
        assert(a@.skip(0) =~= a@);
    }
    while i < n
        invariant
            i <= n,
            n == a@.len(),
            labels_equiv(pairs_view(a@), pairs_view(b@)) == labels_equiv(
                pairs_view(a@.skip(i as int)),
                pairs_view(rem@),
            ),
        decreases n - i,
    {
        proof {
            assert(pairs_view(a@.skip(i as int))[0] == (
                a@.skip(i as int)[0].0@,
                a@.skip(i as int)[0].1@,
            ));
            assert(a@.skip(i as int)[0] == a@[i as int]);
        }
        let found = find_key_pos(rem.as_slice(), &a[i].0);
        let j = match found {
            Some(j) => j,
            None => {
                proof {
                    assert(!labels_equiv(pairs_view(a@.skip(i as int)), pairs_view(rem@)));
                }
                return false;
            },
        };
        proof {
            assert(pairs_view(rem@)[j as int] == (rem@[j as int].0@, rem@[j as int].1@));
        }
        if !str_eq(rem[j].1.as_str(), a[i].1.as_str()) {
            proof {
                assert(!labels_equiv(pairs_view(a@.skip(i as int)), pairs_view(rem@)));
            }
            return false;
        }
        proof {
            lemma_pairs_view_remove(rem@, j as int);
            assert(pairs_view(a@.skip(i as int)).drop_first() =~= pairs_view(
                a@.skip(i as int + 1),
            ));
        }
        rem.remove(j);
        i = i + 1;
    }
    proof {
        assert(pairs_view(a@.skip(n as int)) =~= Seq::<(Seq<char>, Seq<char>)>::empty());
    }
    rem.len() == 0
}

} // verus!
