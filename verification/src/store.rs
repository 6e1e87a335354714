//! The store: schemas, registry, rings and consolidation progress.
//!
//! A store owns one ring per (schema, tier).  `create` builds a fresh
//! store from validated schemas; `open` reassembles one from data the
//! host program loaded back (metadata, slab contents, the series index
//! and the consolidation cursors), re-checking everything the engine
//! relies on.  All persistence is the host's: the store exposes its
//! metadata, registry and cursors as plain data.

use vstd::prelude::*;

use crate::consolidate::{
    consolidate_pass, arith_ok, rings_match, rings_unchanged, ConsolidationCursor,
    ConsolidationCursors,
};
use crate::error::{QueryError, RondoError, StoreError};
use crate::export::{drain_tier, ExportCursor, SeriesExport};
use crate::fbits::{is_inf_bits, NAN_BITS};
use crate::query::{analyze_coverage, coverage_spec, QueryResult};
use crate::ring::{read_points, write_view, RingBuffer, RingView};
use crate::schema::{schema_valid, spec_stable_hash, ConsolidationFn, SchemaConfig};
use crate::series::{SeriesHandle, SeriesIndex, SeriesInfo, SeriesRegistry};
use crate::slab::Slab;

verus! {

/// Version of the store metadata format.
pub const METADATA_VERSION: u32 = 1;

/// One schema as recorded in the store metadata: the configuration and
/// the stable hash computed when the store was created.
#[derive(Debug)]
pub struct SchemaRecord {
    /// The schema configuration.
    pub config: SchemaConfig,
    /// Stable hash recorded at creation time.
    pub hash: u64,
}

/// The store metadata the host keeps beside the slabs.
#[derive(Debug)]
pub struct StoreMeta {
    /// Metadata format version.
    pub version: u32,
    /// The schemas with their recorded hashes.
    pub schemas: Vec<SchemaRecord>,
}

/// Summary of one tier's state.
#[derive(Debug, Clone)]
pub struct TierInfo {
    /// Number of slots in the ring buffer.
    pub slot_count: u32,
    /// Interval between slots in nanoseconds.
    pub interval_ns: u64,
    /// Oldest timestamp in the tier, or absent if empty.
    pub oldest_timestamp: Option<u64>,
    /// Newest timestamp in the tier, or absent if empty.
    pub newest_timestamp: Option<u64>,
    /// Whether the tier holds no data.
    pub is_empty: bool,
    /// Whether the ring buffer has wrapped around.
    pub has_wrapped: bool,
}

/// A freshly created ring: nothing stamped, every value empty.
pub open spec fn fresh_ring(v: RingView) -> bool {
    &&& v.slab.write_cursor == 0
    &&& v.slab.series_count == 0
    &&& !v.wrapped
    &&& forall|i: int| 0 <= i < v.slab.timestamps.len() ==> v.slab.timestamps[i] == 0
    &&& forall|c: int, s: int|
        0 <= c < v.slab.values.len() && 0 <= s < v.slab.values[c].len()
            ==> crate::fbits::is_nan_bits(#[trigger] v.slab.values[c][s])
}

/// What a store reopen accepts: valid schemas, the current metadata
/// version, one stored hash and tier count per schema (each hash equal
/// to the schema's stable hash and each count to its tier count), one
/// well-formed slab per tier with its tier's geometry, a coherent series
/// index if one is given, and no duplicated consolidation cursor.
pub open spec fn open_accepts(
    schemas: Vec<SchemaConfig>,
    meta_version: u32,
    stored_hashes: Vec<u64>,
    stored_tier_counts: Vec<usize>,
    slabs: Vec<Vec<Slab>>,
    series_index: Option<SeriesIndex>,
    cursor_records: Vec<ConsolidationCursor>,
) -> bool {
    &&& forall|s: int| 0 <= s < schemas@.len() ==> schema_valid(#[trigger] schemas@[s])
    &&& meta_version == METADATA_VERSION
    &&& stored_hashes@.len() == schemas@.len()
    &&& stored_tier_counts@.len() == schemas@.len()
    &&& forall|s: int|
        0 <= s < schemas@.len() ==> (#[trigger] stored_hashes@[s]) == spec_stable_hash(
            schemas@[s].label_matcher.pairs(),
            schemas@[s].tiers@,
            schemas@[s].max_series,
        )
    &&& forall|s: int|
        0 <= s < schemas@.len() ==> (#[trigger] stored_tier_counts@[s])
            == schemas@[s].tiers@.len()
    &&& slabs@.len() == schemas@.len()
    &&& forall|s: int|
        0 <= s < schemas@.len() ==> (#[trigger] slabs@[s])@.len() == schemas@[s].tiers@.len()
    &&& forall|s: int, t: int|
        #![trigger slabs@[s]@[t]]
        0 <= s < schemas@.len() && 0 <= t < schemas@[s].tiers@.len() ==> {
            let sv = slabs@[s]@[t]@;
            &&& sv.wf()
            &&& sv.max_series == schemas@[s].max_series
            &&& sv.interval_ns == schemas@[s].tiers@[t].interval_ns
        }
    &&& match series_index {
        Some(idx) => (SeriesRegistry {
            schemas,
            series: idx.series,
            next_series_id: idx.next_series_id,
            next_column: idx.next_column,
        }).wf(),
        None => true,
    }
    &&& (ConsolidationCursors { cursors: cursor_records }).wf()
}

/// One schema's share of a batch: the (column, value) pairs of the
/// entries routed to it, in entry order.
pub open spec fn schema_batch(entries: Seq<(SeriesHandle, u64)>, schema_index: int) -> Seq<
    (u32, u64),
>
    decreases entries.len(),
{
    if entries.len() == 0 {
        Seq::empty()
    } else {
        let prev = schema_batch(entries.drop_last(), schema_index);
        let e = entries.last();
        if e.0.schema_index as int == schema_index {
            prev.push((e.0.column, e.1))
        } else {
            prev
        }
    }
}

/// A schema's share of a batch is writable: it is empty, or the shared
/// timestamp is not the reserved zero and none of its values is an
/// infinity.
pub open spec fn schema_batch_ok(
    entries: Seq<(SeriesHandle, u64)>,
    schema_index: int,
    timestamp_ns: u64,
) -> bool {
    ||| schema_batch(entries, schema_index).len() == 0
    ||| (timestamp_ns != 0 && forall|k: int|
        0 <= k < schema_batch(entries, schema_index).len() ==> !is_inf_bits(
            (#[trigger] schema_batch(entries, schema_index)[k]).1,
        ))
}

/// The highest-resolution ring of a schema after its share of a batch:
/// unchanged when the share is empty, else one batch write.
pub open spec fn tier0_after_batch(
    before: RingView,
    entries: Seq<(SeriesHandle, u64)>,
    schema_index: int,
    timestamp_ns: u64,
) -> RingView {
    if schema_batch(entries, schema_index).len() == 0 {
        before
    } else {
        crate::ring::write_batch_view(before, schema_batch(entries, schema_index), timestamp_ns)
    }
}

/// Whether a tier's available range fully covers a requested range.
pub open spec fn tier_full(v: RingView, start_ns: u64, end_ns: u64) -> bool {
    coverage_spec(v.spec_oldest(), v.spec_newest(), start_ns, end_ns).0
}

/// Whether a tier holds any data.
pub open spec fn tier_has_data(v: RingView) -> bool {
    v.spec_oldest() is Some && v.spec_newest() is Some
}

/// The tier an automatic query serves from, scanning from tier `t` with
/// `fallback` the last tier with data seen so far: the first tier that
/// fully covers the request wins; otherwise the last tier holding any
/// data; otherwise the highest-resolution tier.
pub open spec fn auto_tier_from(
    tiers: Seq<RingBuffer>,
    start_ns: u64,
    end_ns: u64,
    t: int,
    fallback: int,
) -> int
    decreases tiers.len() - t,
{
    if t < 0 || t >= tiers.len() {
        fallback
    } else if tier_full(tiers[t]@, start_ns, end_ns) {
        t
    } else if tier_has_data(tiers[t]@) {
        auto_tier_from(tiers, start_ns, end_ns, t + 1, t)
    } else {
        auto_tier_from(tiers, start_ns, end_ns, t + 1, fallback)
    }
}

/// The tier an automatic query serves from.
pub open spec fn auto_tier(tiers: Seq<RingBuffer>, start_ns: u64, end_ns: u64) -> int {
    auto_tier_from(tiers, start_ns, end_ns, 0, 0)
}

/// The store.
#[derive(Debug)]
pub struct Store {
    /// The registry, which also owns the schema configurations.
    pub registry: SeriesRegistry,
    /// Ring buffers, one per (schema, tier).
    pub rings: Vec<Vec<RingBuffer>>,
    /// Consolidation progress, persisted by the host after each pass.
    pub cursors: ConsolidationCursors,
}

impl Store {
    /// Everything the engine relies on: a coherent registry over valid
    /// schemas, rings lining up with the schema tiers, and well-formed
    /// cursors.
    pub open spec fn wf(self) -> bool {
        &&& self.registry.wf()
        &&& forall|s: int|
            0 <= s < self.registry.schemas@.len() ==> schema_valid(
                #[trigger] self.registry.schemas@[s],
            )
        &&& rings_match(self.registry.schemas@, self.rings@)
        &&& self.cursors.wf()
    }

    /// Builds a fresh store: validates the schemas and allocates one
    /// empty ring per tier.
    pub fn create(schemas: Vec<SchemaConfig>) -> (r: Result<Store, RondoError>)
        ensures
            r is Ok <==> forall|s: int|
                0 <= s < schemas@.len() ==> schema_valid(#[trigger] schemas@[s]),
            r matches Ok(store) ==> {
                &&& store.wf()
                &&& store.registry.schemas == schemas
                &&& store.registry.series@.len() == 0
                &&& forall|s: int|
                    0 <= s < schemas@.len() ==> (#[trigger] store.registry.next_series_id@[s])
                        == 0
                &&& store.cursors.cursors@.len() == 0
                &&& store.rings@.len() == schemas@.len()
                &&& forall|s: int|
                    0 <= s < schemas@.len() ==> (#[trigger] store.rings@[s])@.len()
                        == schemas@[s].tiers@.len()
                &&& forall|s: int, t: int|
                    #![trigger store.rings@[s]@[t]]
                    0 <= s < schemas@.len() && 0 <= t < schemas@[s].tiers@.len() ==> {
                        let rv = store.rings@[s]@[t]@;
                        &&& fresh_ring(rv)
                        &&& rv.slab.slot_count as u64 == schemas@[s].tiers@[t].spec_slot_count()
                        &&& rv.slab.schema_hash == spec_stable_hash(
                            schemas@[s].label_matcher.pairs(),
                            schemas@[s].tiers@,
                            schemas@[s].max_series,
                        )
                    }
            },
    {
        let schema_count = schemas.len();
        let mut i: usize = 0;
        while i < schema_count
            invariant
                i <= schema_count,
                schema_count == schemas@.len(),
                forall|s: int| 0 <= s < i ==> schema_valid(#[trigger] schemas@[s]),
            decreases schema_count - i,
        {
            match schemas[i].validate() {
                Ok(()) => {},
                Err(e) => {
                    return Err(e);
                },
            }
            i = i + 1;
        }
        let mut rings: Vec<Vec<RingBuffer>> = Vec::new();
        let mut s: usize = 0;
        while s < schema_count
            invariant
                s <= schema_count,
                schema_count == schemas@.len(),
                forall|q: int| 0 <= q < schema_count ==> schema_valid(#[trigger] schemas@[q]),
                rings@.len() == s,
                forall|q: int|
                    0 <= q < s ==> (#[trigger] rings@[q])@.len() == schemas@[q].tiers@.len(),
                forall|q: int, t: int|
                    #![trigger rings@[q]@[t]]
                    0 <= q < s && 0 <= t < schemas@[q].tiers@.len() ==> {
                        let rv = rings@[q]@[t]@;
                        &&& rv.wf()
                        &&& rv.slab.max_series == schemas@[q].max_series
                        &&& rv.slab.interval_ns == schemas@[q].tiers@[t].interval_ns
                        &&& rv.slab.slot_count as u64 == schemas@[q].tiers@[t].spec_slot_count()
                        &&& rv.slab.schema_hash == spec_stable_hash(
                            schemas@[q].label_matcher.pairs(),
                            schemas@[q].tiers@,
                            schemas@[q].max_series,
                        )
                        &&& fresh_ring(rv)
                    },
            decreases schema_count - s,
        {
            let schema_hash = schemas[s].stable_hash();
            let tier_count = schemas[s].tiers.len();
            let mut schema_rings: Vec<RingBuffer> = Vec::new();
            let mut t: usize = 0;
            while t < tier_count
                invariant
                    t <= tier_count,
                    s < schema_count,
                    schema_count == schemas@.len(),
                    tier_count == schemas@[s as int].tiers@.len(),
                    forall|q: int| 0 <= q < schema_count ==> schema_valid(#[trigger] schemas@[q]),
                    schema_rings@.len() == t,
                    schema_hash == spec_stable_hash(
                        schemas@[s as int].label_matcher.pairs(),
                        schemas@[s as int].tiers@,
                        schemas@[s as int].max_series,
                    ),
                    forall|q: int|
                        0 <= q < t ==> {
                            let rv = (#[trigger] schema_rings@[q])@;
                            &&& rv.wf()
                            &&& rv.slab.max_series == schemas@[s as int].max_series
                            &&& rv.slab.interval_ns == schemas@[s as int].tiers@[q].interval_ns
                            &&& rv.slab.slot_count as u64 == schemas@[s as int].tiers@[
                                q].spec_slot_count()
                            &&& rv.slab.schema_hash == spec_stable_hash(
                                schemas@[s as int].label_matcher.pairs(),
                                schemas@[s as int].tiers@,
                                schemas@[s as int].max_series,
                            )
                            &&& fresh_ring(rv)
                        },
                decreases tier_count - t,
            {
                let tier = &schemas[s].tiers[t];
                let slot_count64 = tier.slot_count();
                proof {
                    let tv = schemas@[s as int].tiers@[t as int];
                    assert(crate::schema::tier_valid(tv));
                    assert(tv.retention_ns / tv.interval_ns >= 1) by (nonlinear_arith)
                        requires
                            tv.retention_ns >= tv.interval_ns,
                            tv.interval_ns > 0,
                    ;
                    assert(slot_count64 >= 1);
                    assert(slot_count64 <= crate::schema::MAX_SLOTS_PER_TIER);
                }
                let slot_count = slot_count64 as u32;
                let slab = Slab::new(schema_hash, slot_count, schemas[s].max_series,
                    tier.interval_ns);
                let ring = RingBuffer::new(slab);
                proof {
                    crate::fbits::lemma_nan_sentinel();
                    assert(fresh_ring(ring@));
                }
                schema_rings.push(ring);
                t = t + 1;
            }
            rings.push(schema_rings);
            s = s + 1;
        }
        let registry = SeriesRegistry::new(schemas);
        Ok(Store { registry, rings, cursors: ConsolidationCursors::new() })
    }

    /// The metadata to persist beside the slabs: the version and each
    /// schema with its stable hash.
    pub fn make_meta(&self) -> (r: StoreMeta)
        ensures
            r.version == METADATA_VERSION,
            r.schemas@.len() == self.registry.schemas@.len(),
            forall|s: int|
                0 <= s < r.schemas@.len() ==> (#[trigger] r.schemas@[s]).hash == spec_stable_hash(
                    self.registry.schemas@[s].label_matcher.pairs(),
                    self.registry.schemas@[s].tiers@,
                    self.registry.schemas@[s].max_series,
                ),
            forall|s: int|
                0 <= s < r.schemas@.len() ==> {
                    let c = (#[trigger] r.schemas@[s]).config;
                    &&& c.name@ == self.registry.schemas@[s].name@
                    &&& c.label_matcher.pairs() == self.registry.schemas@[s].label_matcher.pairs()
                    &&& c.tiers@ == self.registry.schemas@[s].tiers@
                    &&& c.max_series == self.registry.schemas@[s].max_series
                },
    {
        let n = self.registry.schemas.len();
        let mut records: Vec<SchemaRecord> = Vec::new();
        let mut i: usize = 0;
        while i < n
            invariant
                i <= n,
                n == self.registry.schemas@.len(),
                records@.len() == i,
                forall|s: int|
                    0 <= s < i ==> (#[trigger] records@[s]).hash == spec_stable_hash(
                        self.registry.schemas@[s].label_matcher.pairs(),
                        self.registry.schemas@[s].tiers@,
                        self.registry.schemas@[s].max_series,
                    ),
                forall|s: int|
                    0 <= s < i ==> {
                        let c = (#[trigger] records@[s]).config;
                        &&& c.name@ == self.registry.schemas@[s].name@
                        &&& c.label_matcher.pairs() == self.registry.schemas@[
                            s].label_matcher.pairs()
                        &&& c.tiers@ == self.registry.schemas@[s].tiers@
                        &&& c.max_series == self.registry.schemas@[s].max_series
                    },
            decreases n - i,
        {
            let config = &self.registry.schemas[i];
            let hash = config.stable_hash();
            let tier_count = config.tiers.len();
            let mut tiers: Vec<crate::schema::TierConfig> = Vec::new();
            let mut t: usize = 0;
            while t < tier_count
                invariant
                    t <= tier_count,
                    i < n,
                    n == self.registry.schemas@.len(),
                    *config == self.registry.schemas@[i as int],
                    tier_count == self.registry.schemas@[i as int].tiers@.len(),
                    tiers@.len() == t,
                    forall|q: int|
                        0 <= q < t ==> tiers@[q] == self.registry.schemas@[i as int].tiers@[q],
                decreases tier_count - t,
            {
                tiers.push(config.tiers[t]);
                t = t + 1;
            }
            proof {
                assert(tiers@ =~= self.registry.schemas@[i as int].tiers@);
            }
            let copy = SchemaConfig {
                name: config.name.clone(),
                label_matcher: config.label_matcher.duplicate(),
                tiers,
                max_series: config.max_series,
            };
            records.push(SchemaRecord { config: copy, hash });
            i = i + 1;
        }
        StoreMeta { version: METADATA_VERSION, schemas: records }
    }

    /// Reassembles a store from data the host loaded back, succeeding on
    /// exactly the inputs [`open_accepts`] describes.  On success the
    /// store holds exactly what it was given: the rings wrap the given
    /// slabs (with the wrap flag re-detected), the registry is the
    /// rebuilt index (or empty when none was stored), and the cursors are
    /// the given records.
    #[verifier::rlimit(100)]
    pub fn open(
        schemas: Vec<SchemaConfig>,
        meta_version: u32,
        stored_hashes: Vec<u64>,
        stored_tier_counts: Vec<usize>,
        slabs: Vec<Vec<Slab>>,
        series_index: Option<SeriesIndex>,
        cursor_records: Vec<ConsolidationCursor>,
    ) -> (r: Result<Store, RondoError>)
        ensures
            r is Ok <==> open_accepts(
                schemas,
                meta_version,
                stored_hashes,
                stored_tier_counts,
                slabs,
                series_index,
                cursor_records,
            ),
            r matches Ok(store) ==> {
                &&& store.wf()
                &&& store.registry.schemas == schemas
                &&& store.rings@.len() == slabs@.len()
                &&& forall|s: int|
                    0 <= s < slabs@.len() ==> (#[trigger] store.rings@[s])@.len()
                        == slabs@[s]@.len()
                &&& forall|s: int, t: int|
                    #![trigger store.rings@[s]@[t]]
                    0 <= s < slabs@.len() && 0 <= t < slabs@[s]@.len() ==> {
                        let rv = store.rings@[s]@[t]@;
                        &&& rv.slab == slabs@[s]@[t]@
                        &&& rv.wrapped == crate::ring::wrap_detect(slabs@[s]@[t]@)
                    }
                &&& match series_index {
                    Some(idx) => store.registry.series == idx.series
                        && store.registry.next_series_id == idx.next_series_id
                        && store.registry.next_column == idx.next_column,
                    None => store.registry.series@.len() == 0,
                }
                &&& store.cursors.cursors == cursor_records
            },
    {
        let schema_count = schemas.len();
        let mut i: usize = 0;
        while i < schema_count
            invariant
                i <= schema_count,
                schema_count == schemas@.len(),
                forall|s: int| 0 <= s < i ==> schema_valid(#[trigger] schemas@[s]),
            decreases schema_count - i,
        {
            match schemas[i].validate() {
                Ok(()) => {},
                Err(e) => {
                    proof {
                        assert(!schema_valid(schemas@[i as int]));
                    }
                    return Err(e);
                },
            }
            i = i + 1;
        }
        if meta_version != METADATA_VERSION {
            return Err(
                RondoError::Store(
                    StoreError::CorruptedMetadata {
                        reason: "unsupported metadata version".to_owned(),
                    },
                ),
            );
        }
        if stored_hashes.len() != schema_count || stored_tier_counts.len() != schema_count {
            return Err(
                RondoError::Store(
                    StoreError::CorruptedMetadata { reason: "schema count mismatch".to_owned() },
                ),
            );
        }
        let mut i: usize = 0;
        while i < schema_count
            invariant
                i <= schema_count,
                schema_count == schemas@.len(),
                schema_count == stored_hashes@.len(),
                schema_count == stored_tier_counts@.len(),
                forall|s: int|
                    0 <= s < i ==> (#[trigger] stored_hashes@[s]) == spec_stable_hash(
                        schemas@[s].label_matcher.pairs(),
                        schemas@[s].tiers@,
                        schemas@[s].max_series,
                    ),
                forall|s: int|
                    0 <= s < i ==> (#[trigger] stored_tier_counts@[s])
                        == schemas@[s].tiers@.len(),
            decreases schema_count - i,
        {
            let expected = schemas[i].stable_hash();
            if expected != stored_hashes[i] {
                return Err(
                    RondoError::Store(
                        StoreError::SchemaMismatch { existing: stored_hashes[i], expected },
                    ),
                );
            }
            if stored_tier_counts[i] != schemas[i].tiers.len() {
                return Err(
                    RondoError::Store(
                        StoreError::CorruptedMetadata {
                            reason: "tier count mismatch".to_owned(),
                        },
                    ),
                );
            }
            i = i + 1;
        }
        if slabs.len() != schema_count {
            return Err(
                RondoError::Store(
                    StoreError::CorruptedMetadata {
                        reason: "slab count does not match the schemas".to_owned(),
                    },
                ),
            );
        }
        let mut rings: Vec<Vec<RingBuffer>> = Vec::new();
        let mut slab_lists = slabs;
        let mut s: usize = 0;
        while s < schema_count
            invariant
                schema_count == schemas@.len(),
                forall|q: int| 0 <= q < schema_count ==> schema_valid(#[trigger] schemas@[q]),
                s <= schema_count,
                slabs@.len() == schema_count,
                slab_lists@ =~= slabs@.skip(s as int),
                rings@.len() == s,
                forall|q: int|
                    0 <= q < s ==> (#[trigger] rings@[q])@.len() == schemas@[q].tiers@.len(),
                forall|q: int|
                    0 <= q < s ==> (#[trigger] slabs@[q])@.len() == schemas@[q].tiers@.len(),
                forall|q: int, t: int|
                    #![trigger rings@[q]@[t]]
                    0 <= q < s && 0 <= t < schemas@[q].tiers@.len() ==> {
                        let rv = rings@[q]@[t]@;
                        &&& rv.wf()
                        &&& rv.slab.max_series == schemas@[q].max_series
                        &&& rv.slab.interval_ns == schemas@[q].tiers@[t].interval_ns
                        &&& rv.slab == slabs@[q]@[t]@
                        &&& rv.wrapped == crate::ring::wrap_detect(slabs@[q]@[t]@)
                    },
                forall|q: int, t: int|
                    #![trigger slabs@[q]@[t]]
                    0 <= q < s && 0 <= t < schemas@[q].tiers@.len() ==> {
                        let sv = slabs@[q]@[t]@;
                        &&& sv.wf()
                        &&& sv.max_series == schemas@[q].max_series
                        &&& sv.interval_ns == schemas@[q].tiers@[t].interval_ns
                    },
            decreases schema_count - s,
        {
            proof {
                assert(slab_lists@[0] == slabs@[s as int]);
            }
            let schema_slabs = slab_lists.remove(0);
            proof {
                assert(slab_lists@ =~= slabs@.skip(s as int + 1));
            }
            let tier_count = schemas[s].tiers.len();
            if schema_slabs.len() != tier_count {
                proof {
                    assert(slabs@[s as int]@.len() != schemas@[s as int].tiers@.len());
                }
                return Err(
                    RondoError::Store(
                        StoreError::CorruptedMetadata {
                            reason: "slab count does not match the schema's tiers".to_owned(),
                        },
                    ),
                );
            }
            let mut tier_slabs = schema_slabs;
            let mut schema_rings: Vec<RingBuffer> = Vec::new();
            let mut t: usize = 0;
            while t < tier_count
                invariant
                    t <= tier_count,
                    s < schema_count,
                    schema_count == schemas@.len(),
                    tier_count == schemas@[s as int].tiers@.len(),
                    forall|q: int| 0 <= q < schema_count ==> schema_valid(#[trigger] schemas@[q]),
                    slabs@.len() == schema_count,
                    slabs@[s as int]@.len() == tier_count,
                    tier_slabs@ =~= slabs@[s as int]@.skip(t as int),
                    schema_rings@.len() == t,
                    forall|q: int|
                        0 <= q < t ==> {
                            let rv = (#[trigger] schema_rings@[q])@;
                            &&& rv.wf()
                            &&& rv.slab.max_series == schemas@[s as int].max_series
                            &&& rv.slab.interval_ns == schemas@[s as int].tiers@[q].interval_ns
                            &&& rv.slab == slabs@[s as int]@[q]@
                            &&& rv.wrapped == crate::ring::wrap_detect(slabs@[s as int]@[q]@)
                        },
                decreases tier_count - t,
            {
                proof {
                    assert(tier_slabs@[0] == slabs@[s as int]@[t as int]);
                }
                let slab = tier_slabs.remove(0);
                proof {
                    assert(tier_slabs@ =~= slabs@[s as int]@.skip(t as int + 1));
                }
                if !slab.is_wf() {
                    proof {
                        assert(!(slabs@[s as int]@[t as int])@.wf());
                    }
                    return Err(
                        RondoError::SlabIo(
                            crate::error::SlabIoError::CorruptedSlab {
                                reason: "slab regions do not match its header".to_owned(),
                            },
                        ),
                    );
                }
                if slab.max_series() != schemas[s].max_series || slab.interval_ns()
                    != schemas[s].tiers[t].interval_ns {
                    proof {
                        assert((slabs@[s as int]@[t as int])@ == slab@);
                    }
                    return Err(
                        RondoError::SlabIo(
                            crate::error::SlabIoError::CorruptedSlab {
                                reason: "slab geometry does not match its tier".to_owned(),
                            },
                        ),
                    );
                }
                let ring = RingBuffer::new(slab);
                schema_rings.push(ring);
                t = t + 1;
            }
            proof {
                assert forall|t2: int| 0 <= t2 < schemas@[s as int].tiers@.len() implies {
                    let sv = (#[trigger] slabs@[s as int]@[t2])@;
                    &&& sv.wf()
                    &&& sv.max_series == schemas@[s as int].max_series
                    &&& sv.interval_ns == schemas@[s as int].tiers@[t2].interval_ns
                } by {
                    assert(schema_rings@[t2]@.slab == slabs@[s as int]@[t2]@);
                }
            }
            rings.push(schema_rings);
            s = s + 1;
        }
        let registry = match series_index {
            Some(index) => {
                match SeriesRegistry::from_index(schemas, index) {
                    Ok(reg) => reg,
                    Err(e) => {
                        return Err(e);
                    },
                }
            },
            None => SeriesRegistry::new(schemas),
        };
        let cursors = match ConsolidationCursors::from_records(cursor_records) {
            Some(c) => c,
            None => {
                return Err(
                    RondoError::Store(
                        StoreError::CorruptedMetadata {
                            reason: "a consolidation cursor is recorded twice".to_owned(),
                        },
                    ),
                );
            },
        };
        let store = Store { registry, rings, cursors };
        proof {
            assert(rings_match(store.registry.schemas@, store.rings@));
        }
        Ok(store)
    }

    /// Registers a series (or returns its existing handle) and mirrors
    /// the registration into every tier slab of its schema.
    #[verifier::rlimit(100)]
    pub fn register(&mut self, name: &str, labels: &[(String, String)]) -> (r: Result<
        SeriesHandle,
        RondoError,
    >)
        requires
            old(self).wf(),
        ensures
            final(self).wf(),
            final(self).registry.schemas == old(self).registry.schemas,
            final(self).cursors == old(self).cursors,
            r matches Ok(h) ==> h.schema_index < final(self).registry.schemas@.len()
                && h.column < final(self).registry.schemas@[h.schema_index as int].max_series
                && h.series_id == h.column,
            // rejected input: the whole store is untouched
            r is Err ==> *final(self) == *old(self),
            // an empty name or a bad label is rejected
            crate::text::string_bytes(name@).len() == 0 ==> (r matches Err(RondoError::Series(
                crate::error::SeriesError::InvalidLabel { .. },
            ))),
            crate::text::string_bytes(name@).len() > 0 && !crate::series::labels_ok(
                crate::schema::pairs_view(labels@),
            ) ==> (r matches Err(RondoError::Series(crate::error::SeriesError::InvalidLabel {
                ..
            }))),
            // an equivalent series keeps its handle and the registry stays
            crate::text::string_bytes(name@).len() > 0 && crate::series::labels_ok(
                crate::schema::pairs_view(labels@),
            ) && (exists|i: int|
                0 <= i < old(self).registry.series@.len() && crate::series::series_match(
                    #[trigger] old(self).registry.series@[i],
                    name@,
                    crate::schema::pairs_view(labels@),
                )) ==> {
                &&& final(self).registry == old(self).registry
                &&& r is Ok
                &&& exists|i: int|
                    0 <= i < old(self).registry.series@.len() && crate::series::series_match(
                        #[trigger] old(self).registry.series@[i],
                        name@,
                        crate::schema::pairs_view(labels@),
                    ) && r == Ok::<SeriesHandle, RondoError>(
                        crate::series::handle_of(old(self).registry.series@[i]),
                    )
            },
            // labels matched by no schema are rejected
            crate::text::string_bytes(name@).len() > 0 && crate::series::labels_ok(
                crate::schema::pairs_view(labels@),
            ) && !(exists|i: int|
                0 <= i < old(self).registry.series@.len() && crate::series::series_match(
                    #[trigger] old(self).registry.series@[i],
                    name@,
                    crate::schema::pairs_view(labels@),
                )) && !(exists|s: int|
                0 <= s < old(self).registry.schemas@.len() && crate::schema::matches_spec(
                    (#[trigger] old(self).registry.schemas@[s]).label_matcher.pairs(),
                    crate::schema::pairs_view(labels@),
                )) ==> (r matches Err(RondoError::Series(
                crate::error::SeriesError::NoMatchingSchema { .. },
            ))),
            // fresh registration: routed to the first matching schema,
            // succeeding exactly when it has capacity
            (crate::text::string_bytes(name@).len() > 0 && crate::series::labels_ok(
                crate::schema::pairs_view(labels@),
            ) && !(exists|i: int|
                0 <= i < old(self).registry.series@.len() && crate::series::series_match(
                    #[trigger] old(self).registry.series@[i],
                    name@,
                    crate::schema::pairs_view(labels@),
                )) && (exists|s: int|
                0 <= s < old(self).registry.schemas@.len() && crate::schema::matches_spec(
                    (#[trigger] old(self).registry.schemas@[s]).label_matcher.pairs(),
                    crate::schema::pairs_view(labels@),
                ))) ==> {
                let si = crate::series::first_matching_schema(
                    old(self).registry.schemas@,
                    crate::schema::pairs_view(labels@),
                );
                if old(self).registry.next_series_id@[si] >= old(
                    self,
                ).registry.schemas@[si].max_series {
                    r matches Err(RondoError::Series(crate::error::SeriesError::MaxSeriesExceeded {
                        ..
                    })) && *final(self) == *old(self)
                } else {
                    let id = old(self).registry.next_series_id@[si];
                    &&& r == Ok::<SeriesHandle, RondoError>(
                        SeriesHandle { schema_index: si as usize, series_id: id, column: id },
                    )
                    &&& final(self).registry.series@ == old(self).registry.series@.push(
                        final(self).registry.series@.last(),
                    )
                    &&& final(self).registry.series@.last().name@ == name@
                    &&& crate::schema::pairs_view(final(self).registry.series@.last().labels@)
                        == crate::schema::pairs_view(labels@)
                    &&& crate::series::handle_of(final(self).registry.series@.last())
                        == (SeriesHandle { schema_index: si as usize, series_id: id, column: id })
                    &&& final(self).registry.next_series_id@ == old(
                        self,
                    ).registry.next_series_id@.update(si, (id + 1) as u32)
                }
            },
            // every ring keeps its data
            forall|s: int, t: int|
                #![trigger final(self).rings@[s]@[t]]
                0 <= s < old(self).rings@.len() && 0 <= t < old(self).rings@[s]@.len() ==> {
                    let post = final(self).rings@[s]@[t]@;
                    let pre = old(self).rings@[s]@[t]@;
                    &&& post.slab.timestamps == pre.slab.timestamps
                    &&& post.slab.values == pre.slab.values
                    &&& post.slab.write_cursor == pre.slab.write_cursor
                    &&& post.wrapped == pre.wrapped
                },
            // on success every tier slab of the handle's schema mirrors
            // the registry's series directory and count
            r matches Ok(h) ==> forall|t: int|
                0 <= t < final(self).rings@[h.schema_index as int]@.len() ==> {
                    let sl = (#[trigger] final(self).rings@[h.schema_index as int]@[t])@.slab;
                    &&& sl.series_count == final(self).registry.next_series_id@[h.schema_index
                        as int]
                    &&& forall|i: int|
                        0 <= i < final(self).registry.series@.len() && (
                        #[trigger] final(self).registry.series@[i]).schema_index
                            == h.schema_index ==> {
                            let info = final(self).registry.series@[i];
                            sl.directory[info.series_id as int] == info.column
                        }
                },
    {
        let ghost old_rings = self.rings@;
        let handle = match self.registry.register(name, labels) {
            Ok(h) => h,
            Err(e) => {
                return Err(e);
            },
        };
        let ghost registry_after = self.registry;
        let schema_index = handle.schema_index;
        let tier_count = self.rings[schema_index].len();
        let mut t: usize = 0;
        while t < tier_count
            invariant
                t <= tier_count,
                self.wf(),
                self.registry == registry_after,
                self.cursors == old(self).cursors,
                registry_after.schemas == old(self).registry.schemas,
                schema_index < self.registry.schemas@.len(),
                tier_count == self.rings@[schema_index as int]@.len(),
                self.rings@.len() == old_rings.len(),
                forall|t2: int|
                    0 <= t2 < t ==> {
                        let sl = (#[trigger] self.rings@[schema_index as int]@[t2])@.slab;
                        &&& sl.series_count == registry_after.next_series_id@[schema_index as int]
                        &&& forall|i: int|
                            0 <= i < registry_after.series@.len() && (
                            #[trigger] registry_after.series@[i]).schema_index == schema_index
                                ==> sl.directory[registry_after.series@[i].series_id as int]
                                == registry_after.series@[i].column
                    },
                forall|q: int|
                    0 <= q < old_rings.len() ==> (#[trigger] self.rings@[q])@.len() == old_rings[
                        q]@.len(),
                forall|s: int, t2: int|
                    #![trigger self.rings@[s]@[t2]]
                    0 <= s < old_rings.len() && 0 <= t2 < old_rings[s]@.len() ==> {
                        let post = self.rings@[s]@[t2]@;
                        let pre = old_rings[s]@[t2]@;
                        &&& post.slab.timestamps == pre.slab.timestamps
                        &&& post.slab.values == pre.slab.values
                        &&& post.slab.write_cursor == pre.slab.write_cursor
                        &&& post.wrapped == pre.wrapped
                    },
            decreases tier_count - t,
        {
            let registry = &self.registry;
            let schema_rings = &mut self.rings[schema_index];
            let ring = &mut schema_rings[t];
            let slab = ring.slab_mut();
            registry.sync_to_slab(schema_index, slab);
            t = t + 1;
        }
        Ok(handle)
    }

    /// Records one value for a series at a timestamp, on the highest
    /// resolution tier of the series' schema.
    pub fn record(&mut self, handle: SeriesHandle, value_bits: u64, timestamp_ns: u64) -> (r:
        Result<(), RondoError>)
        requires
            old(self).wf(),
            handle.schema_index < old(self).registry.schemas@.len(),
            handle.column < old(self).registry.schemas@[handle.schema_index as int].max_series,
        ensures
            final(self).wf(),
            final(self).registry == old(self).registry,
            final(self).cursors == old(self).cursors,
            r is Ok <==> (!is_inf_bits(value_bits) && timestamp_ns != 0),
            r is Err ==> final(self).rings@[handle.schema_index as int]@[0]@ == old(
                self,
            ).rings@[handle.schema_index as int]@[0]@,
            r is Ok ==> final(self).rings@[handle.schema_index as int]@[0]@ == write_view(
                old(self).rings@[handle.schema_index as int]@[0]@,
                handle.column,
                value_bits,
                timestamp_ns,
            ),
            forall|s: int, t: int|
                #![trigger final(self).rings@[s]@[t]]
                0 <= s < old(self).rings@.len() && 0 <= t < old(self).rings@[s]@.len() && !(s
                    == handle.schema_index && t == 0) ==> final(self).rings@[s]@[t] == old(
                    self,
                ).rings@[s]@[t],
    {
        let ghost old_rings = self.rings@;
        let schema_rings = &mut self.rings[handle.schema_index];
        let ring = &mut schema_rings[0];
        let r = ring.write(handle.column, value_bits, timestamp_ns);
        proof {
            crate::consolidate::lemma_rings_frame(
                self.registry.schemas@,
                old_rings,
                self.rings@,
                handle.schema_index as int,
                0,
            );
        }
        r
    }

    /// Collects one schema's share of a batch and writes it into that
    /// schema's highest-resolution ring in one ring operation.
    #[verifier::rlimit(100)]
    fn record_schema_share(
        &mut self,
        entries: &[(SeriesHandle, u64)],
        schema_index: usize,
        timestamp_ns: u64,
    ) -> (r: Result<(), RondoError>)
        requires
            old(self).wf(),
            schema_index < old(self).registry.schemas@.len(),
            forall|i: int|
                0 <= i < entries@.len() ==> {
                    let h = (#[trigger] entries@[i]).0;
                    &&& h.schema_index < old(self).registry.schemas@.len()
                    &&& h.column < old(self).registry.schemas@[h.schema_index as int].max_series
                },
        ensures
            final(self).wf(),
            final(self).registry == old(self).registry,
            final(self).cursors == old(self).cursors,
            final(self).rings@.len() == old(self).rings@.len(),
            forall|s: int|
                0 <= s < old(self).rings@.len() ==> (#[trigger] final(self).rings@[s])@.len()
                    == old(self).rings@[s]@.len(),
            forall|s: int, t: int|
                #![trigger final(self).rings@[s]@[t]]
                0 <= s < old(self).rings@.len() && 0 <= t < old(self).rings@[s]@.len() && !(s
                    == schema_index && t == 0) ==> final(self).rings@[s]@[t] == old(
                    self,
                ).rings@[s]@[t],
            r is Ok <==> schema_batch_ok(entries@, schema_index as int, timestamp_ns),
            r is Ok ==> (final(self).rings@[schema_index as int]@[0])@ == tier0_after_batch(
                old(self).rings@[schema_index as int]@[0]@,
                entries@,
                schema_index as int,
                timestamp_ns,
            ),
            r is Err ==> (final(self).rings@[schema_index as int]@[0])@ == (old(
                self,
            ).rings@[schema_index as int]@[0])@,
    {
        let mut batch: Vec<(u32, u64)> = Vec::new();
        let n = entries.len();
        let mut i: usize = 0;
        proof {
            assert(entries@.take(0) =~= Seq::<(SeriesHandle, u64)>::empty());
        }
        while i < n
            invariant
                i <= n,
                n == entries@.len(),
                *self == *old(self),
                self.wf(),
                schema_index < self.registry.schemas@.len(),
                batch@ == schema_batch(entries@.take(i as int), schema_index as int),
                forall|k: int|
                    0 <= k < entries@.len() ==> {
                        let h = (#[trigger] entries@[k]).0;
                        &&& h.schema_index < self.registry.schemas@.len()
                        &&& h.column < self.registry.schemas@[h.schema_index as int].max_series
                    },
                forall|k: int|
                    0 <= k < batch@.len() ==> (#[trigger] batch@[k]).0
                        < self.registry.schemas@[schema_index as int].max_series,
            decreases n - i,
        {
            proof {
                assert(entries@.take(i as int + 1).drop_last() =~= entries@.take(i as int));
                assert(entries@.take(i as int + 1).last() == entries@[i as int]);
            }
            if entries[i].0.schema_index == schema_index {
                batch.push((entries[i].0.column, entries[i].1));
            }
            i = i + 1;
        }
        proof {
            assert(entries@.take(n as int) =~= entries@);
        }
        if batch.len() > 0 {
            let ghost rings_before = self.rings@;
            let schema_rings = &mut self.rings[schema_index];
            let ring = &mut schema_rings[0];
            proof {
                assert(ring@.wf() && ring@.slab.max_series == self.registry.schemas@[schema_index
                    as int].max_series);
            }
            let res = ring.write_batch(batch.as_slice(), timestamp_ns);
            proof {
                crate::consolidate::lemma_rings_frame(
                    self.registry.schemas@,
                    rings_before,
                    self.rings@,
                    schema_index as int,
                    0,
                );
                assert(forall|s: int|
                    0 <= s < rings_before.len() && s != schema_index
                        ==> #[trigger] self.rings@[s] == rings_before[s]);
            }
            match res {
                Ok(()) => {
                    proof {
                        assert(schema_batch_ok(entries@, schema_index as int, timestamp_ns));
                    }
                    Ok(())
                },
                Err(e) => {
                    proof {
                        assert(!schema_batch_ok(entries@, schema_index as int, timestamp_ns));
                    }
                    Err(e)
                },
            }
        } else {
            proof {
                assert(schema_batch(entries@, schema_index as int).len() == 0);
                assert(schema_batch_ok(entries@, schema_index as int, timestamp_ns));
            }
            Ok(())
        }
    }

    /// Records several series at one shared timestamp, writing each
    /// schema's batch in one ring operation.
    #[verifier::rlimit(100)]
    pub fn record_batch(&mut self, entries: &[(SeriesHandle, u64)], timestamp_ns: u64) -> (r:
        Result<(), RondoError>)
        requires
            old(self).wf(),
            forall|i: int|
                0 <= i < entries@.len() ==> {
                    let h = (#[trigger] entries@[i]).0;
                    &&& h.schema_index < old(self).registry.schemas@.len()
                    &&& h.column < old(self).registry.schemas@[h.schema_index as int].max_series
                },
        ensures
            final(self).wf(),
            final(self).registry == old(self).registry,
            final(self).cursors == old(self).cursors,
            final(self).rings@.len() == old(self).rings@.len(),
            forall|s: int|
                0 <= s < old(self).rings@.len() ==> (#[trigger] final(self).rings@[s])@.len()
                    == old(self).rings@[s]@.len(),
            // tiers other than the highest resolution are never touched
            forall|s: int, t: int|
                #![trigger final(self).rings@[s]@[t]]
                0 <= s < old(self).rings@.len() && 0 < t < old(self).rings@[s]@.len()
                    ==> final(self).rings@[s]@[t] == old(self).rings@[s]@[t],
            // success: every schema's share is writable
            r is Ok <==> forall|s: int|
                0 <= s < old(self).registry.schemas@.len() ==> schema_batch_ok(
                    entries@,
                    s,
                    timestamp_ns,
                ),
            // on success every schema's highest-resolution ring took its share
            r is Ok ==> forall|s: int|
                0 <= s < old(self).registry.schemas@.len()
                    ==> (#[trigger] final(self).rings@[s]@[0])@ == tier0_after_batch(
                    old(self).rings@[s]@[0]@,
                    entries@,
                    s,
                    timestamp_ns,
                ),
            // on failure: schemas before the first unwritable share stay
            // written, the rest are untouched
            r is Err ==> exists|fi: int|
                0 <= fi < old(self).registry.schemas@.len() && !schema_batch_ok(
                    entries@,
                    fi,
                    timestamp_ns,
                ) && (forall|s: int|
                    0 <= s < fi ==> schema_batch_ok(entries@, s, timestamp_ns)
                        && (#[trigger] final(self).rings@[s]@[0])@ == tier0_after_batch(
                        old(self).rings@[s]@[0]@,
                        entries@,
                        s,
                        timestamp_ns,
                    )) && (forall|s: int|
                    fi <= s < old(self).registry.schemas@.len()
                        ==> (#[trigger] final(self).rings@[s]@[0])@ == old(
                        self,
                    ).rings@[s]@[0]@),
    {
        let schema_count = self.registry.schemas.len();
        let mut schema_index: usize = 0;
        while schema_index < schema_count
            invariant
                schema_index <= schema_count,
                self.wf(),
                self.registry == old(self).registry,
                self.cursors == old(self).cursors,
                schema_count == self.registry.schemas@.len(),
                self.rings@.len() == old(self).rings@.len(),
                forall|s: int|
                    0 <= s < old(self).rings@.len() ==> (#[trigger] self.rings@[s])@.len() == old(
                        self,
                    ).rings@[s]@.len(),
                forall|s: int, t: int|
                    #![trigger self.rings@[s]@[t]]
                    0 <= s < old(self).rings@.len() && 0 < t < old(self).rings@[s]@.len()
                        ==> self.rings@[s]@[t] == old(self).rings@[s]@[t],
                forall|s: int|
                    0 <= s < schema_index ==> #[trigger] schema_batch_ok(entries@, s, timestamp_ns),
                forall|s: int|
                    0 <= s < schema_index ==> (#[trigger] self.rings@[s]@[0])@ == tier0_after_batch(
                        old(self).rings@[s]@[0]@,
                        entries@,
                        s,
                        timestamp_ns,
                    ),
                forall|s: int|
                    schema_index <= s < old(self).rings@.len()
                        ==> #[trigger] self.rings@[s]@[0] == old(self).rings@[s]@[0],
                forall|i: int|
                    0 <= i < entries@.len() ==> {
                        let h = (#[trigger] entries@[i]).0;
                        &&& h.schema_index < self.registry.schemas@.len()
                        &&& h.column < self.registry.schemas@[h.schema_index as int].max_series
                    },
            decreases schema_count - schema_index,
        {
            let ghost pre = *self;
            let res = self.record_schema_share(entries, schema_index, timestamp_ns);
            match res {
                Ok(()) => {
                    proof {
                        let fi = schema_index as int;
                        assert(schema_batch_ok(entries@, fi, timestamp_ns));
                        assert forall|s: int|
                            0 <= s < fi + 1 implies (#[trigger] self.rings@[s]@[0])@
                            == tier0_after_batch(
                            old(self).rings@[s]@[0]@,
                            entries@,
                            s,
                            timestamp_ns,
                        ) by {
                            if s < fi {
                                assert(self.rings@[s]@[0] == pre.rings@[s]@[0]);
                                assert((pre.rings@[s]@[0])@ == tier0_after_batch(
                                    old(self).rings@[s]@[0]@,
                                    entries@,
                                    s,
                                    timestamp_ns,
                                ));
                            } else {
                                assert((self.rings@[s]@[0])@ == tier0_after_batch(
                                    pre.rings@[s]@[0]@,
                                    entries@,
                                    s,
                                    timestamp_ns,
                                ));
                                assert(pre.rings@[s]@[0] == old(self).rings@[s]@[0]);
                            }
                        }
                        assert forall|s: int|
                            fi < s < old(self).rings@.len() implies #[trigger] self.rings@[s]@[0]
                            == old(self).rings@[s]@[0] by {
                            assert(self.rings@[s]@[0] == pre.rings@[s]@[0]);
                        }
                        assert forall|s: int, t: int|
                            0 <= s < old(self).rings@.len() && 0 < t < old(self).rings@[s]@.len()
                            implies #[trigger] self.rings@[s]@[t] == old(self).rings@[s]@[t] by {
                            assert(self.rings@[s]@[t] == pre.rings@[s]@[t]);
                        }
                        assert forall|s: int|
                            0 <= s < old(self).rings@.len() implies (
                        #[trigger] self.rings@[s])@.len() == old(self).rings@[s]@.len() by {
                            assert(self.rings@[s]@.len() == pre.rings@[s]@.len());
                        }
                    }
                },
                Err(e) => {
                    proof {
                        let fi = schema_index as int;
                        assert(!schema_batch_ok(entries@, fi, timestamp_ns));
                        assert forall|s: int| 0 <= s < fi implies schema_batch_ok(
                            entries@,
                            s,
                            timestamp_ns,
                        ) && (#[trigger] self.rings@[s]@[0])@ == tier0_after_batch(
                            old(self).rings@[s]@[0]@,
                            entries@,
                            s,
                            timestamp_ns,
                        ) by {
                            assert(self.rings@[s]@[0] == pre.rings@[s]@[0]);
                            assert((pre.rings@[s]@[0])@ == tier0_after_batch(
                                old(self).rings@[s]@[0]@,
                                entries@,
                                s,
                                timestamp_ns,
                            ));
                        }
                        assert forall|s: int|
                            fi <= s < old(self).rings@.len() implies (
                        #[trigger] self.rings@[s]@[0])@ == old(self).rings@[s]@[0]@ by {
                            if s == fi {
                                assert((self.rings@[fi]@[0])@ == (pre.rings@[fi]@[0])@);
                                assert(pre.rings@[fi]@[0] == old(self).rings@[fi]@[0]);
                            } else {
                                assert(self.rings@[s]@[0] == pre.rings@[s]@[0]);
                                assert(pre.rings@[s]@[0] == old(self).rings@[s]@[0]);
                            }
                        }
                        assert forall|s: int, t: int|
                            0 <= s < old(self).rings@.len() && 0 < t < old(self).rings@[s]@.len()
                            implies #[trigger] self.rings@[s]@[t] == old(self).rings@[s]@[t] by {
                            assert(self.rings@[s]@[t] == pre.rings@[s]@[t]);
                        }
                        assert forall|s: int|
                            0 <= s < old(self).rings@.len() implies (
                        #[trigger] self.rings@[s])@.len() == old(self).rings@[s]@.len() by {
                            assert(self.rings@[s]@.len() == pre.rings@[s]@.len());
                        }
                        assert(0 <= fi < old(self).registry.schemas@.len() && !schema_batch_ok(
                            entries@,
                            fi,
                            timestamp_ns,
                        ) && (forall|s: int|
                            0 <= s < fi ==> schema_batch_ok(entries@, s, timestamp_ns) && (
                            #[trigger] self.rings@[s]@[0])@ == tier0_after_batch(
                                old(self).rings@[s]@[0]@,
                                entries@,
                                s,
                                timestamp_ns,
                            )) && (forall|s: int|
                            fi <= s < old(self).registry.schemas@.len()
                                ==> (#[trigger] self.rings@[s]@[0])@ == old(
                                self,
                            ).rings@[s]@[0]@));
                    }
                    return Err(e);
                },
            }
            schema_index = schema_index + 1;
        }
        Ok(())
    }

    /// Queries one tier of a series over `[start_ns, end_ns)`.
    pub fn query(&self, handle: SeriesHandle, tier: usize, start_ns: u64, end_ns: u64) -> (r:
        Result<QueryResult, RondoError>)
        requires
            self.wf(),
            handle.schema_index < self.registry.schemas@.len(),
            handle.column < self.registry.schemas@[handle.schema_index as int].max_series,
        ensures
            r is Ok <==> (tier < self.registry.schemas@[handle.schema_index as int].tiers@.len()
                && start_ns < end_ns),
            tier >= self.registry.schemas@[handle.schema_index as int].tiers@.len() ==> (r matches
            Err(RondoError::Query(QueryError::InvalidTier { .. }))),
            tier < self.registry.schemas@[handle.schema_index as int].tiers@.len() && start_ns
                >= end_ns ==> (r matches Err(RondoError::Query(
                QueryError::InvalidTimeRange { .. },
            ))),
            r matches Ok(result) ==> {
                let rv = self.rings@[handle.schema_index as int]@[tier as int]@;
                &&& result.points() == read_points(rv, handle.column, start_ns, end_ns)
                &&& result.spec_tier_used() == tier
                &&& result.spec_available_range() == (rv.spec_oldest(), rv.spec_newest())
                &&& result.spec_requested_range() == (start_ns, end_ns)
                &&& result.spec_may_be_incomplete() == coverage_spec(
                    rv.spec_oldest(),
                    rv.spec_newest(),
                    start_ns,
                    end_ns,
                ).1
            },
    {
        let schema = &self.registry.schemas[handle.schema_index];
        if tier >= schema.tiers.len() {
            return Err(
                RondoError::Query(
                    QueryError::InvalidTier { tier, max_tiers: schema.tiers.len() },
                ),
            );
        }
        if start_ns >= end_ns {
            return Err(
                RondoError::Query(QueryError::InvalidTimeRange { start: start_ns, end: end_ns }),
            );
        }
        let ring = &self.rings[handle.schema_index][tier];
        let oldest = ring.oldest_timestamp();
        let newest = ring.newest_timestamp();
        let (_, may_be_incomplete) = analyze_coverage(oldest, newest, start_ns, end_ns);
        let points = match ring.read(handle.column, start_ns, end_ns) {
            Ok(p) => p,
            Err(e) => {
                return Err(e);
            },
        };
        Ok(QueryResult::new(points, tier, (oldest, newest), (start_ns, end_ns), may_be_incomplete))
    }

    /// Queries a series with automatic tier selection: the first tier
    /// whose data fully covers the range wins; otherwise the lowest
    /// resolution tier that has any data; an empty store answers from
    /// the highest resolution tier.
    pub fn query_auto(&self, handle: SeriesHandle, start_ns: u64, end_ns: u64) -> (r: Result<
        QueryResult,
        RondoError,
    >)
        requires
            self.wf(),
            handle.schema_index < self.registry.schemas@.len(),
            handle.column < self.registry.schemas@[handle.schema_index as int].max_series,
        ensures
            r is Ok <==> start_ns < end_ns,
            start_ns >= end_ns ==> (r matches Err(RondoError::Query(
                QueryError::InvalidTimeRange { .. },
            ))),
            r matches Ok(result) ==> {
                let tiers = self.rings@[handle.schema_index as int]@;
                let tier = auto_tier(tiers, start_ns, end_ns);
                let rv = tiers[tier]@;
                &&& 0 <= tier < self.registry.schemas@[handle.schema_index as int].tiers@.len()
                &&& result.spec_tier_used() as int == tier
                &&& result.points() == read_points(rv, handle.column, start_ns, end_ns)
                &&& result.spec_available_range() == (rv.spec_oldest(), rv.spec_newest())
                &&& result.spec_requested_range() == (start_ns, end_ns)
                &&& result.spec_may_be_incomplete() == coverage_spec(
                    rv.spec_oldest(),
                    rv.spec_newest(),
                    start_ns,
                    end_ns,
                ).1
            },
    {
        if start_ns >= end_ns {
            return Err(
                RondoError::Query(QueryError::InvalidTimeRange { start: start_ns, end: end_ns }),
            );
        }
        let ghost tiers = self.rings@[handle.schema_index as int]@;
        let tier_count = self.registry.schemas[handle.schema_index].tiers.len();
        let mut selected_tier: usize = 0;
        let mut tier_index: usize = 0;
        let mut found_full: bool = false;
        proof {
            assert(tiers.len() == tier_count);
        }
        while tier_index < tier_count && !found_full
            invariant
                tier_index <= tier_count,
                self.wf(),
                handle.schema_index < self.registry.schemas@.len(),
                tier_count == self.registry.schemas@[handle.schema_index as int].tiers@.len(),
                tier_count > 0,
                selected_tier < tier_count,
                tiers == self.rings@[handle.schema_index as int]@,
                tiers.len() == tier_count,
                found_full ==> auto_tier(tiers, start_ns, end_ns) == selected_tier as int,
                !found_full ==> auto_tier_from(
                    tiers,
                    start_ns,
                    end_ns,
                    tier_index as int,
                    selected_tier as int,
                ) == auto_tier(tiers, start_ns, end_ns),
            decreases tier_count - tier_index + if found_full {
                0int
            } else {
                1int
            },
        {
            let ring = &self.rings[handle.schema_index][tier_index];
            let oldest = ring.oldest_timestamp();
            let newest = ring.newest_timestamp();
            let (fully_covered, _) = analyze_coverage(oldest, newest, start_ns, end_ns);
            proof {
                assert(ring@ == tiers[tier_index as int]@);
                assert(fully_covered == tier_full(tiers[tier_index as int]@, start_ns, end_ns));
            }
            if fully_covered {
                proof {
                    assert(auto_tier_from(
                        tiers,
                        start_ns,
                        end_ns,
                        tier_index as int,
                        selected_tier as int,
                    ) == tier_index as int);
                }
                selected_tier = tier_index;
                found_full = true;
            } else {
                if oldest.is_some() && newest.is_some() {
                    proof {
                        assert(tier_has_data(tiers[tier_index as int]@));
                        assert(auto_tier_from(
                            tiers,
                            start_ns,
                            end_ns,
                            tier_index as int,
                            selected_tier as int,
                        ) == auto_tier_from(
                            tiers,
                            start_ns,
                            end_ns,
                            tier_index as int + 1,
                            tier_index as int,
                        ));
                    }
                    selected_tier = tier_index;
                } else {
                    proof {
                        assert(!tier_has_data(tiers[tier_index as int]@));
                        assert(auto_tier_from(
                            tiers,
                            start_ns,
                            end_ns,
                            tier_index as int,
                            selected_tier as int,
                        ) == auto_tier_from(
                            tiers,
                            start_ns,
                            end_ns,
                            tier_index as int + 1,
                            selected_tier as int,
                        ));
                    }
                }
                tier_index = tier_index + 1;
            }
        }
        proof {
            if !found_full {
                assert(auto_tier_from(
                    tiers,
                    start_ns,
                    end_ns,
                    tier_index as int,
                    selected_tier as int,
                ) == selected_tier as int);
            }
            assert(auto_tier(tiers, start_ns, end_ns) == selected_tier as int);
        }
        self.query(handle, selected_tier, start_ns, end_ns)
    }

    /// Runs one consolidation pass over every schema, with the caller's
    /// floating-point arithmetic for the `Average`, `Sum` and `Count`
    /// reducers.  Returns how many window values were written; a pass
    /// that writes nothing leaves every ring unchanged.
    pub fn consolidate<F: Fn(ConsolidationFn, Vec<u64>) -> u64>(&mut self, arith: &F) -> (r:
        Result<usize, RondoError>)
        requires
            old(self).wf(),
            arith_ok(*arith),
        ensures
            final(self).wf(),
            final(self).registry == old(self).registry,
            r matches Ok(n) && n == 0 ==> rings_unchanged(old(self).rings@, final(self).rings@),
            crate::consolidate::cursors_monotone(
                old(self).cursors.cursors@,
                final(self).cursors.cursors@,
            ),
            // a pass over settled pairs writes nothing and changes nothing:
            // running consolidation again without new data is a no-op
            crate::consolidate::all_pairs_settled(
                old(self).registry.schemas@,
                old(self).cursors.cursors@,
                old(self).rings@,
            ) ==> (r == Ok::<usize, RondoError>(0) && final(self).cursors == old(self).cursors
                && rings_unchanged(old(self).rings@, final(self).rings@)),
            // each pair's cursor is kept, freshly created at zero, or
            // advanced to its source tier's newest sample
            r is Ok ==> forall|s: usize, st: usize|
                s < old(self).registry.schemas@.len() && st as int + 1 < old(
                    self,
                ).registry.schemas@[s as int].tiers@.len() ==> {
                    let before = crate::consolidate::last_processed_of(
                        old(self).cursors.cursors@,
                        s,
                        st,
                        (st + 1) as usize,
                    );
                    let after = #[trigger] crate::consolidate::last_processed_of(
                        final(self).cursors.cursors@,
                        s,
                        st,
                        (st + 1) as usize,
                    );
                    let src = final(self).rings@[s as int]@[st as int]@;
                    ||| after == before
                    ||| (before is None && after == Some(0u64))
                    ||| (src.spec_newest() is Some && after == Some(src.spec_newest()->0))
                },
            // keys that name no adjacent pair never move
            forall|s: usize, a: usize, b: usize|
                !(b as int == a as int + 1 && s < old(self).registry.schemas@.len() && a as int
                    + 1 < old(self).registry.schemas@[s as int].tiers@.len())
                    ==> #[trigger] crate::consolidate::last_processed_of(
                    final(self).cursors.cursors@,
                    s,
                    a,
                    b,
                ) == crate::consolidate::last_processed_of(old(self).cursors.cursors@, s, a, b),
    {
        consolidate_pass(&self.registry.schemas, &mut self.cursors, &mut self.rings, arith)
    }

    /// Drains every registered series of one tier: per series, the
    /// batch holds exactly the points newer than the consumer's cursor
    /// as this call found it, and the cursor advances to each batch's
    /// last timestamp.  Persisting the cursor is the caller's step.
    #[verifier::rlimit(100)]
    #[verifier::spinoff_prover]
    pub fn drain(&self, tier: usize, cursor: &mut ExportCursor) -> (r: Result<
        Vec<SeriesExport>,
        RondoError,
    >)
        requires
            self.wf(),
            old(cursor).wf(),
        ensures
            final(cursor).wf(),
            r is Ok,
            r matches Ok(exports) ==> {
                // each batch is one registered series' full pending run
                &&& forall|k: int|
                    0 <= k < exports@.len() ==> {
                        let h = (#[trigger] exports@[k]).handle;
                        &&& exists|i: int|
                            0 <= i < self.registry.series@.len() && crate::series::handle_of(
                                #[trigger] self.registry.series@[i],
                            ) == h
                        &&& h.schema_index < self.rings@.len()
                        &&& tier < self.rings@[h.schema_index as int]@.len()
                        &&& exports@[k].points@.len() > 0
                        &&& exports@[k].points@ == crate::export::drain_spec(
                            self.rings@[h.schema_index as int]@[tier as int]@,
                            h.column,
                            crate::export::exported_of(
                                old(cursor).cursors@,
                                h.schema_index,
                                tier,
                                h.column,
                            ),
                        )
                        &&& crate::export::exported_of(
                            final(cursor).cursors@,
                            h.schema_index,
                            tier,
                            h.column,
                        ) == Some(exports@[k].points@.last().0)
                    }
                // every registered series whose schema has the tier is
                // drained: with pending points it is in the result, with
                // none its key keeps its value
                &&& forall|i: int|
                    0 <= i < self.registry.series@.len() ==> {
                        let h = crate::series::handle_of(#[trigger] self.registry.series@[i]);
                        tier < self.rings@[h.schema_index as int]@.len() ==> {
                            let d = crate::export::drain_spec(
                                self.rings@[h.schema_index as int]@[tier as int]@,
                                h.column,
                                crate::export::exported_of(
                                    old(cursor).cursors@,
                                    h.schema_index,
                                    tier,
                                    h.column,
                                ),
                            );
                            &&& (d.len() > 0 ==> crate::export::exported_of(
                                final(cursor).cursors@,
                                h.schema_index,
                                tier,
                                h.column,
                            ) == Some(d.last().0) && exists|k: int|
                                0 <= k < exports@.len() && (#[trigger] exports@[k]).handle == h)
                            &&& (d.len() == 0 ==> crate::export::exported_of(
                                final(cursor).cursors@,
                                h.schema_index,
                                tier,
                                h.column,
                            ) == crate::export::exported_of(
                                old(cursor).cursors@,
                                h.schema_index,
                                tier,
                                h.column,
                            ))
                        }
                    }
                // keys of other tiers keep their value
                &&& forall|s: usize, t: usize, c: u32|
                    t != tier ==> #[trigger] crate::export::exported_of(
                        final(cursor).cursors@,
                        s,
                        t,
                        c,
                    ) == crate::export::exported_of(old(cursor).cursors@, s, t, c)
            },
    {
        let handles = self.registry.handles();
        let mut all_exports: Vec<SeriesExport> = Vec::new();
        let schema_count = self.registry.schemas.len();
        let mut schema_index: usize = 0;
        while schema_index < schema_count
            invariant
                schema_index <= schema_count,
                self.wf(),
                cursor.wf(),
                schema_count == self.registry.schemas@.len(),
                handles@.len() == self.registry.series@.len(),
                forall|i: int|
                    0 <= i < handles@.len() ==> handles@[i] == crate::series::handle_of(
                        #[trigger] self.registry.series@[i],
                    ),
                // batches collected so far
                forall|k: int|
                    0 <= k < all_exports@.len() ==> {
                        let h = (#[trigger] all_exports@[k]).handle;
                        &&& exists|i: int|
                            0 <= i < self.registry.series@.len() && crate::series::handle_of(
                                #[trigger] self.registry.series@[i],
                            ) == h
                        &&& h.schema_index < schema_index
                        &&& h.schema_index < self.rings@.len()
                        &&& tier < self.rings@[h.schema_index as int]@.len()
                        &&& all_exports@[k].points@.len() > 0
                        &&& all_exports@[k].points@ == crate::export::drain_spec(
                            self.rings@[h.schema_index as int]@[tier as int]@,
                            h.column,
                            crate::export::exported_of(
                                old(cursor).cursors@,
                                h.schema_index,
                                tier,
                                h.column,
                            ),
                        )
                        &&& crate::export::exported_of(
                            cursor.cursors@,
                            h.schema_index,
                            tier,
                            h.column,
                        ) == Some(all_exports@[k].points@.last().0)
                    },
                // processed schemas are fully drained
                forall|i: int|
                    0 <= i < self.registry.series@.len() ==> {
                        let h = crate::series::handle_of(#[trigger] self.registry.series@[i]);
                        (h.schema_index < schema_index && tier < self.rings@[h.schema_index
                            as int]@.len()) ==> {
                            let d = crate::export::drain_spec(
                                self.rings@[h.schema_index as int]@[tier as int]@,
                                h.column,
                                crate::export::exported_of(
                                    old(cursor).cursors@,
                                    h.schema_index,
                                    tier,
                                    h.column,
                                ),
                            );
                            &&& (d.len() > 0 ==> crate::export::exported_of(
                                cursor.cursors@,
                                h.schema_index,
                                tier,
                                h.column,
                            ) == Some(d.last().0) && exists|k: int|
                                0 <= k < all_exports@.len() && (#[trigger] all_exports@[k]).handle
                                    == h)
                            &&& (d.len() == 0 ==> crate::export::exported_of(
                                cursor.cursors@,
                                h.schema_index,
                                tier,
                                h.column,
                            ) == crate::export::exported_of(
                                old(cursor).cursors@,
                                h.schema_index,
                                tier,
                                h.column,
                            ))
                        }
                    },
                // unprocessed schemas keep their keys at this tier
                forall|s2: usize, c: u32|
                    schema_index <= s2 ==> #[trigger] crate::export::exported_of(
                        cursor.cursors@,
                        s2,
                        tier,
                        c,
                    ) == crate::export::exported_of(old(cursor).cursors@, s2, tier, c),
                // keys of other tiers keep their value
                forall|s2: usize, t2: usize, c: u32|
                    t2 != tier ==> #[trigger] crate::export::exported_of(
                        cursor.cursors@,
                        s2,
                        t2,
                        c,
                    ) == crate::export::exported_of(old(cursor).cursors@, s2, t2, c),
            decreases schema_count - schema_index,
        {
            let tier_count = self.rings[schema_index].len();
            if tier < tier_count {
                proof {
                    assert forall|i: int|
                        0 <= i < handles@.len() && (#[trigger] handles@[i]).schema_index
                            == schema_index implies handles@[i].column < self.rings@[schema_index
                        as int]@[tier as int]@.slab.max_series by {
                        assert(handles@[i] == crate::series::handle_of(self.registry.series@[i]));
                    }
                    assert forall|i: int, j: int|
                        0 <= i < j < handles@.len() && (#[trigger] handles@[i]).schema_index
                            == schema_index && (#[trigger] handles@[j]).schema_index
                            == schema_index implies handles@[i].column != handles@[j].column by {
                        assert(handles@[i] == crate::series::handle_of(self.registry.series@[i]));
                        assert(handles@[j] == crate::series::handle_of(self.registry.series@[j]));
                        assert(self.registry.series@[i].series_id
                            != self.registry.series@[j].series_id);
                    }
                }
                let ghost cpre = cursor.cursors@;
                let ghost epre = all_exports@;
                let mut exports = match drain_tier(
                    &self.rings,
                    schema_index,
                    tier,
                    handles.as_slice(),
                    cursor,
                ) {
                    Ok(ex) => ex,
                    Err(e) => {
                        return Err(e);
                    },
                };
                let ghost tier_exports = exports@;
                all_exports.append(&mut exports);
                proof {
                    let ghost rv = self.rings@[schema_index as int]@[tier as int]@;
                    assert(all_exports@ == epre + tier_exports);
                    // batches collected so far, now with this schema's
                    assert forall|k: int| 0 <= k < all_exports@.len() implies {
                        let h = (#[trigger] all_exports@[k]).handle;
                        &&& exists|i: int|
                            0 <= i < self.registry.series@.len() && crate::series::handle_of(
                                #[trigger] self.registry.series@[i],
                            ) == h
                        &&& h.schema_index < schema_index + 1
                        &&& h.schema_index < self.rings@.len()
                        &&& tier < self.rings@[h.schema_index as int]@.len()
                        &&& all_exports@[k].points@.len() > 0
                        &&& all_exports@[k].points@ == crate::export::drain_spec(
                            self.rings@[h.schema_index as int]@[tier as int]@,
                            h.column,
                            crate::export::exported_of(
                                old(cursor).cursors@,
                                h.schema_index,
                                tier,
                                h.column,
                            ),
                        )
                        &&& crate::export::exported_of(
                            cursor.cursors@,
                            h.schema_index,
                            tier,
                            h.column,
                        ) == Some(all_exports@[k].points@.last().0)
                    } by {
                        if k < epre.len() {
                            assert(all_exports@[k] == epre[k]);
                            let h = epre[k].handle;
                            assert(h.schema_index != schema_index);
                            assert(crate::export::exported_of(
                                cursor.cursors@,
                                h.schema_index,
                                tier,
                                h.column,
                            ) == crate::export::exported_of(cpre, h.schema_index, tier, h.column));
                        } else {
                            assert(all_exports@[k] == tier_exports[k - epre.len()]);
                            let h = tier_exports[k - epre.len()].handle;
                            assert(h.schema_index == schema_index);
                            let p = choose|p: int|
                                0 <= p < handles@.len() && (#[trigger] handles@[p]) == h;
                            assert(handles@[p] == crate::series::handle_of(
                                self.registry.series@[p],
                            ));
                            assert(crate::export::exported_of(cpre, schema_index, tier, h.column)
                                == crate::export::exported_of(
                                old(cursor).cursors@,
                                schema_index,
                                tier,
                                h.column,
                            ));
                        }
                    }
                    // processed schemas, now including this one
                    assert forall|i: int| 0 <= i < self.registry.series@.len() implies {
                        let h = crate::series::handle_of(#[trigger] self.registry.series@[i]);
                        (h.schema_index < schema_index + 1 && tier < self.rings@[h.schema_index
                            as int]@.len()) ==> {
                            let d = crate::export::drain_spec(
                                self.rings@[h.schema_index as int]@[tier as int]@,
                                h.column,
                                crate::export::exported_of(
                                    old(cursor).cursors@,
                                    h.schema_index,
                                    tier,
                                    h.column,
                                ),
                            );
                            &&& (d.len() > 0 ==> crate::export::exported_of(
                                cursor.cursors@,
                                h.schema_index,
                                tier,
                                h.column,
                            ) == Some(d.last().0) && exists|k: int|
                                0 <= k < all_exports@.len() && (#[trigger] all_exports@[k]).handle
                                    == h)
                            &&& (d.len() == 0 ==> crate::export::exported_of(
                                cursor.cursors@,
                                h.schema_index,
                                tier,
                                h.column,
                            ) == crate::export::exported_of(
                                old(cursor).cursors@,
                                h.schema_index,
                                tier,
                                h.column,
                            ))
                        }
                    } by {
                        let h = crate::series::handle_of(self.registry.series@[i]);
                        if h.schema_index < schema_index && tier < self.rings@[h.schema_index
                            as int]@.len() {
                            assert(crate::export::exported_of(
                                cursor.cursors@,
                                h.schema_index,
                                tier,
                                h.column,
                            ) == crate::export::exported_of(cpre, h.schema_index, tier, h.column));
                            let d = crate::export::drain_spec(
                                self.rings@[h.schema_index as int]@[tier as int]@,
                                h.column,
                                crate::export::exported_of(
                                    old(cursor).cursors@,
                                    h.schema_index,
                                    tier,
                                    h.column,
                                ),
                            );
                            if d.len() > 0 {
                                let k0 = choose|k: int|
                                    0 <= k < epre.len() && (#[trigger] epre[k]).handle == h;
                                assert(all_exports@[k0] == epre[k0]);
                            }
                        } else if h.schema_index == schema_index && tier < self.rings@[
                        h.schema_index as int]@.len() {
                            assert(handles@[i] == h);
                            assert(crate::export::exported_of(cpre, schema_index, tier, h.column)
                                == crate::export::exported_of(
                                old(cursor).cursors@,
                                schema_index,
                                tier,
                                h.column,
                            ));
                            let d = crate::export::drain_spec(
                                rv,
                                h.column,
                                crate::export::exported_of(cpre, schema_index, tier, h.column),
                            );
                            if d.len() > 0 {
                                let k0 = choose|k: int|
                                    0 <= k < tier_exports.len() && (#[trigger] tier_exports[
                                k]).handle == h;
                                assert(all_exports@[epre.len() + k0] == tier_exports[k0]);
                            }
                        }
                    }
                    // unprocessed schemas and other tiers
                    assert forall|s2: usize, c: u32|
                        schema_index + 1 <= s2 implies #[trigger] crate::export::exported_of(
                        cursor.cursors@,
                        s2,
                        tier,
                        c,
                    ) == crate::export::exported_of(old(cursor).cursors@, s2, tier, c) by {
                        assert(crate::export::exported_of(cursor.cursors@, s2, tier, c)
                            == crate::export::exported_of(cpre, s2, tier, c));
                    }
                    assert forall|s2: usize, t2: usize, c: u32|
                        t2 != tier implies #[trigger] crate::export::exported_of(
                        cursor.cursors@,
                        s2,
                        t2,
                        c,
                    ) == crate::export::exported_of(old(cursor).cursors@, s2, t2, c) by {
                        assert(crate::export::exported_of(cursor.cursors@, s2, t2, c)
                            == crate::export::exported_of(cpre, s2, t2, c));
                    }
                }
            }
            schema_index = schema_index + 1;
        }
        Ok(all_exports)
    }

    /// The configured schemas.
    pub fn schemas(&self) -> (r: &Vec<SchemaConfig>)
        ensures
            r == &self.registry.schemas,
    {
        &self.registry.schemas
    }

    /// Total number of registered series.
    pub fn series_count(&self) -> (r: usize)
        ensures
            r == self.registry.series@.len(),
    {
        self.registry.total_series_count()
    }

    /// Number of tiers of one schema; an out-of-range index reads as
    /// zero.
    pub fn tier_count(&self, schema_index: usize) -> (r: usize)
        ensures
            r == if schema_index < self.rings@.len() {
                self.rings@[schema_index as int]@.len()
            } else {
                0
            },
    {
        if schema_index < self.rings.len() {
            self.rings[schema_index].len()
        } else {
            0
        }
    }

    /// Number of series registered under one schema.
    pub fn schema_series_count(&self, schema_index: usize) -> (r: u32)
        ensures
            r == if schema_index < self.registry.next_series_id@.len() {
                self.registry.next_series_id@[schema_index as int]
            } else {
                0u32
            },
    {
        self.registry.series_count(schema_index)
    }

    /// Handles of all registered series.
    pub fn handles(&self) -> (r: Vec<SeriesHandle>)
        ensures
            r@.len() == self.registry.series@.len(),
            forall|i: int|
                0 <= i < r@.len() ==> r@[i] == crate::series::handle_of(
                    #[trigger] self.registry.series@[i],
                ),
    {
        self.registry.handles()
    }

    /// The name and labels of a registered series.
    pub fn series_info(&self, handle: &SeriesHandle) -> (r: Option<&SeriesInfo>)
        ensures
            r is Some <==> exists|i: int|
                0 <= i < self.registry.series@.len() && crate::series::handle_of(
                    #[trigger] self.registry.series@[i],
                ) == *handle,
            r matches Some(info) ==> exists|i: int|
                0 <= i < self.registry.series@.len() && crate::series::handle_of(
                    #[trigger] self.registry.series@[i],
                ) == *handle && *info == self.registry.series@[i],
    {
        self.registry.series_info(handle)
    }

    /// The consolidation cursors, for persistence after a pass.
    pub fn consolidation_cursors(&self) -> (r: &ConsolidationCursors)
        ensures
            r == &self.cursors,
    {
        &self.cursors
    }

    /// Summary of one tier's state, or absent when the indices are out
    /// of range.
    pub fn tier_info(&self, schema_index: usize, tier_index: usize) -> (r: Option<TierInfo>)
        requires
            self.wf(),
        ensures
            r is Some <==> schema_index < self.rings@.len() && tier_index < self.rings@[
                schema_index as int]@.len(),
            r matches Some(info) ==> {
                let rv = self.rings@[schema_index as int]@[tier_index as int]@;
                &&& info.slot_count == rv.slab.slot_count
                &&& info.interval_ns == rv.slab.interval_ns
                &&& info.oldest_timestamp == rv.spec_oldest()
                &&& info.newest_timestamp == rv.spec_newest()
                &&& info.is_empty == rv.is_empty()
                &&& info.has_wrapped == rv.wrapped
            },
    {
        if schema_index >= self.rings.len() {
            return None;
        }
        if tier_index >= self.rings[schema_index].len() {
            return None;
        }
        let ring = &self.rings[schema_index][tier_index];
        proof {
            assert(self.rings@.len() == self.registry.schemas@.len());
            assert(self.rings@[schema_index as int]@.len() == self.registry.schemas@[schema_index
                as int].tiers@.len());
            assert(ring@.wf());
        }
        Some(
            TierInfo {
                slot_count: ring.slab().slot_count(),
                interval_ns: ring.slab().interval_ns(),
                oldest_timestamp: ring.oldest_timestamp(),
                newest_timestamp: ring.newest_timestamp(),
                is_empty: ring.is_empty(),
                has_wrapped: ring.has_wrapped(),
            },
        )
    }
}

} // verus!
