//! Schema configuration: resolution tiers, label routing and stable identity.
//!
//! A schema groups series that match its label matcher, stores them across a
//! list of resolution tiers, and caps how many series it can hold.  The
//! schema's *stable hash* identifies its storage-affecting fields (matcher,
//! tiers, maximum series count — never the display name) so that a reopened
//! store can detect accidental reconfiguration.

use vstd::prelude::*;

use crate::error::{RondoError, SchemaError};
use crate::text::{fnv_bytes, fnv_u64, hash_str, hash_u64, string_bytes, FNV_OFFSET};

verus! {

/// Maximum number of slots allowed in any single tier, a guard against
/// misconfigured retention/interval pairs.
pub const MAX_SLOTS_PER_TIER: u64 = 1_000_000_000;

/// Aggregation function used when a tier is filled from the tier above it.
///
/// Every function ignores empty (NaN) inputs; a window whose inputs are all
/// empty produces no output at all.
#[derive(Debug, Clone, Copy, PartialEq, Eq, Structural, Hash)]
pub enum ConsolidationFn {
    /// Arithmetic mean of the window's values.
    Average,
    /// Smallest value in the window.
    Min,
    /// Largest value in the window.
    Max,
    /// Most recent value in the window.
    Last,
    /// Sum of the window's values.
    Sum,
    /// Number of values in the window.
    Count,
}

impl ConsolidationFn {
    /// Small integer tag, used when hashing a tier's configuration.
    pub open spec fn spec_code(self) -> u64 {
        match self {
            ConsolidationFn::Average => 1,
            ConsolidationFn::Min => 2,
            ConsolidationFn::Max => 3,
            ConsolidationFn::Last => 4,
            ConsolidationFn::Sum => 5,
            ConsolidationFn::Count => 6,
        }
    }

    /// Returns the function's integer tag.
    pub fn code(self) -> (r: u64)
        ensures
            r == self.spec_code(),
    {
        match self {
            ConsolidationFn::Average => 1,
            ConsolidationFn::Min => 2,
            ConsolidationFn::Max => 3,
            ConsolidationFn::Last => 4,
            ConsolidationFn::Sum => 5,
            ConsolidationFn::Count => 6,
        }
    }
}

/// Configuration of one resolution tier: how far apart samples sit and how
/// long they are kept.  Durations are nanosecond counts.
#[derive(Debug, Clone, Copy, PartialEq)]
pub struct TierConfig {
    /// Time between samples in this tier, in nanoseconds.
    pub interval_ns: u64,
    /// How long data is retained, in nanoseconds.
    pub retention_ns: u64,
    /// How this tier is filled from the previous one; the highest-resolution
    /// tier has none.
    pub consolidation_fn: Option<ConsolidationFn>,
}

/// A tier stands on its own when its interval is positive, the retention
/// covers at least one interval, and the slot count stays under the cap.
pub open spec fn tier_valid(t: TierConfig) -> bool {
    &&& t.interval_ns > 0
    &&& t.retention_ns > 0
    &&& t.retention_ns >= t.interval_ns
    &&& t.retention_ns / t.interval_ns <= MAX_SLOTS_PER_TIER
}

impl TierConfig {
    /// Number of ring slots this tier needs: retention divided by interval.
    pub open spec fn spec_slot_count(self) -> u64 {
        if self.interval_ns == 0 {
            0
        } else {
            self.retention_ns / self.interval_ns
        }
    }

    /// Builds a tier configuration, rejecting invalid combinations.
    pub fn new(
        interval_ns: u64,
        retention_ns: u64,
        consolidation_fn: Option<ConsolidationFn>,
    ) -> (r: Result<TierConfig, RondoError>)
        ensures
            r is Ok <==> tier_valid(
                TierConfig { interval_ns, retention_ns, consolidation_fn },
            ),
            r matches Ok(t) ==> t == (TierConfig { interval_ns, retention_ns, consolidation_fn }),
            r is Err ==> (r matches Err(RondoError::Schema(e)) && (e matches
            SchemaError::InvalidTierConfig { .. } || e matches SchemaError::TooManySlots { .. })),
    {
        let config = TierConfig { interval_ns, retention_ns, consolidation_fn };
        match config.validate() {
            Ok(()) => Ok(config),
            Err(e) => Err(e),
        }
    }

    /// Checks this tier's own invariants and reports the first violation.
    pub fn validate(&self) -> (r: Result<(), RondoError>)
        ensures
            r is Ok <==> tier_valid(*self),
            self.interval_ns == 0 ==> (r matches Err(RondoError::Schema(
                SchemaError::InvalidTierConfig { .. },
            ))),
            self.interval_ns != 0 && (self.retention_ns == 0 || self.retention_ns
                < self.interval_ns) ==> (r matches Err(RondoError::Schema(
                SchemaError::InvalidTierConfig { .. },
            ))),
            self.interval_ns != 0 && self.retention_ns >= self.interval_ns
                && self.spec_slot_count() > MAX_SLOTS_PER_TIER ==> (r matches Err(
                RondoError::Schema(SchemaError::TooManySlots { .. }),
            )),
    {
        if self.interval_ns == 0 {
            return Err(
                RondoError::Schema(
                    SchemaError::InvalidTierConfig { reason: "interval cannot be zero".to_owned() },
                ),
            );
        }
        if self.retention_ns == 0 {
            return Err(
                RondoError::Schema(
                    SchemaError::InvalidTierConfig {
                        reason: "retention cannot be zero".to_owned(),
                    },
                ),
            );
        }
        if self.retention_ns < self.interval_ns {
            return Err(
                RondoError::Schema(
                    SchemaError::InvalidTierConfig {
                        reason: "retention must be at least one interval".to_owned(),
                    },
                ),
            );
        }
        let slot_count = self.slot_count();
        if slot_count > MAX_SLOTS_PER_TIER {
            return Err(
                RondoError::Schema(
                    SchemaError::TooManySlots {
                        tier: 0,
                        slot_count,
                        max_slots: MAX_SLOTS_PER_TIER,
                    },
                ),
            );
        }
        Ok(())
    }

    /// Computes the number of slots in this tier's ring buffer.
    pub fn slot_count(&self) -> (r: u64)
        ensures
            r == self.spec_slot_count(),
    {
        if self.interval_ns == 0 {
            return 0;
        }
        self.retention_ns / self.interval_ns
    }
}

/// Label matcher: the set of label pairs a series must carry to be routed
/// to a schema.  An empty matcher accepts every series.
#[derive(Debug, Clone, PartialEq)]
pub struct LabelMatcher {
    /// Required pairs, in first-insertion order, one entry per key.
    labels: Vec<(String, String)>,
}

/// View of a label list as sequences of characters.
pub open spec fn pairs_view(labels: Seq<(String, String)>) -> Seq<(Seq<char>, Seq<char>)> {
    labels.map_values(|p: (String, String)| (p.0@, p.1@))
}

/// The value carried by the last occurrence of `key`, if any.  Series label
/// lists are not deduplicated, and a later pair overrides an earlier one.
pub open spec fn lookup_last(labels: Seq<(Seq<char>, Seq<char>)>, key: Seq<char>) -> Option<
    Seq<char>,
>
    decreases labels.len(),
{
    if labels.len() == 0 {
        None
    } else if labels.last().0 == key {
        Some(labels.last().1)
    } else {
        lookup_last(labels.drop_last(), key)
    }
}

/// A label list satisfies a matcher when every required pair is present
/// with exactly that value.
pub open spec fn matches_spec(
    required: Seq<(Seq<char>, Seq<char>)>,
    labels: Seq<(Seq<char>, Seq<char>)>,
) -> bool {
    forall|i: int|
        0 <= i < required.len() ==> lookup_last(labels, required[i].0) == Some(required[i].1)
}

/// Inserting one pair into a keyed list: an existing key has its value
/// replaced in place, a new key is appended.
pub open spec fn insert_pair(
    pairs: Seq<(Seq<char>, Seq<char>)>,
    key: Seq<char>,
    value: Seq<char>,
) -> Seq<(Seq<char>, Seq<char>)> {
    if exists|i: int| 0 <= i < pairs.len() && pairs[i].0 == key {
        let i = choose|i: int| 0 <= i < pairs.len() && pairs[i].0 == key;
        pairs.update(i, (key, value))
    } else {
        pairs.push((key, value))
    }
}

/// Folding a whole pair list into a keyed list, first to last.
pub open spec fn insert_pairs(pairs: Seq<(Seq<char>, Seq<char>)>) -> Seq<(Seq<char>, Seq<char>)>
    decreases pairs.len(),
{
    if pairs.len() == 0 {
        Seq::empty()
    } else {
        insert_pair(insert_pairs(pairs.drop_last()), pairs.last().0, pairs.last().1)
    }
}

/// No two entries of the list share a key.
pub open spec fn keys_unique(pairs: Seq<(Seq<char>, Seq<char>)>) -> bool {
    forall|i: int, j: int|
        #![trigger pairs[i], pairs[j]]
        0 <= i < j < pairs.len() ==> pairs[i].0 != pairs[j].0
}

impl LabelMatcher {
    /// The matcher's required pairs, as character sequences.
    pub closed spec fn pairs(&self) -> Seq<(Seq<char>, Seq<char>)> {
        pairs_view(self.labels@)
    }

    /// Every matcher holds at most one entry per key.
    pub open spec fn wf(&self) -> bool {
        keys_unique(self.pairs())
    }

    /// Builds a matcher from key-value pairs.  A key given twice keeps its
    /// first position and the value given last.
    pub fn new(labels: Vec<(String, String)>) -> (r: LabelMatcher)
        ensures
            r.wf(),
            r.pairs() == insert_pairs(pairs_view(labels@)),
    {
        let mut m = LabelMatcher { labels: Vec::new() };
        let n = labels.len();
        let mut idx: usize = 0;
        proof {
            assert(pairs_view(labels@).take(0) =~= Seq::empty());
            assert(insert_pairs(Seq::empty()) =~= Seq::empty());
            assert(pairs_view(m.labels@) =~= Seq::empty());
        }
        while idx < n
            invariant
                idx <= n,
                n == labels@.len(),
                m.wf(),
                m.pairs() == insert_pairs(pairs_view(labels@).take(idx as int)),
            decreases n - idx,
        {
            let pair = &labels[idx];
            let key = pair.0.clone();
            let value = pair.1.clone();
            proof {
                assert(pairs_view(labels@).take(idx as int + 1).drop_last() =~= pairs_view(
                    labels@,
                ).take(idx as int));
                assert(pairs_view(labels@).take(idx as int + 1).last() == (
                    labels@[idx as int].0@,
                    labels@[idx as int].1@,
                ));
            }
            m.insert(key, value);
            idx = idx + 1;
        }
        proof {
            assert(pairs_view(labels@).take(n as int) =~= pairs_view(labels@));
        }
        m
    }

    /// Inserts one pair, replacing the value of an existing key in place.
    fn insert(&mut self, key: String, value: String)
        requires
            old(self).wf(),
        ensures
            final(self).wf(),
            final(self).pairs() == insert_pair(old(self).pairs(), key@, value@),
    {
        let n = self.labels.len();
        let mut i: usize = 0;
        while i < n
            invariant
                i <= n,
                n == self.labels@.len(),
                *self == *old(self),
                old(self).wf(),
                forall|j: int| 0 <= j < i ==> self.pairs()[j].0 != key@,
            decreases n - i,
        {
            proof {
                assert(self.pairs()[i as int] == (
                    self.labels@[i as int].0@,
                    self.labels@[i as int].1@,
                ));
            }
            if self.labels[i].0 == key {
                proof {
                    assert(old(self).pairs()[i as int] == (
                        old(self).labels@[i as int].0@,
                        old(self).labels@[i as int].1@,
                    ));
                }
                self.labels[i] = (key, value);
                proof {
                    assert(self.pairs() =~= old(self).pairs().update(i as int, (key@, value@)));
                    assert((i as int) < old(self).pairs().len() && old(self).pairs()[i
                        as int].0 == key@);
                    let ghost w = choose|w: int|
                        0 <= w < old(self).pairs().len() && old(self).pairs()[w].0 == key@;
                    assert(w == i as int);
                    assert forall|m: int| 0 <= m < self.pairs().len() implies self.pairs()[m].0
                        == old(self).pairs()[m].0 by {}
                    assert(keys_unique(self.pairs()));
                }
                return ;
            }
            i = i + 1;
        }
        self.labels.push((key, value));
        proof {
            assert(self.pairs() =~= old(self).pairs().push((key@, value@)));
            assert(!(exists|w: int|
                0 <= w < old(self).pairs().len() && old(self).pairs()[w].0 == key@));
            assert(keys_unique(self.pairs()));
        }
    }

    /// A matcher with no requirements, accepting every series.
    pub fn any() -> (r: LabelMatcher)
        ensures
            r.wf(),
            r.pairs() == Seq::<(Seq<char>, Seq<char>)>::empty(),
    {
        let m = LabelMatcher { labels: Vec::new() };
        proof {
            assert(m.pairs() =~= Seq::<(Seq<char>, Seq<char>)>::empty());
        }
        m
    }

    /// Tests whether a series' label list satisfies this matcher.
    pub fn matches(&self, labels: &[(String, String)]) -> (r: bool)
        ensures
            r == matches_spec(self.pairs(), pairs_view(labels@)),
    {
        let n = self.labels.len();
        let mut i: usize = 0;
        while i < n
            invariant
                i <= n,
                n == self.labels@.len(),
                forall|j: int|
                    0 <= j < i ==> lookup_last(pairs_view(labels@), self.pairs()[j].0) == Some(
                        self.pairs()[j].1,
                    ),
            decreases n - i,
        {
            proof {
                assert(self.pairs()[i as int] == (
                    self.labels@[i as int].0@,
                    self.labels@[i as int].1@,
                ));
            }
            let found = lookup_value(labels, &self.labels[i].0);
            match found {
                Some(v) => {
                    if !(*v == self.labels[i].1) {
                        proof {
                            assert(lookup_last(pairs_view(labels@), self.pairs()[i as int].0)
                                != Some(self.pairs()[i as int].1));
                        }
                        return false;
                    }
                },
                None => {
                    proof {
                        assert(lookup_last(pairs_view(labels@), self.pairs()[i as int].0) is None);
                    }
                    return false;
                },
            }
            i = i + 1;
        }
        true
    }

    /// The required pairs, in first-insertion order.
    pub fn labels(&self) -> (r: &Vec<(String, String)>)
        ensures
            pairs_view(r@) == self.pairs(),
    {
        &self.labels
    }

    /// Number of required pairs.
    pub fn label_count(&self) -> (r: usize)
        ensures
            r == self.pairs().len(),
    {
        self.labels.len()
    }

    /// True when this matcher accepts every series.
    pub fn is_any(&self) -> (r: bool)
        ensures
            r == (self.pairs().len() == 0),
    {
        self.labels.len() == 0
    }

    /// Order-independent hash of the required pairs.
    pub open spec fn spec_hash(&self) -> u64 {
        xor_pairs_hash(self.pairs())
    }

    /// A fresh matcher with the same required pairs.
    pub fn duplicate(&self) -> (r: LabelMatcher)
        ensures
            r.pairs() == self.pairs(),
            self.wf() ==> r.wf(),
    {
        let n = self.labels.len();
        let mut labels: Vec<(String, String)> = Vec::new();
        let mut i: usize = 0;
        while i < n
            invariant
                i <= n,
                n == self.labels@.len(),
                labels@.len() == i,
                forall|j: int| 0 <= j < i ==> labels@[j] == self.labels@[j],
            decreases n - i,
        {
            labels.push((self.labels[i].0.clone(), self.labels[i].1.clone()));
            i = i + 1;
        }
        let r = LabelMatcher { labels };
        proof {
            assert(r.pairs() =~= self.pairs());
        }
        r
    }
}

/// Looks up the value of the last pair carrying `key`.
fn lookup_value<'a>(labels: &'a [(String, String)], key: &String) -> (r: Option<&'a String>)
    ensures
        match r {
            Some(v) => lookup_last(pairs_view(labels@), key@) == Some(v@),
            None => lookup_last(pairs_view(labels@), key@) is None,
        },
{
    let n = labels.len();
    let mut i: usize = n;
    proof {
        assert(pairs_view(labels@).take(n as int) =~= pairs_view(labels@));
    }
    while i > 0
        invariant
            i <= n,
            n == labels@.len(),
            lookup_last(pairs_view(labels@), key@) == lookup_last(
                pairs_view(labels@).take(i as int),
                key@,
            ),
        decreases i,
    {
        i = i - 1;
        proof {
            assert(pairs_view(labels@).take(i as int + 1).last() == (
                labels@[i as int].0@,
                labels@[i as int].1@,
            ));
            assert(pairs_view(labels@).take(i as int + 1).drop_last() =~= pairs_view(
                labels@,
            ).take(i as int));
        }
        if labels[i].0 == *key {
            return Some(&labels[i].1);
        }
    }
    proof {
        assert(pairs_view(labels@).take(0) =~= Seq::empty());
    }
    None
}

/// Hash of one required pair: FNV-1a over both strings, each preceded by
/// its length so that distinct pairs keep distinct inputs.
pub open spec fn pair_hash(key: Seq<char>, value: Seq<char>) -> u64 {
    fnv_bytes(
        fnv_u64(
            fnv_bytes(fnv_u64(FNV_OFFSET, string_bytes(key).len() as u64), string_bytes(key)),
            string_bytes(value).len() as u64,
        ),
        string_bytes(value),
    )
}

/// Combines the pair hashes with exclusive or, so the result does not
/// depend on the order the pairs were given in.
pub open spec fn xor_pairs_hash(pairs: Seq<(Seq<char>, Seq<char>)>) -> u64
    decreases pairs.len(),
{
    if pairs.len() == 0 {
        0
    } else {
        xor_pairs_hash(pairs.drop_last()) ^ pair_hash(pairs.last().0, pairs.last().1)
    }
}

/// Configuration of one schema: display name, routing matcher, tier list
/// and series capacity.
#[derive(Debug, Clone)]
pub struct SchemaConfig {
    /// Human-readable name; never part of the stable hash.
    pub name: String,
    /// Matcher deciding which series are stored under this schema.
    pub label_matcher: LabelMatcher,
    /// Resolution tiers, highest resolution first.
    pub tiers: Vec<TierConfig>,
    /// Maximum number of series this schema can hold.
    pub max_series: u32,
}

/// A schema is valid when it has at least one tier, capacity for at least
/// one series, every tier is valid on its own, intervals strictly increase
/// with the tier index, the first tier declares no consolidation function,
/// and every later tier declares one.
pub open spec fn schema_valid(s: SchemaConfig) -> bool {
    &&& s.tiers@.len() > 0
    &&& s.max_series > 0
    &&& forall|i: int| 0 <= i < s.tiers@.len() ==> tier_valid(#[trigger] s.tiers@[i])
    &&& forall|i: int|
        0 <= i && i + 1 < s.tiers@.len() ==> (#[trigger] s.tiers@[i]).interval_ns < s.tiers@[i
            + 1].interval_ns
    &&& s.tiers@[0].consolidation_fn is None
    &&& forall|i: int| 1 <= i < s.tiers@.len() ==> (#[trigger] s.tiers@[i]).consolidation_fn is Some
}

/// Stable hash of the storage-affecting fields: matcher pairs, tier list
/// and series capacity.  The schema name does not enter.
pub open spec fn spec_stable_hash(
    matcher_pairs: Seq<(Seq<char>, Seq<char>)>,
    tiers: Seq<TierConfig>,
    max_series: u32,
) -> u64 {
    fnv_u64(fold_tier_hash(fnv_u64(FNV_OFFSET, xor_pairs_hash(matcher_pairs)), tiers), max_series
        as u64)
}

/// Folds every tier's fields into the hash, in tier order.
pub open spec fn fold_tier_hash(h: u64, tiers: Seq<TierConfig>) -> u64
    decreases tiers.len(),
{
    if tiers.len() == 0 {
        h
    } else {
        fnv_u64(
            fnv_u64(
                fnv_u64(fold_tier_hash(h, tiers.drop_last()), tiers.last().interval_ns),
                tiers.last().retention_ns,
            ),
            match tiers.last().consolidation_fn {
                None => 0,
                Some(f) => f.spec_code(),
            },
        )
    }
}

impl SchemaConfig {
    /// Builds a schema configuration, rejecting invalid combinations.
    pub fn new(
        name: String,
        label_matcher: LabelMatcher,
        tiers: Vec<TierConfig>,
        max_series: u32,
    ) -> (r: Result<SchemaConfig, RondoError>)
        ensures
            r matches Ok(s) ==> schema_valid(s) && s.name == name && s.label_matcher
                == label_matcher && s.tiers == tiers && s.max_series == max_series,
            r is Err ==> !schema_valid(
                SchemaConfig { name, label_matcher, tiers, max_series },
            ),
    {
        let config = SchemaConfig { name, label_matcher, tiers, max_series };
        match config.validate() {
            Ok(()) => Ok(config),
            Err(e) => Err(e),
        }
    }

    /// Checks the whole schema and reports the first violation found.
    #[verifier::rlimit(60)]
    pub fn validate(&self) -> (r: Result<(), RondoError>)
        ensures
            r is Ok <==> schema_valid(*self),
            r matches Err(e) ==> e matches RondoError::Schema(_),
            self.tiers@.len() == 0 ==> (r matches Err(RondoError::Schema(SchemaError::NoTiers))),
            self.tiers@.len() > 0 && self.max_series == 0 ==> (r matches Err(
                RondoError::Schema(SchemaError::InvalidMaxSeries { count: 0 }),
            )),
    {
        if self.tiers.len() == 0 {
            return Err(RondoError::Schema(SchemaError::NoTiers));
        }
        if self.max_series == 0 {
            return Err(
                RondoError::Schema(SchemaError::InvalidMaxSeries { count: self.max_series }),
            );
        }
        let n = self.tiers.len();
        let mut i: usize = 0;
        while i < n
            invariant
                i <= n,
                n == self.tiers@.len(),
                n > 0,
                self.max_series != 0,
                forall|j: int| 0 <= j < i ==> tier_valid(#[trigger] self.tiers@[j]),
            decreases n - i,
        {
            match self.tiers[i].validate() {
                Ok(()) => {},
                Err(e) => {
                    return Err(e);
                },
            }
            i = i + 1;
        }
        let mut i: usize = 0;
        while i < n - 1
            invariant
                i <= n,
                n == self.tiers@.len(),
                n > 0,
                self.max_series != 0,
                forall|j: int| 0 <= j < n ==> tier_valid(#[trigger] self.tiers@[j]),
                forall|j: int|
                    0 <= j < i ==> (#[trigger] self.tiers@[j]).interval_ns < self.tiers@[j
                        + 1].interval_ns,
            decreases n - i,
        {
            if self.tiers[i].interval_ns >= self.tiers[i + 1].interval_ns {
                return Err(RondoError::Schema(SchemaError::TiersNotOrdered));
            }
            i = i + 1;
        }
        if self.tiers[0].consolidation_fn.is_some() {
            return Err(RondoError::Schema(SchemaError::ConsolidationOnHighestTier));
        }
        let mut i: usize = 1;
        while i < n
            invariant
                1 <= i <= n,
                n == self.tiers@.len(),
                n > 0,
                self.max_series != 0,
                forall|j: int| 0 <= j < n ==> tier_valid(#[trigger] self.tiers@[j]),
                forall|j: int|
                    0 <= j && j + 1 < n ==> (#[trigger] self.tiers@[j]).interval_ns
                        < self.tiers@[j + 1].interval_ns,
                self.tiers@[0].consolidation_fn is None,
                forall|j: int| 1 <= j < i ==> (#[trigger] self.tiers@[j]).consolidation_fn is Some,
            decreases n - i,
        {
            if self.tiers[i].consolidation_fn.is_none() {
                return Err(
                    RondoError::Schema(
                        SchemaError::InvalidTierConfig {
                            reason: "every tier after the first must declare a consolidation function".to_owned(),
                        },
                    ),
                );
            }
            i = i + 1;
        }
        Ok(())
    }

    /// Computes the schema's stable hash.  Renaming the schema leaves the
    /// result unchanged; any change to the matcher, a tier or the capacity
    /// changes the hashed input.
    pub fn stable_hash(&self) -> (r: u64)
        ensures
            r == spec_stable_hash(self.label_matcher.pairs(), self.tiers@, self.max_series),
    {
        let mut h = hash_u64(FNV_OFFSET, self.label_matcher.hash_value());
        let n = self.tiers.len();
        let mut i: usize = 0;
        proof {
            assert(self.tiers@.take(0) =~= Seq::empty());
        }
        while i < n
            invariant
                i <= n,
                n == self.tiers@.len(),
                h == fold_tier_hash(
                    fnv_u64(FNV_OFFSET, xor_pairs_hash(self.label_matcher.pairs())),
                    self.tiers@.take(i as int),
                ),
            decreases n - i,
        {
            proof {
                assert(self.tiers@.take(i as int + 1).drop_last() =~= self.tiers@.take(i as int));
                assert(self.tiers@.take(i as int + 1).last() == self.tiers@[i as int]);
            }
            h = hash_u64(h, self.tiers[i].interval_ns);
            h = hash_u64(h, self.tiers[i].retention_ns);
            let code: u64 = match self.tiers[i].consolidation_fn {
                None => 0,
                Some(f) => f.code(),
            };
            h = hash_u64(h, code);
            i = i + 1;
        }
        proof {
            assert(self.tiers@.take(n as int) =~= self.tiers@);
        }
        hash_u64(h, self.max_series as u64)
    }

    /// Tests whether a series' labels are routed to this schema.
    pub fn matches_labels(&self, labels: &[(String, String)]) -> (r: bool)
        ensures
            r == matches_spec(self.label_matcher.pairs(), pairs_view(labels@)),
    {
        self.label_matcher.matches(labels)
    }
}

impl LabelMatcher {
    /// Computes the matcher's order-independent hash.
    pub fn hash_value(&self) -> (r: u64)
        ensures
            r == self.spec_hash(),
    {
        let n = self.labels.len();
        let mut acc: u64 = 0;
        let mut i: usize = 0;
        proof {
            assert(self.pairs().take(0) =~= Seq::empty());
        }
        while i < n
            invariant
                i <= n,
                n == self.labels@.len(),
                acc == xor_pairs_hash(self.pairs().take(i as int)),
            decreases n - i,
        {
            proof {
                assert(self.pairs().take(i as int + 1).drop_last() =~= self.pairs().take(i as int));
                assert(self.pairs().take(i as int + 1).last() == (
                    self.labels@[i as int].0@,
                    self.labels@[i as int].1@,
                ));
            }
            let klen = self.labels[i].0.as_str().as_bytes().len() as u64;
            let vlen = self.labels[i].1.as_str().as_bytes().len() as u64;
            let mut ph = hash_u64(FNV_OFFSET, klen);
            ph = hash_str(ph, &self.labels[i].0);
            ph = hash_u64(ph, vlen);
            ph = hash_str(ph, &self.labels[i].1);
            acc = acc ^ ph;
            i = i + 1;
        }
        proof {
            assert(self.pairs().take(n as int) =~= self.pairs());
        }
        acc
    }
}

/// The stable hash never reads the schema name: two schemas that agree on
/// matcher pairs, tier list and capacity hash alike, whatever their names.
pub proof fn lemma_stable_hash_ignores_name(a: SchemaConfig, b: SchemaConfig)
    requires
        a.label_matcher.pairs() == b.label_matcher.pairs(),
        a.tiers@ == b.tiers@,
        a.max_series == b.max_series,
    ensures
        spec_stable_hash(a.label_matcher.pairs(), a.tiers@, a.max_series) == spec_stable_hash(
            b.label_matcher.pairs(),
            b.tiers@,
            b.max_series,
        ),
{
}

} // verus!
