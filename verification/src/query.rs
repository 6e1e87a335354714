//! Query results and tier-coverage analysis.
//!
//! A query hands back the matching points together with metadata: which
//! tier served it, what range that tier actually holds, and whether the
//! answer may be missing data that has already been overwritten.

use vstd::prelude::*;

verus! {

/// Coverage of a requested range `[start, end)` by a tier that holds data
/// over `[oldest, newest]`: fully covered when the request lies inside,
/// and possibly incomplete when it starts before the oldest point.  A
/// request reaching past the newest point is normal for live queries and
/// does not count as incomplete.  An empty tier covers nothing.
pub open spec fn coverage_spec(
    oldest: Option<u64>,
    newest: Option<u64>,
    start_ns: u64,
    end_ns: u64,
) -> (bool, bool) {
    match (oldest, newest) {
        (Some(o), Some(n)) => (start_ns >= o && end_ns <= n, start_ns < o),
        _ => (false, true),
    }
}

/// Decides whether a tier's available range covers a requested range.
pub fn analyze_coverage(oldest: Option<u64>, newest: Option<u64>, start_ns: u64, end_ns: u64) -> (r:
    (bool, bool))
    ensures
        r == coverage_spec(oldest, newest, start_ns, end_ns),
{
    match (oldest, newest) {
        (Some(oldest_ts), Some(newest_ts)) => {
            let fully_covered = start_ns >= oldest_ts && end_ns <= newest_ts;
            let may_be_incomplete = start_ns < oldest_ts;
            (fully_covered, may_be_incomplete)
        },
        _ => (false, true),
    }
}

/// Result of one query: the points and the metadata describing how they
/// were obtained.
#[derive(Debug)]
pub struct QueryResult {
    /// The matching points, chronologically ordered, as
    /// (timestamp, value bits) pairs.
    points: Vec<(u64, u64)>,
    /// The tier index that served the query.
    tier_used: usize,
    /// Oldest and newest timestamp available in that tier.
    available_range: (Option<u64>, Option<u64>),
    /// The range the caller asked for.
    requested_range: (u64, u64),
    /// Whether data the caller asked for may already be gone.
    may_be_incomplete: bool,
}

impl QueryResult {
    /// Packs a result from its parts.
    pub fn new(
        points: Vec<(u64, u64)>,
        tier_used: usize,
        available_range: (Option<u64>, Option<u64>),
        requested_range: (u64, u64),
        may_be_incomplete: bool,
    ) -> (r: QueryResult)
        ensures
            r.points() == points@,
            r.spec_tier_used() == tier_used,
            r.spec_available_range() == available_range,
            r.spec_requested_range() == requested_range,
            r.spec_may_be_incomplete() == may_be_incomplete,
    {
        QueryResult { points, tier_used, available_range, requested_range, may_be_incomplete }
    }

    /// The points, as the contract sees them.
    pub closed spec fn points(&self) -> Seq<(u64, u64)> {
        self.points@
    }

    /// The tier index, as the contract sees it.
    pub closed spec fn spec_tier_used(&self) -> usize {
        self.tier_used
    }

    /// The available range, as the contract sees it.
    pub closed spec fn spec_available_range(&self) -> (Option<u64>, Option<u64>) {
        self.available_range
    }

    /// The requested range, as the contract sees it.
    pub closed spec fn spec_requested_range(&self) -> (u64, u64) {
        self.requested_range
    }

    /// The incompleteness flag, as the contract sees it.
    pub closed spec fn spec_may_be_incomplete(&self) -> bool {
        self.may_be_incomplete
    }

    /// The tier index that served the query.
    pub fn tier_used(&self) -> (r: usize)
        ensures
            r == self.spec_tier_used(),
    {
        self.tier_used
    }

    /// Oldest and newest timestamp available in the serving tier.
    pub fn available_range(&self) -> (r: (Option<u64>, Option<u64>))
        ensures
            r == self.spec_available_range(),
    {
        self.available_range
    }

    /// The range the caller asked for.
    pub fn requested_range(&self) -> (r: (u64, u64))
        ensures
            r == self.spec_requested_range(),
    {
        self.requested_range
    }

    /// Whether data the caller asked for may already be gone.
    pub fn may_be_incomplete(&self) -> (r: bool)
        ensures
            r == self.spec_may_be_incomplete(),
    {
        self.may_be_incomplete
    }

    /// Number of matching points.
    pub fn count(self) -> (r: usize)
        ensures
            r == self.points().len(),
    {
        self.points.len()
    }

    /// All matching points, in chronological order.
    pub fn collect_all(self) -> (r: Vec<(u64, u64)>)
        ensures
            r@ == self.points(),
    {
        self.points
    }
}

} // verus!
