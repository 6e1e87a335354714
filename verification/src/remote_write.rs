//! Data for the remote-write encoding.
//!
//! The engine prepares the plain data of a remote-write request: per
//! series the label set (name label first among its peers, all labels
//! sorted by name) and the samples with millisecond timestamps.  Turning
//! this data into the wire format and pushing it over the network is the
//! host program's work.

use vstd::multiset::Multiset;
use vstd::prelude::*;

use crate::error::RondoError;
use crate::export::SeriesExport;
use crate::schema::pairs_view;
use crate::series::handle_known;
use crate::store::Store;
use crate::text::{bytes_le, bytes_lt, lemma_bytes_le_trans, lemma_bytes_lt_asym, slice_bytes_lt,
    string_bytes};

verus! {

/// A key-value label pair of the wire format.
#[derive(Debug, Clone, PartialEq)]
pub struct Label {
    /// Label name.
    pub name: String,
    /// Label value.
    pub value: String,
}

/// One sample of the wire format: value bits and a millisecond
/// timestamp.
#[derive(Debug, Clone, Copy, PartialEq, Eq, Structural)]
pub struct Sample {
    /// The sample value, as the bit pattern of a double.
    pub value_bits: u64,
    /// Timestamp in milliseconds since the epoch.
    pub timestamp_ms: i64,
}

/// One series of the wire format: labels and samples.
#[derive(Debug)]
pub struct TimeSeriesData {
    /// Metric labels, sorted by name.
    pub labels: Vec<Label>,
    /// The series' samples.
    pub samples: Vec<Sample>,
}

/// A whole remote-write request.
#[derive(Debug)]
pub struct WriteRequestData {
    /// One entry per exported series.
    pub timeseries: Vec<TimeSeriesData>,
}

/// Configuration of a remote-write endpoint.  Durations are millisecond
/// counts.
#[derive(Debug, Clone, PartialEq)]
pub struct RemoteWriteConfig {
    /// Endpoint URL.
    pub endpoint: String,
    /// Request timeout in milliseconds.
    pub timeout_ms: u64,
    /// Maximum number of retries after a failed request.
    pub max_retries: u32,
    /// Initial backoff between retries in milliseconds.
    pub retry_backoff_ms: u64,
    /// Additional request headers.
    pub headers: Vec<(String, String)>,
}

impl RemoteWriteConfig {
    /// A configuration with the default timeout, retries and backoff.
    pub fn new(endpoint: String) -> (r: RemoteWriteConfig)
        ensures
            r.endpoint == endpoint,
            r.timeout_ms == 30_000u64,
            r.max_retries == 3u32,
            r.retry_backoff_ms == 100u64,
            r.headers@.len() == 0,
    {
        RemoteWriteConfig {
            endpoint,
            timeout_ms: 30_000,
            max_retries: 3,
            retry_backoff_ms: 100,
            headers: Vec::new(),
        }
    }

    /// Adds one request header.
    pub fn with_header(self, name: String, value: String) -> (r: RemoteWriteConfig)
        ensures
            r.headers@ == self.headers@.push((name, value)),
            r.endpoint == self.endpoint,
            r.timeout_ms == self.timeout_ms,
            r.max_retries == self.max_retries,
            r.retry_backoff_ms == self.retry_backoff_ms,
    {
        let mut c = self;
        c.headers.push((name, value));
        c
    }

    /// Sets the request timeout.
    pub fn with_timeout(self, timeout_ms: u64) -> (r: RemoteWriteConfig)
        ensures
            r == (RemoteWriteConfig { timeout_ms, ..self }),
    {
        let mut c = self;
        c.timeout_ms = timeout_ms;
        c
    }

    /// Sets the maximum number of retries.
    pub fn with_max_retries(self, max_retries: u32) -> (r: RemoteWriteConfig)
        ensures
            r == (RemoteWriteConfig { max_retries, ..self }),
    {
        let mut c = self;
        c.max_retries = max_retries;
        c
    }
}

/// The labels as pairs of character sequences.
pub open spec fn label_pairs(labels: Seq<Label>) -> Seq<(Seq<char>, Seq<char>)> {
    labels.map_values(|l: Label| (l.name@, l.value@))
}

/// The labels are sorted by the byte order of their names.
pub open spec fn labels_sorted(labels: Seq<Label>) -> bool {
    forall|i: int, j: int|
        #![trigger labels[i], labels[j]]
        0 <= i < j < labels.len() ==> bytes_le(
            string_bytes(labels[i].name@),
            string_bytes(labels[j].name@),
        )
}

/// The reserved name of the label that carries the metric name.
pub open spec fn metric_name_label() -> Seq<char> {
    "__name__"@
}

/// Builds the label set of one series: the metric name under the
/// reserved name label, then the series' own labels and the external
/// labels, everything sorted by label name in byte order.
pub fn build_labels(
    name: &str,
    labels: &[(String, String)],
    external_labels: &[(String, String)],
) -> (r: Vec<Label>)
    ensures
        labels_sorted(r@),
        label_pairs(r@).to_multiset() == (seq![(metric_name_label(), name@)] + pairs_view(labels@)
            + pairs_view(external_labels@)).to_multiset(),
{
    let mut raw: Vec<Label> = Vec::new();
    raw.push(Label { name: "__name__".to_owned(), value: name.to_owned() });
    let n = labels.len();
    let mut i: usize = 0;
    proof {
        assert(label_pairs(raw@) =~= seq![(metric_name_label(), name@)]);
        assert(seq![(metric_name_label(), name@)] + pairs_view(labels@.take(0)) =~= label_pairs(
            raw@,
        ));
    }
    while i < n
        invariant
            i <= n,
            n == labels@.len(),
            label_pairs(raw@) == seq![(metric_name_label(), name@)] + pairs_view(
                labels@.take(i as int),
            ),
        decreases n - i,
    {
        let ghost prev = raw@;
        raw.push(Label { name: labels[i].0.clone(), value: labels[i].1.clone() });
        proof {
            let pair = (labels@[i as int].0@, labels@[i as int].1@);
            assert(label_pairs(raw@) =~= label_pairs(prev).push(pair));
            assert(pairs_view(labels@.take(i as int + 1)) =~= pairs_view(
                labels@.take(i as int),
            ).push(pair));
            assert(label_pairs(raw@) =~= seq![(metric_name_label(), name@)] + pairs_view(
                labels@.take(i as int + 1),
            ));
        }
        i = i + 1;
    }
    proof {
        assert(labels@.take(n as int) =~= labels@);
    }
    let m = external_labels.len();
    let mut i: usize = 0;
    proof {
        assert(seq![(metric_name_label(), name@)] + pairs_view(labels@) + pairs_view(
            external_labels@.take(0),
        ) =~= label_pairs(raw@));
    }
    while i < m
        invariant
            i <= m,
            m == external_labels@.len(),
            label_pairs(raw@) == seq![(metric_name_label(), name@)] + pairs_view(labels@)
                + pairs_view(external_labels@.take(i as int)),
        decreases m - i,
    {
        let ghost prev = raw@;
        raw.push(
            Label { name: external_labels[i].0.clone(), value: external_labels[i].1.clone() },
        );
        proof {
            let pair = (external_labels@[i as int].0@, external_labels@[i as int].1@);
            assert(label_pairs(raw@) =~= label_pairs(prev).push(pair));
            assert(pairs_view(external_labels@.take(i as int + 1)) =~= pairs_view(
                external_labels@.take(i as int),
            ).push(pair));
            assert(label_pairs(raw@) =~= seq![(metric_name_label(), name@)] + pairs_view(labels@)
                + pairs_view(external_labels@.take(i as int + 1)));
        }
        i = i + 1;
    }
    proof {
        assert(external_labels@.take(m as int) =~= external_labels@);
    }
    sort_labels(raw)
}

/// Sorts labels by name in byte order, stably, by inserting each label
/// after its equals.
fn sort_labels(input: Vec<Label>) -> (r: Vec<Label>)
    ensures
        labels_sorted(r@),
        label_pairs(r@).to_multiset() == label_pairs(input@).to_multiset(),
{
    let mut out: Vec<Label> = Vec::new();
    let n = input.len();
    let mut i: usize = 0;
    proof {
        vstd::seq_lib::lemma_multiset_commutative(
            label_pairs(out@),
            label_pairs(input@.take(0)),
        );
        assert(label_pairs(out@) =~= Seq::empty());
        assert(label_pairs(input@.take(0)) =~= Seq::empty());
        assert(label_pairs(out@).to_multiset() =~= label_pairs(input@.take(0)).to_multiset());
    }
    while i < n
        invariant
            i <= n,
            n == input@.len(),
            labels_sorted(out@),
            label_pairs(out@).to_multiset() == label_pairs(input@.take(i as int)).to_multiset(),
        decreases n - i,
    {
        let item = Label { name: input[i].name.clone(), value: input[i].value.clone() };
        proof {
            assert(label_pairs(input@.take(i as int + 1)) =~= label_pairs(
                input@.take(i as int),
            ).push((input@[i as int].name@, input@[i as int].value@)));
            label_pairs(input@.take(i as int)).to_multiset_ensures();
        }
        insert_sorted(&mut out, item);
        i = i + 1;
    }
    proof {
        assert(input@.take(n as int) =~= input@);
    }
    out
}

/// Inserts one label into a sorted list, after every label whose name is
/// not above it.
fn insert_sorted(out: &mut Vec<Label>, item: Label)
    requires
        labels_sorted(old(out)@),
    ensures
        labels_sorted(final(out)@),
        label_pairs(final(out)@).to_multiset() == label_pairs(old(out)@).to_multiset().insert(
            (item.name@, item.value@),
        ),
{
    let p = find_insert_pos(out, &item);
    let ghost pre = out@;
    out.insert(p, item);
    proof {
        let post = out@;
        assert(post =~= pre.insert(p as int, item));
        lemma_labels_insert_sorted(pre, item, p as int);
        lemma_label_pairs_insert(pre, item, p as int);
        lemma_to_multiset_insert(label_pairs(pre), p as int, (item.name@, item.value@));
    }
}

/// First position whose label name lies strictly above the new one.
fn find_insert_pos(out: &Vec<Label>, item: &Label) -> (p: usize)
    ensures
        p <= out@.len(),
        forall|q: int|
            0 <= q < p ==> !bytes_lt(
                string_bytes(item.name@),
                string_bytes((#[trigger] out@[q]).name@),
            ),
        (p as int) < out@.len() ==> bytes_lt(
            string_bytes(item.name@),
            string_bytes(out@[p as int].name@),
        ),
{
    let n = out.len();
    let mut p: usize = 0;
    while p < n
        invariant
            p <= n,
            n == out@.len(),
            forall|q: int|
                0 <= q < p ==> !bytes_lt(
                    string_bytes(item.name@),
                    string_bytes((#[trigger] out@[q]).name@),
                ),
        decreases n - p,
    {
        if slice_bytes_lt(item.name.as_str().as_bytes(), out[p].name.as_str().as_bytes()) {
            return p;
        }
        p = p + 1;
    }
    n
}

/// Inserting at a position bounded below by the not-above scan and
/// bounded above by a strictly greater label keeps the list sorted.
proof fn lemma_labels_insert_sorted(pre: Seq<Label>, item: Label, p: int)
    requires
        0 <= p <= pre.len(),
        labels_sorted(pre),
        forall|q: int|
            0 <= q < p ==> !bytes_lt(
                string_bytes(item.name@),
                string_bytes((#[trigger] pre[q]).name@),
            ),
        p < pre.len() ==> bytes_lt(string_bytes(item.name@), string_bytes(pre[p].name@)),
    ensures
        labels_sorted(pre.insert(p, item)),
{
    let post = pre.insert(p, item);
    assert forall|i: int, j: int|
        0 <= i < j < post.len() implies bytes_le(
        string_bytes(post[i].name@),
        string_bytes(post[j].name@),
    ) by {
        if i < p && j < p {
            assert(post[i] == pre[i] && post[j] == pre[j]);
        } else if i < p && j == p {
            assert(post[i] == pre[i] && post[j] == item);
        } else if i < p && j > p {
            assert(post[i] == pre[i] && post[j] == pre[j - 1]);
        } else if i == p && j > p {
            assert(post[i] == item && post[j] == pre[j - 1]);
            assert(bytes_lt(string_bytes(item.name@), string_bytes(pre[p].name@)));
            if j - 1 > p {
                assert(bytes_le(string_bytes(pre[p].name@), string_bytes(pre[j - 1].name@)));
            }
            lemma_bytes_lt_asym(string_bytes(item.name@), string_bytes(pre[p].name@));
            if j - 1 > p {
                lemma_bytes_le_trans(
                    string_bytes(item.name@),
                    string_bytes(pre[p].name@),
                    string_bytes(pre[j - 1].name@),
                );
            }
        } else {
            assert(post[i] == pre[i - 1] && post[j] == pre[j - 1]);
        }
    }
}

/// Taking the pair view commutes with inserting a label.
proof fn lemma_label_pairs_insert(pre: Seq<Label>, item: Label, p: int)
    requires
        0 <= p <= pre.len(),
    ensures
        label_pairs(pre.insert(p, item)) == label_pairs(pre).insert(p, (item.name@, item.value@)),
{
    assert(label_pairs(pre.insert(p, item)) =~= label_pairs(pre).insert(
        p,
        (item.name@, item.value@),
    ));
}

/// Inserting anywhere adds exactly one occurrence to the multiset.
proof fn lemma_to_multiset_insert<A>(s: Seq<A>, p: int, x: A)
    requires
        0 <= p <= s.len(),
    ensures
        s.insert(p, x).to_multiset() == s.to_multiset().insert(x),
{
    let ins = s.insert(p, x);
    assert(ins =~= s.take(p) + (seq![x] + s.skip(p)));
    vstd::seq_lib::lemma_multiset_commutative(s.take(p), seq![x] + s.skip(p));
    vstd::seq_lib::lemma_multiset_commutative(seq![x], s.skip(p));
    vstd::seq_lib::lemma_multiset_commutative(s.take(p), s.skip(p));
    assert(s.take(p) + s.skip(p) =~= s);
    assert(seq![x] =~= Seq::<A>::empty().push(x));
    Seq::<A>::empty().to_multiset_ensures();
    assert(seq![x].to_multiset() =~= Multiset::<A>::empty().insert(x));
    assert(ins.to_multiset() =~= s.to_multiset().insert(x));
}

/// Converts export points to wire samples: the value bits unchanged and
/// the timestamp in milliseconds.
pub fn build_samples(points: &Vec<(u64, u64)>) -> (r: Vec<Sample>)
    ensures
        r@.len() == points@.len(),
        forall|k: int|
            0 <= k < points@.len() ==> {
                let p = #[trigger] points@[k];
                r@[k] == (Sample {
                    value_bits: p.1,
                    timestamp_ms: (p.0 / 1_000_000) as i64,
                })
            },
{
    let n = points.len();
    let mut out: Vec<Sample> = Vec::new();
    let mut k: usize = 0;
    while k < n
        invariant
            k <= n,
            n == points@.len(),
            out@.len() == k,
            forall|q: int|
                0 <= q < k ==> {
                    let p = #[trigger] points@[q];
                    out@[q] == (Sample {
                        value_bits: p.1,
                        timestamp_ms: (p.0 / 1_000_000) as i64,
                    })
                },
        decreases n - k,
    {
        let ts_ms = (points[k].0 / 1_000_000) as i64;
        out.push(Sample { value_bits: points[k].1, timestamp_ms: ts_ms });
        k = k + 1;
    }
    out
}

/// Assembles the request data for a batch of exports: one series entry
/// per export, with its labels and samples.  An export whose handle the
/// store does not know is rejected.
pub fn build_write_request(
    exports: &Vec<SeriesExport>,
    store: &Store,
    external_labels: &[(String, String)],
) -> (r: Result<WriteRequestData, RondoError>)
    ensures
        r is Ok <==> forall|k: int|
            0 <= k < exports@.len() ==> #[trigger] handle_known(
                store.registry.series@,
                exports@[k].handle,
            ),
        r matches Ok(req) ==> req.timeseries@.len() == exports@.len(),
        // each entry carries its export's samples and its registered
        // series' labels (plus the externals), sorted
        r matches Ok(req) ==> forall|k: int|
            0 <= k < exports@.len() ==> {
                let ts = #[trigger] req.timeseries@[k];
                &&& ts.samples@.len() == exports@[k].points@.len()
                &&& (forall|q: int|
                    0 <= q < exports@[k].points@.len() ==> {
                        let p = #[trigger] exports@[k].points@[q];
                        ts.samples@[q] == (Sample {
                            value_bits: p.1,
                            timestamp_ms: (p.0 / 1_000_000) as i64,
                        })
                    })
                &&& labels_sorted(ts.labels@)
                &&& exists|i: int|
                    0 <= i < store.registry.series@.len() && crate::series::handle_of(
                        #[trigger] store.registry.series@[i],
                    ) == exports@[k].handle && label_pairs(ts.labels@).to_multiset() == (seq![
                        (metric_name_label(), store.registry.series@[i].name@),
                    ] + pairs_view(store.registry.series@[i].labels@) + pairs_view(
                        external_labels@,
                    )).to_multiset()
            },
{
    let mut timeseries: Vec<TimeSeriesData> = Vec::new();
    let n = exports.len();
    let mut k: usize = 0;
    while k < n
        invariant
            k <= n,
            n == exports@.len(),
            timeseries@.len() == k,
            forall|q: int|
                0 <= q < k ==> #[trigger] handle_known(
                    store.registry.series@,
                    exports@[q].handle,
                ),
            forall|q: int|
                0 <= q < k ==> {
                    let ts = #[trigger] timeseries@[q];
                    &&& ts.samples@.len() == exports@[q].points@.len()
                    &&& (forall|w: int|
                        0 <= w < exports@[q].points@.len() ==> {
                            let p = #[trigger] exports@[q].points@[w];
                            ts.samples@[w] == (Sample {
                                value_bits: p.1,
                                timestamp_ms: (p.0 / 1_000_000) as i64,
                            })
                        })
                    &&& labels_sorted(ts.labels@)
                    &&& exists|i: int|
                        0 <= i < store.registry.series@.len() && crate::series::handle_of(
                            #[trigger] store.registry.series@[i],
                        ) == exports@[q].handle && label_pairs(ts.labels@).to_multiset() == (seq![
                            (metric_name_label(), store.registry.series@[i].name@),
                        ] + pairs_view(store.registry.series@[i].labels@) + pairs_view(
                            external_labels@,
                        )).to_multiset()
                },
        decreases n - k,
    {
        let found = store.series_info(&exports[k].handle);
        proof {
            assert(found is Some ==> handle_known(
                store.registry.series@,
                exports@[k as int].handle,
            ));
            assert(found is None ==> !handle_known(
                store.registry.series@,
                exports@[k as int].handle,
            ));
        }
        let info = match found {
            Some(info) => info,
            None => {
                return Err(
                    RondoError::Store(
                        crate::error::StoreError::CorruptedMetadata {
                            reason: "exported series is not registered".to_owned(),
                        },
                    ),
                );
            },
        };
        let labels = build_labels(
            info.name.as_str(),
            info.labels.as_slice(),
            external_labels,
        );
        let samples = build_samples(&exports[k].points);
        let ghost pre_ts = timeseries@;
        timeseries.push(TimeSeriesData { labels, samples });
        proof {
            let i0 = choose|i: int|
                0 <= i < store.registry.series@.len() && crate::series::handle_of(
                    #[trigger] store.registry.series@[i],
                ) == exports@[k as int].handle && *info == store.registry.series@[i];
            assert(timeseries@[k as int] == (TimeSeriesData { labels, samples }));
            assert forall|q: int| 0 <= q < k + 1 implies {
                let ts = #[trigger] timeseries@[q];
                &&& ts.samples@.len() == exports@[q].points@.len()
                &&& (forall|w: int|
                    0 <= w < exports@[q].points@.len() ==> {
                        let p = #[trigger] exports@[q].points@[w];
                        ts.samples@[w] == (Sample {
                            value_bits: p.1,
                            timestamp_ms: (p.0 / 1_000_000) as i64,
                        })
                    })
                &&& labels_sorted(ts.labels@)
                &&& exists|i: int|
                    0 <= i < store.registry.series@.len() && crate::series::handle_of(
                        #[trigger] store.registry.series@[i],
                    ) == exports@[q].handle && label_pairs(ts.labels@).to_multiset() == (seq![
                        (metric_name_label(), store.registry.series@[i].name@),
                    ] + pairs_view(store.registry.series@[i].labels@) + pairs_view(
                        external_labels@,
                    )).to_multiset()
            } by {
                if q < k {
                    assert(timeseries@[q] == pre_ts[q]);
                } else {
                    assert(0 <= i0 < store.registry.series@.len() && crate::series::handle_of(
                        store.registry.series@[i0],
                    ) == exports@[q].handle && label_pairs(timeseries@[q].labels@).to_multiset()
                        == (seq![(metric_name_label(), store.registry.series@[i0].name@)]
                        + pairs_view(store.registry.series@[i0].labels@) + pairs_view(
                        external_labels@,
                    )).to_multiset());
                }
            }
        }
        k = k + 1;
    }
    Ok(WriteRequestData { timeseries })
}

} // verus!
