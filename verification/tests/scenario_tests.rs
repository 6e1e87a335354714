//! End-to-end scenarios over the whole engine.

use rondo::consolidate::ConsolidationCursor;
use rondo::fbits::{finite_bits, inf_bits, lt_bits, nan_bits};
use rondo::schema::{ConsolidationFn, LabelMatcher, SchemaConfig, TierConfig};
use rondo::series::SeriesIndex;
use rondo::slab::Slab;
use rondo::slab_image::{slab_from_bytes, slab_to_bytes};
use rondo::store::Store;

const SEC: u64 = 1_000_000_000;

fn arith(f: ConsolidationFn, vals: Vec<u64>) -> u64 {
    let xs: Vec<f64> = vals.iter().map(|b| f64::from_bits(*b)).collect();
    match f {
        ConsolidationFn::Average => {
            let sum: f64 = xs.iter().sum();
            (sum / xs.len() as f64).to_bits()
        }
        ConsolidationFn::Sum => xs.iter().sum::<f64>().to_bits(),
        ConsolidationFn::Count => (xs.len() as f64).to_bits(),
        ConsolidationFn::Min => xs.iter().cloned().fold(f64::INFINITY, f64::min).to_bits(),
        ConsolidationFn::Max => xs.iter().cloned().fold(f64::NEG_INFINITY, f64::max).to_bits(),
        ConsolidationFn::Last => *vals.last().unwrap(),
    }
}

fn pairs(items: &[(&str, &str)]) -> Vec<(String, String)> {
    items.iter().map(|(k, v)| (k.to_string(), v.to_string())).collect()
}

fn single_tier_schema(retention_secs: u64) -> Vec<SchemaConfig> {
    vec![SchemaConfig {
        name: "metrics".to_string(),
        label_matcher: LabelMatcher::any(),
        tiers: vec![TierConfig {
            interval_ns: SEC,
            retention_ns: retention_secs * SEC,
            consolidation_fn: None,
        }],
        max_series: 10,
    }]
}

fn two_tier_schema(reducer: ConsolidationFn) -> Vec<SchemaConfig> {
    vec![SchemaConfig {
        name: "metrics".to_string(),
        label_matcher: LabelMatcher::any(),
        tiers: vec![
            TierConfig { interval_ns: SEC, retention_ns: 600 * SEC, consolidation_fn: None },
            TierConfig {
                interval_ns: 5 * SEC,
                retention_ns: 3000 * SEC,
                consolidation_fn: Some(reducer),
            },
        ],
        max_series: 10,
    }]
}

#[test]
fn test_round_trip_single_point() {
    let mut store = Store::create(single_tier_schema(600)).unwrap();
    let cpu = store.register("cpu", &pairs(&[("host", "a")])).unwrap();

    let ts = 1_700_000_000_000_000_000u64;
    store.record(cpu, 85.5f64.to_bits(), ts).unwrap();

    let data = store.query(cpu, 0, 1, u64::MAX).unwrap().collect_all();
    assert_eq!(data.len(), 1);
    assert_eq!(data[0].0, ts);
    assert_eq!(f64::from_bits(data[0].1), 85.5);
}

#[test]
fn test_wrap_around_retention() {
    let mut store = Store::create(single_tier_schema(10)).unwrap();
    let cpu = store.register("cpu", &pairs(&[("host", "a")])).unwrap();

    let base = 1_700_000_000_000_000_000u64;
    for i in 0u64..25 {
        store.record(cpu, (i as f64).to_bits(), base + i * SEC).unwrap();
    }

    let data = store.query(cpu, 0, 1, u64::MAX).unwrap().collect_all();
    assert!(data.len() <= 10);
    let last = data.last().unwrap();
    assert_eq!(last.0, base + 24 * SEC);
    assert_eq!(f64::from_bits(last.1), 24.0);
}

#[test]
fn test_nan_skipping_two_series() {
    let mut store = Store::create(single_tier_schema(600)).unwrap();
    let series_a = store.register("a", &pairs(&[("s", "a")])).unwrap();
    let series_b = store.register("b", &pairs(&[("s", "b")])).unwrap();

    store.record(series_a, 10.0f64.to_bits(), 1 * SEC).unwrap();
    store.record(series_a, 30.0f64.to_bits(), 3 * SEC).unwrap();
    store.record(series_a, 50.0f64.to_bits(), 5 * SEC).unwrap();
    store.record(series_b, 20.0f64.to_bits(), 2 * SEC).unwrap();
    store.record(series_b, 40.0f64.to_bits(), 4 * SEC).unwrap();

    let data = store.query(series_a, 0, 1, u64::MAX).unwrap().collect_all();
    assert_eq!(data.len(), 3);
    let values: Vec<f64> = data.iter().map(|(_, b)| f64::from_bits(*b)).collect();
    assert!(values.contains(&10.0) && values.contains(&30.0) && values.contains(&50.0));
}

#[test]
fn test_average_consolidation() {
    let mut store = Store::create(two_tier_schema(ConsolidationFn::Average)).unwrap();
    let handle = store.register("m", &[]).unwrap();

    // five samples inside one five-second destination window
    let base = 100 * SEC;
    let window_values: [f64; 5] = [10.0, 20.0, 30.0, 40.0, 50.0];
    for (i, v) in window_values.iter().enumerate() {
        store.record(handle, v.to_bits(), base + (i as u64) * SEC).unwrap();
    }
    store.consolidate(&arith).unwrap();

    let data = store.query(handle, 1, base, base + 5 * SEC).unwrap().collect_all();
    assert_eq!(data.len(), 1);
    assert_eq!(f64::from_bits(data[0].1), 30.0);
}

#[test]
fn test_min_max_sum_count_last_consolidation() {
    let cases: [(ConsolidationFn, [f64; 5], f64); 5] = [
        (ConsolidationFn::Min, [50.0, 10.0, 30.0, 20.0, 40.0], 10.0),
        (ConsolidationFn::Max, [50.0, 10.0, 30.0, 20.0, 40.0], 50.0),
        (ConsolidationFn::Sum, [50.0, 10.0, 30.0, 20.0, 40.0], 150.0),
        (ConsolidationFn::Count, [50.0, 10.0, 30.0, 20.0, 40.0], 5.0),
        (ConsolidationFn::Last, [10.0, 20.0, 30.0, 40.0, 50.0], 50.0),
    ];
    for (reducer, values, expected) in cases {
        let mut store = Store::create(two_tier_schema(reducer)).unwrap();
        let handle = store.register("m", &[]).unwrap();
        let base = 100 * SEC;
        for (i, v) in values.iter().enumerate() {
            store.record(handle, v.to_bits(), base + (i as u64) * SEC).unwrap();
        }
        store.consolidate(&arith).unwrap();
        let data = store.query(handle, 1, base, base + 5 * SEC).unwrap().collect_all();
        assert_eq!(data.len(), 1);
        assert_eq!(f64::from_bits(data[0].1), expected);
    }
}

#[test]
fn test_cascade_and_restart() {
    let schemas = vec![SchemaConfig {
        name: "cascade".to_string(),
        label_matcher: LabelMatcher::any(),
        tiers: vec![
            TierConfig { interval_ns: SEC, retention_ns: 300 * SEC, consolidation_fn: None },
            TierConfig {
                interval_ns: 10 * SEC,
                retention_ns: 3000 * SEC,
                consolidation_fn: Some(ConsolidationFn::Average),
            },
            TierConfig {
                interval_ns: 60 * SEC,
                retention_ns: 18000 * SEC,
                consolidation_fn: Some(ConsolidationFn::Max),
            },
        ],
        max_series: 10,
    }];
    let mut store = Store::create(schemas.clone()).unwrap();
    let handle = store.register("m", &[]).unwrap();

    // four batches of fifty one-second samples, consolidating in between
    let base = 1_700_000_000_000_000_000u64;
    for batch in 0u64..4 {
        for i in 0u64..50 {
            let t = base + (batch * 50 + i) * SEC;
            store.record(handle, ((batch * 50 + i) as f64).to_bits(), t).unwrap();
        }
        store.consolidate(&arith).unwrap();
    }

    let tier1 = store.query(handle, 1, 1, u64::MAX).unwrap().collect_all();
    let tier2 = store.query(handle, 2, 1, u64::MAX).unwrap().collect_all();
    assert!(!tier1.is_empty());
    assert!(!tier2.is_empty());

    // a rebuilt store with nothing new has nothing left to consolidate
    let meta = store.make_meta();
    let hashes: Vec<u64> = meta.schemas.iter().map(|r| r.hash).collect();
    let tier_counts: Vec<usize> = vec![3];
    let slabs: Vec<Vec<Slab>> = store
        .rings
        .iter()
        .map(|sr| sr.iter().map(|r| slab_from_bytes(&slab_to_bytes(r.slab())).unwrap()).collect())
        .collect();
    let (ids, cols) = store.registry.counters();
    let index = SeriesIndex {
        series: store.registry.series_list().clone(),
        next_series_id: ids.clone(),
        next_column: cols.clone(),
    };
    let cursors: Vec<ConsolidationCursor> = store.consolidation_cursors().iter_cursors().clone();
    let mut reopened =
        Store::open(schemas, meta.version, hashes, tier_counts, slabs, Some(index), cursors)
            .unwrap();
    let operations = reopened.consolidate(&arith).unwrap();
    assert_eq!(operations, 0);
}

#[test]
fn test_value_bit_classification() {
    assert!(nan_bits(f64::NAN.to_bits()));
    assert!(!nan_bits(1.5f64.to_bits()));
    assert!(inf_bits(f64::INFINITY.to_bits()));
    assert!(inf_bits(f64::NEG_INFINITY.to_bits()));
    assert!(!inf_bits(f64::NAN.to_bits()));
    assert!(finite_bits(0.0f64.to_bits()));
    assert!(finite_bits((-0.0f64).to_bits()));
    assert!(!finite_bits(f64::INFINITY.to_bits()));
}

#[test]
fn test_value_bit_order_matches_float_order() {
    let samples: [f64; 7] = [-1000.5, -2.0, -0.0, 0.0, 0.25, 3.0, 1e300];
    for a in samples {
        for b in samples {
            if a < b {
                assert!(lt_bits(a.to_bits(), b.to_bits()), "{} {}", a, b);
            }
            if lt_bits(a.to_bits(), b.to_bits()) {
                assert!(a < b || (a == 0.0 && b == 0.0));
            }
        }
    }
}
