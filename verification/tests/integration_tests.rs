//! End-to-end tests over the whole store: lifecycle, wrap-around,
//! gaps, schema routing, tier selection and consolidation results.

use rondo::consolidate::ConsolidationCursor;
use rondo::error::QueryError;
use rondo::schema::{ConsolidationFn, LabelMatcher, SchemaConfig, TierConfig};
use rondo::series::SeriesIndex;
use rondo::slab::Slab;
use rondo::slab_image::{slab_from_bytes, slab_to_bytes};
use rondo::store::Store;

const SEC: u64 = 1_000_000_000;
const BASE_TIME: u64 = 1_000_000_000_000_000_000;

fn arith(f: ConsolidationFn, vals: Vec<u64>) -> u64 {
    let xs: Vec<f64> = vals.iter().map(|b| f64::from_bits(*b)).collect();
    match f {
        ConsolidationFn::Average => {
            let sum: f64 = xs.iter().sum();
            (sum / xs.len() as f64).to_bits()
        }
        ConsolidationFn::Sum => xs.iter().sum::<f64>().to_bits(),
        ConsolidationFn::Count => (xs.len() as f64).to_bits(),
        ConsolidationFn::Min => xs.iter().cloned().fold(f64::INFINITY, f64::min).to_bits(),
        ConsolidationFn::Max => xs.iter().cloned().fold(f64::NEG_INFINITY, f64::max).to_bits(),
        ConsolidationFn::Last => *vals.last().unwrap(),
    }
}

fn pairs(items: &[(&str, &str)]) -> Vec<(String, String)> {
    items.iter().map(|(k, v)| (k.to_string(), v.to_string())).collect()
}

fn consolidate_until_done(store: &mut Store) -> usize {
    let mut total = 0;
    for _ in 0..20 {
        let ops = store.consolidate(&arith).unwrap();
        if ops == 0 {
            break;
        }
        total += ops;
    }
    total
}

/// Rebuilds a store from its persisted form, as a host program would
/// after a restart.
fn reopen_store(store: &Store, schemas: Vec<SchemaConfig>) -> Store {
    let meta = store.make_meta();
    let hashes: Vec<u64> = meta.schemas.iter().map(|r| r.hash).collect();
    let tier_counts: Vec<usize> = store.schemas().iter().map(|s| s.tiers.len()).collect();
    let slabs: Vec<Vec<Slab>> = store
        .rings
        .iter()
        .map(|sr| sr.iter().map(|r| slab_from_bytes(&slab_to_bytes(r.slab())).unwrap()).collect())
        .collect();
    let (ids, cols) = store.registry.counters();
    let index = SeriesIndex {
        series: store.registry.series_list().clone(),
        next_series_id: ids.clone(),
        next_column: cols.clone(),
    };
    let cursors: Vec<ConsolidationCursor> = store.consolidation_cursors().iter_cursors().clone();
    Store::open(schemas, meta.version, hashes, tier_counts, slabs, Some(index), cursors).unwrap()
}

fn vmm_schema() -> Vec<SchemaConfig> {
    vec![SchemaConfig {
        name: "vmm".to_string(),
        label_matcher: LabelMatcher::any(),
        tiers: vec![
            TierConfig { interval_ns: SEC, retention_ns: 600 * SEC, consolidation_fn: None },
            TierConfig {
                interval_ns: 10 * SEC,
                retention_ns: 21600 * SEC,
                consolidation_fn: Some(ConsolidationFn::Average),
            },
            TierConfig {
                interval_ns: 300 * SEC,
                retention_ns: 604800 * SEC,
                consolidation_fn: Some(ConsolidationFn::Average),
            },
        ],
        max_series: 100,
    }]
}

fn three_tier_schema() -> Vec<SchemaConfig> {
    vec![SchemaConfig {
        name: "test".to_string(),
        label_matcher: LabelMatcher::any(),
        tiers: vec![
            TierConfig { interval_ns: SEC, retention_ns: 60 * SEC, consolidation_fn: None },
            TierConfig {
                interval_ns: 10 * SEC,
                retention_ns: 600 * SEC,
                consolidation_fn: Some(ConsolidationFn::Average),
            },
            TierConfig {
                interval_ns: 60 * SEC,
                retention_ns: 3600 * SEC,
                consolidation_fn: Some(ConsolidationFn::Max),
            },
        ],
        max_series: 10,
    }]
}

fn schema_with_fn(consolidation_fn: ConsolidationFn) -> Vec<SchemaConfig> {
    vec![SchemaConfig {
        name: "test".to_string(),
        label_matcher: LabelMatcher::any(),
        tiers: vec![
            TierConfig { interval_ns: SEC, retention_ns: 60 * SEC, consolidation_fn: None },
            TierConfig {
                interval_ns: 5 * SEC,
                retention_ns: 300 * SEC,
                consolidation_fn: Some(consolidation_fn),
            },
        ],
        max_series: 10,
    }]
}

#[test]
fn test_full_store_lifecycle() {
    let base_time = 1_700_000_000_000_000_000u64;
    let mut store = Store::create(vmm_schema()).unwrap();

    let cpu_handle = store.register("vcpu_usage", &pairs(&[("vcpu", "0")])).unwrap();
    let mem_handle = store.register("mem_rss_bytes", &pairs(&[("instance", "vm-1")])).unwrap();

    for i in 0u32..60 {
        let ts = base_time + u64::from(i) * SEC;
        store.record(cpu_handle, f64::from(i % 100).to_bits(), ts).unwrap();
        store.record(mem_handle, f64::from(1024 + i * 10).to_bits(), ts).unwrap();
    }

    // a reopened store serves the same data
    let store = reopen_store(&store, vmm_schema());

    let data = store.query(cpu_handle, 0, base_time, base_time + 60 * SEC).unwrap().collect_all();
    assert_eq!(data.len(), 60);
    assert_eq!(data[0], (base_time, 0.0f64.to_bits()));
    assert_eq!(data[59], (base_time + 59 * SEC, 59.0f64.to_bits()));

    let mem_data = store
        .query(mem_handle, 0, base_time + 10 * SEC, base_time + 20 * SEC)
        .unwrap()
        .collect_all();
    assert_eq!(mem_data.len(), 10);
    assert_eq!(f64::from_bits(mem_data[0].1), f64::from(1024 + 10 * 10));
}

#[test]
fn test_ring_buffer_wraparound_end_to_end() {
    let schemas = vec![SchemaConfig {
        name: "small".to_string(),
        label_matcher: LabelMatcher::any(),
        tiers: vec![TierConfig {
            interval_ns: SEC,
            retention_ns: 10 * SEC,
            consolidation_fn: None,
        }],
        max_series: 10,
    }];
    let mut store = Store::create(schemas).unwrap();
    let handle = store.register("metric", &[]).unwrap();

    let base_time = 1_700_000_000_000_000_000u64;
    for i in 0u32..25 {
        store.record(handle, f64::from(i).to_bits(), base_time + u64::from(i) * SEC).unwrap();
    }

    let data = store.query(handle, 0, 1, u64::MAX).unwrap().collect_all();
    assert!(!data.is_empty());
    assert!(data.len() <= 10);
    let last = data.last().unwrap();
    assert_eq!(last.0, base_time + 24 * SEC);
    assert_eq!(f64::from_bits(last.1), 24.0);
}

#[test]
fn test_nan_handling_in_queries() {
    let schemas = vec![SchemaConfig {
        name: "gaps".to_string(),
        label_matcher: LabelMatcher::any(),
        tiers: vec![TierConfig {
            interval_ns: SEC,
            retention_ns: 100 * SEC,
            consolidation_fn: None,
        }],
        max_series: 10,
    }];
    let mut store = Store::create(schemas).unwrap();

    let series_a = store.register("a", &[]).unwrap();
    let series_b = store.register("b", &[]).unwrap();

    let base_time = 1_700_000_000_000_000_000u64;
    store.record(series_a, 10.0f64.to_bits(), base_time + SEC).unwrap();
    store.record(series_a, 30.0f64.to_bits(), base_time + 3 * SEC).unwrap();
    store.record(series_a, 50.0f64.to_bits(), base_time + 5 * SEC).unwrap();
    store.record(series_b, 20.0f64.to_bits(), base_time + 2 * SEC).unwrap();
    store.record(series_b, 40.0f64.to_bits(), base_time + 4 * SEC).unwrap();

    let data_a = store.query(series_a, 0, 1, u64::MAX).unwrap().collect_all();
    assert_eq!(data_a.len(), 3);
    let values_a: Vec<f64> = data_a.iter().map(|(_, b)| f64::from_bits(*b)).collect();
    assert!(values_a.contains(&10.0) && values_a.contains(&30.0) && values_a.contains(&50.0));

    let data_b = store.query(series_b, 0, 1, u64::MAX).unwrap().collect_all();
    assert_eq!(data_b.len(), 2);
    let values_b: Vec<f64> = data_b.iter().map(|(_, b)| f64::from_bits(*b)).collect();
    assert!(values_b.contains(&20.0) && values_b.contains(&40.0));
}

#[test]
fn test_multiple_schemas_routing() {
    let schemas = vec![
        SchemaConfig {
            name: "cpu".to_string(),
            label_matcher: LabelMatcher::new(pairs(&[("type", "cpu")])),
            tiers: vec![TierConfig {
                interval_ns: SEC,
                retention_ns: 60 * SEC,
                consolidation_fn: None,
            }],
            max_series: 50,
        },
        SchemaConfig {
            name: "disk".to_string(),
            label_matcher: LabelMatcher::new(pairs(&[("type", "disk")])),
            tiers: vec![TierConfig {
                interval_ns: 5 * SEC,
                retention_ns: 300 * SEC,
                consolidation_fn: None,
            }],
            max_series: 50,
        },
    ];
    let mut store = Store::create(schemas).unwrap();

    let cpu_handle = store.register("usage", &pairs(&[("type", "cpu")])).unwrap();
    let disk_handle = store.register("iops", &pairs(&[("type", "disk")])).unwrap();
    assert_ne!(cpu_handle.schema_index, disk_handle.schema_index);

    let base_time = 1_700_000_000_000_000_000u64;
    store.record(cpu_handle, 85.0f64.to_bits(), base_time).unwrap();
    store.record(disk_handle, 1200.0f64.to_bits(), base_time).unwrap();

    let cpu_data = store.query(cpu_handle, 0, 1, u64::MAX).unwrap().collect_all();
    let disk_data = store.query(disk_handle, 0, 1, u64::MAX).unwrap().collect_all();
    assert_eq!(cpu_data.len(), 1);
    assert_eq!(f64::from_bits(cpu_data[0].1), 85.0);
    assert_eq!(disk_data.len(), 1);
    assert_eq!(f64::from_bits(disk_data[0].1), 1200.0);
}

#[test]
fn test_store_reopen_preserves_series() {
    let schemas = vmm_schema();
    let mut store = Store::create(schemas.clone()).unwrap();
    let handle = store.register("cpu", &pairs(&[("host", "a")])).unwrap();
    store.record(handle, 42.0f64.to_bits(), 1_700_000_000_000_000_000).unwrap();

    let mut store = reopen_store(&store, schemas);
    assert_eq!(store.series_count(), 1);

    let handle = store.register("cpu", &pairs(&[("host", "a")])).unwrap();
    let data = store.query(handle, 0, 1, u64::MAX).unwrap().collect_all();
    assert_eq!(data.len(), 1);
    assert_eq!(f64::from_bits(data[0].1), 42.0);
}

#[test]
fn test_query_integration() {
    let schemas = vec![SchemaConfig {
        name: "metrics".to_string(),
        label_matcher: LabelMatcher::new(pairs(&[("type", "system")])),
        tiers: vec![
            TierConfig { interval_ns: SEC, retention_ns: 60 * SEC, consolidation_fn: None },
            TierConfig {
                interval_ns: 60 * SEC,
                retention_ns: 3600 * SEC,
                consolidation_fn: Some(ConsolidationFn::Average),
            },
        ],
        max_series: 1000,
    }];
    let mut store = Store::create(schemas).unwrap();

    let cpu_handle = store.register("cpu.usage", &pairs(&[("type", "system")])).unwrap();
    let mem_handle = store.register("mem.usage", &pairs(&[("type", "system")])).unwrap();

    let base_time = 1_640_000_000_000_000_000u64;
    for i in 0u32..10 {
        let timestamp = base_time + u64::from(i) * SEC;
        store.record(cpu_handle, f64::from(i * 10).to_bits(), timestamp).unwrap();
        store.record(mem_handle, f64::from(i * 5).to_bits(), timestamp).unwrap();
    }

    let result = store.query(cpu_handle, 0, base_time, base_time + 10 * SEC).unwrap();
    assert_eq!(result.tier_used(), 0);
    assert!(!result.may_be_incomplete());
    let cpu_data = result.collect_all();
    assert_eq!(cpu_data.len(), 10);
    for (i, (timestamp, bits)) in cpu_data.iter().enumerate() {
        assert_eq!(*timestamp, base_time + i as u64 * SEC);
        assert_eq!(f64::from_bits(*bits), f64::from(i as u32 * 10));
    }

    let result = store.query_auto(mem_handle, base_time + 2 * SEC, base_time + 8 * SEC).unwrap();
    assert_eq!(result.tier_used(), 0);
    assert_eq!(result.collect_all().len(), 6);

    let result = store
        .query(cpu_handle, 0, base_time - 5 * SEC, base_time + 15 * SEC)
        .unwrap();
    assert_eq!(result.tier_used(), 0);
    assert_eq!(result.requested_range(), (base_time - 5 * SEC, base_time + 15 * SEC));
    let (oldest, newest) = result.available_range();
    assert_eq!(oldest, Some(base_time));
    assert_eq!(newest, Some(base_time + 9 * SEC));
    assert!(result.may_be_incomplete());
}

#[test]
fn test_query_error_handling() {
    let schemas = vec![SchemaConfig {
        name: "test".to_string(),
        label_matcher: LabelMatcher::new(pairs(&[("env", "test")])),
        tiers: vec![TierConfig {
            interval_ns: SEC,
            retention_ns: 3600 * SEC,
            consolidation_fn: None,
        }],
        max_series: 100,
    }];
    let mut store = Store::create(schemas).unwrap();
    let handle = store.register("test.metric", &pairs(&[("env", "test")])).unwrap();

    let result = store.query(handle, 5, 1000, 2000);
    match result.unwrap_err() {
        rondo::RondoError::Query(QueryError::InvalidTier { tier, max_tiers }) => {
            assert_eq!(tier, 5);
            assert_eq!(max_tiers, 1);
        }
        other => panic!("expected an invalid-tier error, got {:?}", other),
    }

    let result = store.query(handle, 0, 2000, 1000);
    assert!(matches!(
        result.unwrap_err(),
        rondo::RondoError::Query(QueryError::InvalidTimeRange { .. })
    ));

    let result = store.query_auto(handle, 2000, 1000);
    assert!(matches!(
        result.unwrap_err(),
        rondo::RondoError::Query(QueryError::InvalidTimeRange { .. })
    ));
}

#[test]
fn test_tier_selection_logic() {
    let schemas = vec![SchemaConfig {
        name: "tiered".to_string(),
        label_matcher: LabelMatcher::any(),
        tiers: vec![
            TierConfig { interval_ns: SEC, retention_ns: 10 * SEC, consolidation_fn: None },
            TierConfig {
                interval_ns: 5 * SEC,
                retention_ns: 100 * SEC,
                consolidation_fn: Some(ConsolidationFn::Average),
            },
        ],
        max_series: 100,
    }];
    let mut store = Store::create(schemas).unwrap();
    let handle = store.register("test.metric", &[]).unwrap();

    let base_time = 1_640_000_000_000_000_000u64;
    store.record(handle, 42.0f64.to_bits(), base_time).unwrap();

    let result = store.query_auto(handle, base_time, base_time + SEC).unwrap();
    assert_eq!(result.tier_used(), 0);

    let empty_handle = store.register("empty.metric", &[]).unwrap();
    let result = store.query_auto(empty_handle, base_time, base_time + SEC).unwrap();
    assert_eq!(result.tier_used(), 0);
    assert_eq!(result.count(), 0);

    let old_time = base_time - 3600 * SEC;
    let result = store.query_auto(handle, old_time, base_time + SEC).unwrap();
    assert!(result.may_be_incomplete());
}

#[test]
fn test_15_minutes_consolidation_to_tier1() {
    let mut store = Store::create(three_tier_schema()).unwrap();
    let handle = store.register("metric", &[]).unwrap();

    for i in 0u32..900 {
        let timestamp = BASE_TIME + u64::from(i) * SEC;
        store.record(handle, f64::from(i).to_bits(), timestamp).unwrap();
    }

    let total_ops = consolidate_until_done(&mut store);
    assert!(total_ops > 0);

    let tier1_data =
        store.query(handle, 1, BASE_TIME, BASE_TIME + 900 * SEC).unwrap().collect_all();
    assert!(!tier1_data.is_empty());
    for (_ts, bits) in &tier1_data {
        let value = f64::from_bits(*bits);
        assert!(value.is_finite());
        assert!((0.0..900.0).contains(&value));
    }
}

#[test]
fn test_tier_cascade() {
    let mut store = Store::create(three_tier_schema()).unwrap();
    let handle = store.register("metric", &[]).unwrap();

    for batch in 0u32..4 {
        for i in 0u32..50 {
            let offset = batch * 50 + i;
            let timestamp = BASE_TIME + u64::from(offset) * SEC;
            store.record(handle, f64::from(offset * 10).to_bits(), timestamp).unwrap();
        }
        consolidate_until_done(&mut store);
    }

    let tier1_data =
        store.query(handle, 1, BASE_TIME, BASE_TIME + 210 * SEC).unwrap().collect_all();
    assert!(!tier1_data.is_empty());

    let tier2_data =
        store.query(handle, 2, BASE_TIME, BASE_TIME + 210 * SEC).unwrap().collect_all();
    assert!(!tier2_data.is_empty());
}

#[test]
fn test_consolidation_fn_average() {
    let mut store = Store::create(schema_with_fn(ConsolidationFn::Average)).unwrap();
    let handle = store.register("metric", &[]).unwrap();

    for i in 0u32..5 {
        let timestamp = BASE_TIME + u64::from(i) * SEC;
        store.record(handle, f64::from((i + 1) * 10).to_bits(), timestamp).unwrap();
    }
    consolidate_until_done(&mut store);

    let tier1_data =
        store.query(handle, 1, BASE_TIME, BASE_TIME + 10 * SEC).unwrap().collect_all();
    assert!(!tier1_data.is_empty());
    assert!((f64::from_bits(tier1_data[0].1) - 30.0).abs() < 0.01);
}

#[test]
fn test_consolidation_fn_min() {
    let mut store = Store::create(schema_with_fn(ConsolidationFn::Min)).unwrap();
    let handle = store.register("metric", &[]).unwrap();

    let values: [f64; 5] = [50.0, 10.0, 30.0, 20.0, 40.0];
    for (i, &v) in values.iter().enumerate() {
        store.record(handle, v.to_bits(), BASE_TIME + (i as u64) * SEC).unwrap();
    }
    consolidate_until_done(&mut store);

    let tier1_data =
        store.query(handle, 1, BASE_TIME, BASE_TIME + 10 * SEC).unwrap().collect_all();
    assert!(!tier1_data.is_empty());
    assert!((f64::from_bits(tier1_data[0].1) - 10.0).abs() < 0.01);
}

#[test]
fn test_consolidation_fn_max() {
    let mut store = Store::create(schema_with_fn(ConsolidationFn::Max)).unwrap();
    let handle = store.register("metric", &[]).unwrap();

    let values: [f64; 5] = [10.0, 50.0, 30.0, 20.0, 40.0];
    for (i, &v) in values.iter().enumerate() {
        store.record(handle, v.to_bits(), BASE_TIME + (i as u64) * SEC).unwrap();
    }
    consolidate_until_done(&mut store);

    let tier1_data =
        store.query(handle, 1, BASE_TIME, BASE_TIME + 10 * SEC).unwrap().collect_all();
    assert!(!tier1_data.is_empty());
    assert!((f64::from_bits(tier1_data[0].1) - 50.0).abs() < 0.01);
}

#[test]
fn test_consolidation_fn_sum() {
    let mut store = Store::create(schema_with_fn(ConsolidationFn::Sum)).unwrap();
    let handle = store.register("metric", &[]).unwrap();

    for i in 0u32..5 {
        let timestamp = BASE_TIME + u64::from(i) * SEC;
        store.record(handle, f64::from((i + 1) * 10).to_bits(), timestamp).unwrap();
    }
    consolidate_until_done(&mut store);

    let tier1_data =
        store.query(handle, 1, BASE_TIME, BASE_TIME + 10 * SEC).unwrap().collect_all();
    assert!(!tier1_data.is_empty());
    assert!((f64::from_bits(tier1_data[0].1) - 150.0).abs() < 0.01);
}

#[test]
fn test_consolidation_fn_count() {
    let mut store = Store::create(schema_with_fn(ConsolidationFn::Count)).unwrap();
    let handle = store.register("metric", &[]).unwrap();

    for i in 0u32..5 {
        let timestamp = BASE_TIME + u64::from(i) * SEC;
        store.record(handle, f64::from(i * 100).to_bits(), timestamp).unwrap();
    }
    consolidate_until_done(&mut store);

    let tier1_data =
        store.query(handle, 1, BASE_TIME, BASE_TIME + 10 * SEC).unwrap().collect_all();
    assert!(!tier1_data.is_empty());
    assert!((f64::from_bits(tier1_data[0].1) - 5.0).abs() < 0.01);
}

#[test]
fn test_consolidation_fn_last() {
    let mut store = Store::create(schema_with_fn(ConsolidationFn::Last)).unwrap();
    let handle = store.register("metric", &[]).unwrap();

    for i in 0u32..5 {
        let timestamp = BASE_TIME + u64::from(i) * SEC;
        store.record(handle, f64::from((i + 1) * 10).to_bits(), timestamp).unwrap();
    }
    consolidate_until_done(&mut store);

    let tier1_data =
        store.query(handle, 1, BASE_TIME, BASE_TIME + 10 * SEC).unwrap().collect_all();
    assert!(!tier1_data.is_empty());
    assert!((f64::from_bits(tier1_data[0].1) - 50.0).abs() < 0.01);
}

#[test]
fn test_nan_excluded_from_consolidation() {
    let mut store = Store::create(schema_with_fn(ConsolidationFn::Average)).unwrap();
    let handle = store.register("metric", &[]).unwrap();

    // write only at the first and third second of the window, leaving a
    // gap whose slot keeps the empty pattern
    store.record(handle, 10.0f64.to_bits(), BASE_TIME).unwrap();
    store.record(handle, 30.0f64.to_bits(), BASE_TIME + 2 * SEC).unwrap();
    consolidate_until_done(&mut store);

    let tier1_data =
        store.query(handle, 1, BASE_TIME, BASE_TIME + 10 * SEC).unwrap().collect_all();
    assert!(!tier1_data.is_empty());
    let value = f64::from_bits(tier1_data[0].1);
    assert!(value.is_finite());
    assert!((value - 20.0).abs() < 0.01);
}

#[test]
fn test_query_auto_selects_best_tier() {
    let mut store = Store::create(three_tier_schema()).unwrap();
    let handle = store.register("metric", &[]).unwrap();

    // a base aligned to the ring keeps thirty writes inside one
    // revolution, so the highest resolution tier fully covers them
    let base = 1_000_000_020_000_000_000u64;
    for i in 0u32..30 {
        let timestamp = base + u64::from(i) * SEC;
        store.record(handle, f64::from(i).to_bits(), timestamp).unwrap();
    }
    consolidate_until_done(&mut store);

    let result = store.query_auto(handle, base, base + 29 * SEC).unwrap();
    assert_eq!(result.tier_used(), 0);
    assert_eq!(result.collect_all().len(), 29);
}

#[test]
fn test_consolidation_idempotent() {
    let mut store = Store::create(three_tier_schema()).unwrap();
    let handle = store.register("metric", &[]).unwrap();

    for i in 0u32..20 {
        let timestamp = BASE_TIME + u64::from(i) * SEC;
        store.record(handle, f64::from(i).to_bits(), timestamp).unwrap();
    }

    let _ops1 = store.consolidate(&arith).unwrap();
    let ops2 = store.consolidate(&arith).unwrap();
    assert_eq!(ops2, 0);
    let ops3 = store.consolidate(&arith).unwrap();
    assert_eq!(ops3, 0);
}

#[test]
fn integration_consolidation_test_consolidation_multiple_series() {
    let mut store = Store::create(schema_with_fn(ConsolidationFn::Sum)).unwrap();
    let h1 = store.register("metric1", &[]).unwrap();
    let h2 = store.register("metric2", &[]).unwrap();

    for i in 0u32..5 {
        let timestamp = BASE_TIME + u64::from(i) * SEC;
        store.record(h1, 10.0f64.to_bits(), timestamp).unwrap();
        store.record(h2, 20.0f64.to_bits(), timestamp).unwrap();
    }
    consolidate_until_done(&mut store);

    let s1_data = store.query(h1, 1, BASE_TIME, BASE_TIME + 10 * SEC).unwrap().collect_all();
    let s2_data = store.query(h2, 1, BASE_TIME, BASE_TIME + 10 * SEC).unwrap().collect_all();
    assert!(!s1_data.is_empty());
    assert!(!s2_data.is_empty());
    assert_eq!(f64::from_bits(s1_data[0].1), 50.0);
    assert_eq!(f64::from_bits(s2_data[0].1), 100.0);
}

#[test]
fn test_consolidation_persists_across_restarts() {
    let schemas = three_tier_schema();
    let mut store = Store::create(schemas.clone()).unwrap();
    let handle = store.register("metric", &[]).unwrap();

    for i in 0u32..20 {
        let timestamp = BASE_TIME + u64::from(i) * SEC;
        store.record(handle, f64::from(i).to_bits(), timestamp).unwrap();
    }
    consolidate_until_done(&mut store);

    // after a restart with no new writes there is nothing left to do
    let mut reopened = reopen_store(&store, schemas);
    let ops = reopened.consolidate(&arith).unwrap();
    assert_eq!(ops, 0);
}
