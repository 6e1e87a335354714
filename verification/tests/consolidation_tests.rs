//! Tests for the consolidation engine, windows and cursors.

use rondo::consolidate::{
    ConsolidationCursor, ConsolidationCursors, ConsolidationEngine, ConsolidationWindow,
};
use rondo::ring::RingBuffer;
use rondo::schema::{ConsolidationFn, LabelMatcher, SchemaConfig, TierConfig};
use rondo::slab::Slab;

const SEC: u64 = 1_000_000_000;

fn arith(f: ConsolidationFn, vals: Vec<u64>) -> u64 {
    let xs: Vec<f64> = vals.iter().map(|b| f64::from_bits(*b)).collect();
    match f {
        ConsolidationFn::Average => {
            let sum: f64 = xs.iter().sum();
            (sum / xs.len() as f64).to_bits()
        }
        ConsolidationFn::Sum => xs.iter().sum::<f64>().to_bits(),
        ConsolidationFn::Count => (xs.len() as f64).to_bits(),
        ConsolidationFn::Min => xs.iter().cloned().fold(f64::INFINITY, f64::min).to_bits(),
        ConsolidationFn::Max => xs.iter().cloned().fold(f64::NEG_INFINITY, f64::max).to_bits(),
        ConsolidationFn::Last => *vals.last().unwrap(),
    }
}

fn engine_schema() -> SchemaConfig {
    SchemaConfig {
        name: "test_schema".to_string(),
        label_matcher: LabelMatcher::any(),
        tiers: vec![
            TierConfig { interval_ns: SEC, retention_ns: 60 * SEC, consolidation_fn: None },
            TierConfig {
                interval_ns: 10 * SEC,
                retention_ns: 600 * SEC,
                consolidation_fn: Some(ConsolidationFn::Average),
            },
            TierConfig {
                interval_ns: 60 * SEC,
                retention_ns: 3600 * SEC,
                consolidation_fn: Some(ConsolidationFn::Max),
            },
        ],
        max_series: 10,
    }
}

fn rings_for(schema: &SchemaConfig) -> Vec<RingBuffer> {
    schema
        .tiers
        .iter()
        .map(|tier| {
            let slot_count = (tier.retention_ns / tier.interval_ns) as u32;
            RingBuffer::new(Slab::new(
                schema.stable_hash(),
                slot_count,
                schema.max_series,
                tier.interval_ns,
            ))
        })
        .collect()
}

#[test]
fn test_consolidation_cursors_basic() {
    let mut cursors = ConsolidationCursors::new();

    cursors.update_last_processed(0, 0, 1, 1000);
    cursors.update_last_processed(0, 1, 2, 2000);
    cursors.update_last_processed(1, 0, 1, 3000);

    assert_eq!(cursors.get_last_processed(0, 0, 1), Some(1000));
    assert_eq!(cursors.get_last_processed(0, 1, 2), Some(2000));
    assert_eq!(cursors.get_last_processed(1, 0, 1), Some(3000));
    assert_eq!(cursors.get_last_processed(0, 0, 2), None);

    // the records round-trip through their stored form
    let records: Vec<ConsolidationCursor> = cursors.iter_cursors().clone();
    let loaded = ConsolidationCursors::from_records(records).unwrap();
    assert_eq!(loaded.get_last_processed(0, 0, 1), Some(1000));
    assert_eq!(loaded.get_last_processed(0, 1, 2), Some(2000));
    assert_eq!(loaded.get_last_processed(1, 0, 1), Some(3000));
}

#[test]
fn test_consolidation_cursors_load_missing() {
    let cursors = ConsolidationCursors::from_records(Vec::new()).unwrap();
    assert_eq!(cursors.get_last_processed(0, 0, 1), None);
}

#[test]
fn test_consolidation_window() {
    let mut window = ConsolidationWindow::new(1000, 2000);

    assert!(!window.has_data());

    window.add_point(0, 10.0f64.to_bits());
    window.add_point(0, 20.0f64.to_bits());
    window.add_point(1, 30.0f64.to_bits());
    window.add_point(0, f64::NAN.to_bits());

    assert!(window.has_data());
    assert!(window.has_column(0));
    assert!(window.has_column(1));
    assert!(!window.has_column(2));

    let values0: Vec<f64> =
        window.get_values(0).unwrap().iter().map(|b| f64::from_bits(*b)).collect();
    assert_eq!(values0, vec![10.0, 20.0]);
    let values1: Vec<f64> =
        window.get_values(1).unwrap().iter().map(|b| f64::from_bits(*b)).collect();
    assert_eq!(values1, vec![30.0]);
    assert!(window.get_values(2).is_none());
}

#[test]
fn test_consolidation_engine_creation() {
    let engine =
        ConsolidationEngine::new(vec![engine_schema()], ConsolidationCursors::new());
    assert_eq!(engine.consolidation_pair_count(), 2);
}

#[test]
fn test_consolidation_engine_no_tiers() {
    let schema = SchemaConfig {
        name: "single_tier".to_string(),
        label_matcher: LabelMatcher::any(),
        tiers: vec![TierConfig {
            interval_ns: SEC,
            retention_ns: 60 * SEC,
            consolidation_fn: None,
        }],
        max_series: 10,
    };
    let engine = ConsolidationEngine::new(vec![schema], ConsolidationCursors::new());
    assert_eq!(engine.consolidation_pair_count(), 0);
}

#[test]
fn test_consolidation_with_empty_source() {
    let schema = engine_schema();
    let mut engine = ConsolidationEngine::new(vec![schema.clone()], ConsolidationCursors::new());
    let mut all_rings = vec![rings_for(&schema)];

    let operations = engine.consolidate(&mut all_rings, &arith).unwrap();
    assert_eq!(operations, 0);
}

#[test]
fn test_basic_consolidation() {
    let schema = engine_schema();
    let mut engine = ConsolidationEngine::new(vec![schema.clone()], ConsolidationCursors::new());
    let mut all_rings = vec![rings_for(&schema)];

    let base_time = 1_000_000_000_000_000_000u64;
    all_rings[0][0].write(0, 10.0f64.to_bits(), base_time).unwrap();
    all_rings[0][0].write(0, 20.0f64.to_bits(), base_time + SEC).unwrap();
    all_rings[0][0].write(0, 30.0f64.to_bits(), base_time + 2 * SEC).unwrap();
    all_rings[0][0].write(0, 40.0f64.to_bits(), base_time + 10 * SEC).unwrap();
    all_rings[0][0].write(0, 50.0f64.to_bits(), base_time + 11 * SEC).unwrap();

    let operations = engine.consolidate(&mut all_rings, &arith).unwrap();
    assert!(operations > 0);

    let tier1_data = all_rings[0][1].read(0, base_time - 1, base_time + 20 * SEC).unwrap();
    assert!(!tier1_data.is_empty());
    // the first full window averages 10, 20 and 30
    assert_eq!(f64::from_bits(tier1_data[0].1), 20.0);
}

#[test]
fn test_consolidation_idempotence() {
    let schema = engine_schema();
    let mut engine = ConsolidationEngine::new(vec![schema.clone()], ConsolidationCursors::new());
    let mut all_rings = vec![rings_for(&schema)];

    let base_time = 1_000_000_000_000_000_000u64;
    all_rings[0][0].write(0, 10.0f64.to_bits(), base_time).unwrap();
    all_rings[0][0].write(0, 20.0f64.to_bits(), base_time + SEC).unwrap();

    let operations1 = engine.consolidate(&mut all_rings, &arith).unwrap();
    assert!(operations1 > 0);

    let operations2 = engine.consolidate(&mut all_rings, &arith).unwrap();
    assert_eq!(operations2, 0);
}

#[test]
fn test_consolidation_with_new_data() {
    let schema = engine_schema();
    let mut engine = ConsolidationEngine::new(vec![schema.clone()], ConsolidationCursors::new());
    let mut all_rings = vec![rings_for(&schema)];

    let base_time = 1_000_000_000_000_000_000u64;
    all_rings[0][0].write(0, 10.0f64.to_bits(), base_time).unwrap();
    all_rings[0][0].write(0, 20.0f64.to_bits(), base_time + SEC).unwrap();

    let operations1 = engine.consolidate(&mut all_rings, &arith).unwrap();
    assert!(operations1 > 0);

    all_rings[0][0].write(0, 30.0f64.to_bits(), base_time + 2 * SEC).unwrap();
    all_rings[0][0].write(0, 40.0f64.to_bits(), base_time + 3 * SEC).unwrap();

    // only the new range is processed again
    let _operations2 = engine.consolidate(&mut all_rings, &arith).unwrap();
}

#[test]
fn consolidate_test_consolidation_functions() {
    let schema = SchemaConfig {
        name: "test_functions".to_string(),
        label_matcher: LabelMatcher::any(),
        tiers: vec![
            TierConfig { interval_ns: SEC, retention_ns: 60 * SEC, consolidation_fn: None },
            TierConfig {
                interval_ns: 5 * SEC,
                retention_ns: 300 * SEC,
                consolidation_fn: Some(ConsolidationFn::Min),
            },
        ],
        max_series: 5,
    };
    let mut engine = ConsolidationEngine::new(vec![schema.clone()], ConsolidationCursors::new());
    let mut all_rings = vec![rings_for(&schema)];

    let base_time = 1_000_000_000_000_000_000u64;
    let values: [f64; 5] = [100.0, 50.0, 75.0, 25.0, 90.0];
    for (i, v) in values.iter().enumerate() {
        all_rings[0][0].write(0, v.to_bits(), base_time + (i as u64) * SEC).unwrap();
    }

    let operations = engine.consolidate(&mut all_rings, &arith).unwrap();
    assert!(operations > 0);

    let tier1_data = all_rings[0][1].read(0, base_time - 1, base_time + 10 * SEC).unwrap();
    assert!(!tier1_data.is_empty());
    assert_eq!(f64::from_bits(tier1_data[0].1), 25.0);
}

#[test]
fn test_cursor_persistence_across_restarts() {
    let schema = engine_schema();
    let base_time = 1_000_000_000_000_000_000u64;

    let mut all_rings = vec![rings_for(&schema)];
    all_rings[0][0].write(0, 10.0f64.to_bits(), base_time).unwrap();
    all_rings[0][0].write(0, 20.0f64.to_bits(), base_time + SEC).unwrap();

    let kept_records;
    {
        let mut engine =
            ConsolidationEngine::new(vec![schema.clone()], ConsolidationCursors::new());
        let _operations = engine.consolidate(&mut all_rings, &arith).unwrap();
        kept_records = engine.cursors().iter_cursors().clone();
    }

    // a fresh engine continuing from the kept cursors has nothing to do
    {
        let cursors = ConsolidationCursors::from_records(kept_records).unwrap();
        let mut engine = ConsolidationEngine::new(vec![schema.clone()], cursors);
        let operations = engine.consolidate(&mut all_rings, &arith).unwrap();
        assert_eq!(operations, 0);
    }
}

#[test]
fn test_multiple_series_consolidation() {
    let schema = engine_schema();
    let mut engine = ConsolidationEngine::new(vec![schema.clone()], ConsolidationCursors::new());
    let mut all_rings = vec![rings_for(&schema)];

    let base_time = 1_000_000_000_000_000_000u64;
    all_rings[0][0].write(0, 10.0f64.to_bits(), base_time).unwrap();
    all_rings[0][0].write(1, 100.0f64.to_bits(), base_time).unwrap();
    all_rings[0][0].write(0, 20.0f64.to_bits(), base_time + SEC).unwrap();
    all_rings[0][0].write(1, 200.0f64.to_bits(), base_time + SEC).unwrap();
    all_rings[0][0].write(0, 1.0f64.to_bits(), base_time + 10 * SEC).unwrap();
    all_rings[0][0].write(1, 2.0f64.to_bits(), base_time + 10 * SEC).unwrap();

    let operations = engine.consolidate(&mut all_rings, &arith).unwrap();
    assert!(operations > 0);

    let series0 = all_rings[0][1].read(0, base_time - 1, base_time + 20 * SEC).unwrap();
    let series1 = all_rings[0][1].read(1, base_time - 1, base_time + 20 * SEC).unwrap();
    assert_eq!(f64::from_bits(series0[0].1), 15.0);
    assert_eq!(f64::from_bits(series1[0].1), 150.0);
}

#[test]
fn test_three_tier_consolidation() {
    let schema = engine_schema();
    let mut engine = ConsolidationEngine::new(vec![schema.clone()], ConsolidationCursors::new());
    let mut all_rings = vec![rings_for(&schema)];

    let base_time = 1_000_000_000_000_000_000u64;
    for i in 0u32..65 {
        all_rings[0][0]
            .write(0, f64::from(i * 10).to_bits(), base_time + u64::from(i) * SEC)
            .unwrap();
    }

    for _ in 0..5 {
        let operations = engine.consolidate(&mut all_rings, &arith).unwrap();
        if operations == 0 {
            break;
        }
    }

    let tier1_data = all_rings[0][1].read(0, base_time - 1, base_time + 70 * SEC).unwrap();
    assert!(!tier1_data.is_empty());
    let tier2_data = all_rings[0][2].read(0, base_time - 1, base_time + 70 * SEC).unwrap();
    assert!(!tier2_data.is_empty());
}
