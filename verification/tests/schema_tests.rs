//! Tests for schema configuration, validation, hashing and reducers.

use rondo::consolidate::reduce_values;
use rondo::schema::{ConsolidationFn, LabelMatcher, SchemaConfig, TierConfig};

const SEC: u64 = 1_000_000_000;

fn arith(f: ConsolidationFn, vals: Vec<u64>) -> u64 {
    let xs: Vec<f64> = vals.iter().map(|b| f64::from_bits(*b)).collect();
    match f {
        ConsolidationFn::Average => {
            let sum: f64 = xs.iter().sum();
            (sum / xs.len() as f64).to_bits()
        }
        ConsolidationFn::Sum => xs.iter().sum::<f64>().to_bits(),
        ConsolidationFn::Count => (xs.len() as f64).to_bits(),
        ConsolidationFn::Min => xs.iter().cloned().fold(f64::INFINITY, f64::min).to_bits(),
        ConsolidationFn::Max => xs.iter().cloned().fold(f64::NEG_INFINITY, f64::max).to_bits(),
        ConsolidationFn::Last => *vals.last().unwrap(),
    }
}

fn pairs(items: &[(&str, &str)]) -> Vec<(String, String)> {
    items.iter().map(|(k, v)| (k.to_string(), v.to_string())).collect()
}

#[test]
fn test_consolidation_functions() {
    let values: Vec<u64> = [1.0, 2.0, f64::NAN, 4.0, 3.0].iter().map(|v| v.to_bits()).collect();

    let avg = f64::from_bits(reduce_values(ConsolidationFn::Average, &values, &arith).unwrap());
    assert!((avg - 2.5).abs() < f64::EPSILON);
    let min = reduce_values(ConsolidationFn::Min, &values, &arith).unwrap();
    assert_eq!(f64::from_bits(min), 1.0);
    let max = reduce_values(ConsolidationFn::Max, &values, &arith).unwrap();
    assert_eq!(f64::from_bits(max), 4.0);
    let last = reduce_values(ConsolidationFn::Last, &values, &arith).unwrap();
    assert_eq!(f64::from_bits(last), 3.0);
    let sum = reduce_values(ConsolidationFn::Sum, &values, &arith).unwrap();
    assert_eq!(f64::from_bits(sum), 10.0);
    let count = reduce_values(ConsolidationFn::Count, &values, &arith).unwrap();
    assert_eq!(f64::from_bits(count), 4.0);

    // all-NaN and empty windows reduce to nothing
    let nan_values: Vec<u64> = [f64::NAN, f64::NAN].iter().map(|v| v.to_bits()).collect();
    assert!(reduce_values(ConsolidationFn::Average, &nan_values, &arith).is_none());
    assert!(reduce_values(ConsolidationFn::Min, &nan_values, &arith).is_none());
    assert!(reduce_values(ConsolidationFn::Average, &Vec::new(), &arith).is_none());
}

#[test]
fn test_label_matcher() {
    let matcher = LabelMatcher::new(pairs(&[("service", "web"), ("env", "prod")]));

    assert!(matcher.matches(&pairs(&[
        ("service", "web"),
        ("env", "prod"),
        ("extra", "label"),
    ])));
    assert!(!matcher.matches(&pairs(&[("service", "web")])));
    assert!(!matcher.matches(&pairs(&[("service", "api"), ("env", "prod")])));

    let any_matcher = LabelMatcher::any();
    assert!(any_matcher.matches(&[]));
    assert!(any_matcher.matches(&pairs(&[("any", "label")])));
}

#[test]
fn test_tier_config_validation() {
    let config = TierConfig::new(60 * SEC, 3600 * SEC, Some(ConsolidationFn::Average));
    assert!(config.is_ok());

    let config = TierConfig::new(0, 3600 * SEC, Some(ConsolidationFn::Average));
    assert!(config.is_err());

    let config = TierConfig::new(60 * SEC, 30 * SEC, Some(ConsolidationFn::Average));
    assert!(config.is_err());
}

#[test]
fn test_schema_config_validation() {
    let valid_tiers = vec![
        TierConfig { interval_ns: SEC, retention_ns: 3600 * SEC, consolidation_fn: None },
        TierConfig {
            interval_ns: 60 * SEC,
            retention_ns: 86400 * SEC,
            consolidation_fn: Some(ConsolidationFn::Average),
        },
    ];

    let config = SchemaConfig::new(
        "test".to_string(),
        LabelMatcher::any(),
        valid_tiers.clone(),
        1000,
    );
    assert!(config.is_ok());

    let config = SchemaConfig::new("test".to_string(), LabelMatcher::any(), vec![], 1000);
    assert!(config.is_err());

    let mut invalid_tiers = valid_tiers.clone();
    invalid_tiers[0].consolidation_fn = Some(ConsolidationFn::Average);
    let config = SchemaConfig::new("test".to_string(), LabelMatcher::any(), invalid_tiers, 1000);
    assert!(config.is_err());

    let mut unordered_tiers = valid_tiers;
    unordered_tiers.reverse();
    let config = SchemaConfig::new("test".to_string(), LabelMatcher::any(), unordered_tiers, 1000);
    assert!(config.is_err());
}

#[test]
fn test_stable_hash() {
    let schema1 = SchemaConfig {
        name: "test1".to_string(),
        label_matcher: LabelMatcher::new(pairs(&[("service", "web")])),
        tiers: vec![TierConfig {
            interval_ns: SEC,
            retention_ns: 3600 * SEC,
            consolidation_fn: None,
        }],
        max_series: 1000,
    };

    let schema2 = SchemaConfig {
        name: "test2".to_string(),
        label_matcher: LabelMatcher::new(pairs(&[("service", "web")])),
        tiers: vec![TierConfig {
            interval_ns: SEC,
            retention_ns: 3600 * SEC,
            consolidation_fn: None,
        }],
        max_series: 1000,
    };

    // renaming the schema leaves the hash alone
    assert_eq!(schema1.stable_hash(), schema2.stable_hash());

    let schema3 = SchemaConfig {
        name: "test1".to_string(),
        label_matcher: LabelMatcher::new(pairs(&[("service", "api")])),
        tiers: vec![TierConfig {
            interval_ns: SEC,
            retention_ns: 3600 * SEC,
            consolidation_fn: None,
        }],
        max_series: 1000,
    };
    assert_ne!(schema1.stable_hash(), schema3.stable_hash());

    // changing a tier or the capacity changes the hash
    let mut schema4 = schema1.clone();
    schema4.tiers[0].retention_ns = 7200 * SEC;
    assert_ne!(schema1.stable_hash(), schema4.stable_hash());
    let mut schema5 = schema1.clone();
    schema5.max_series = 999;
    assert_ne!(schema1.stable_hash(), schema5.stable_hash());
}

#[test]
fn test_stable_hash_matcher_order_independent() {
    let a = SchemaConfig {
        name: "a".to_string(),
        label_matcher: LabelMatcher::new(pairs(&[("x", "1"), ("y", "2")])),
        tiers: vec![TierConfig {
            interval_ns: SEC,
            retention_ns: 60 * SEC,
            consolidation_fn: None,
        }],
        max_series: 10,
    };
    let b = SchemaConfig {
        name: "b".to_string(),
        label_matcher: LabelMatcher::new(pairs(&[("y", "2"), ("x", "1")])),
        tiers: a.tiers.clone(),
        max_series: 10,
    };
    assert_eq!(a.stable_hash(), b.stable_hash());
}

#[test]
fn test_matcher_duplicate_key_keeps_last_value() {
    let matcher = LabelMatcher::new(pairs(&[("k", "old"), ("k", "new")]));
    assert_eq!(matcher.label_count(), 1);
    assert!(matcher.matches(&pairs(&[("k", "new")])));
    assert!(!matcher.matches(&pairs(&[("k", "old")])));
}

#[test]
fn test_schema_error_variants() {
    // a zero capacity is rejected
    let schema = SchemaConfig::new(
        "zero".to_string(),
        LabelMatcher::any(),
        vec![TierConfig { interval_ns: SEC, retention_ns: 60 * SEC, consolidation_fn: None }],
        0,
    );
    assert!(matches!(
        schema.unwrap_err(),
        rondo::RondoError::Schema(rondo::error::SchemaError::InvalidMaxSeries { count: 0 })
    ));

    // a tier with more than the allowed number of slots is rejected
    let tier = TierConfig::new(1, 2_000_000_000, None);
    assert!(matches!(
        tier.unwrap_err(),
        rondo::RondoError::Schema(rondo::error::SchemaError::TooManySlots { .. })
    ));
}

#[test]
fn test_tier_slot_count() {
    let tier =
        TierConfig { interval_ns: SEC, retention_ns: 10 * SEC, consolidation_fn: None };
    assert_eq!(tier.slot_count(), 10);
    let tier =
        TierConfig { interval_ns: 3 * SEC, retention_ns: 10 * SEC, consolidation_fn: None };
    assert_eq!(tier.slot_count(), 3);
}
