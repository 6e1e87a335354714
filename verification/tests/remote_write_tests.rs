//! Tests for the remote-write request data.

use rondo::export::SeriesExport;
use rondo::remote_write::{
    build_labels, build_samples, build_write_request, RemoteWriteConfig,
};
use rondo::schema::{LabelMatcher, SchemaConfig, TierConfig};
use rondo::series::SeriesHandle;
use rondo::store::Store;

const SEC: u64 = 1_000_000_000;

fn pairs(items: &[(&str, &str)]) -> Vec<(String, String)> {
    items.iter().map(|(k, v)| (k.to_string(), v.to_string())).collect()
}

fn create_test_store() -> Store {
    let schemas = vec![SchemaConfig {
        name: "test".to_string(),
        label_matcher: LabelMatcher::any(),
        tiers: vec![TierConfig {
            interval_ns: SEC,
            retention_ns: 60 * SEC,
            consolidation_fn: None,
        }],
        max_series: 10,
    }];
    Store::create(schemas).unwrap()
}

#[test]
fn test_build_labels() {
    let labels = pairs(&[("host", "web1"), ("dc", "us-east")]);

    let result = build_labels("cpu_usage", &labels, &[]);

    assert_eq!(result.len(), 3);
    assert_eq!(result[0].name, "__name__");
    assert_eq!(result[0].value, "cpu_usage");
    assert_eq!(result[1].name, "dc");
    assert_eq!(result[1].value, "us-east");
    assert_eq!(result[2].name, "host");
    assert_eq!(result[2].value, "web1");
}

#[test]
fn test_build_labels_with_external() {
    let labels = pairs(&[("host", "web1")]);
    let external = pairs(&[("instance", "vmm_1")]);

    let result = build_labels("cpu_usage", &labels, &external);

    assert_eq!(result.len(), 3);
    assert_eq!(result[0].name, "__name__");
    assert_eq!(result[0].value, "cpu_usage");
    assert_eq!(result[1].name, "host");
    assert_eq!(result[1].value, "web1");
    assert_eq!(result[2].name, "instance");
    assert_eq!(result[2].value, "vmm_1");
}

#[test]
fn test_build_samples() {
    let points = vec![
        (1_700_000_000_000_000_000u64, 42.0f64.to_bits()),
        (1_700_000_001_000_000_000u64, 43.0f64.to_bits()),
    ];

    let samples = build_samples(&points);

    assert_eq!(samples.len(), 2);
    assert_eq!(f64::from_bits(samples[0].value_bits), 42.0);
    assert_eq!(samples[0].timestamp_ms, 1_700_000_000_000);
    assert_eq!(f64::from_bits(samples[1].value_bits), 43.0);
    assert_eq!(samples[1].timestamp_ms, 1_700_000_001_000);
}

#[test]
fn test_build_write_request_empty() {
    let store = create_test_store();
    let exports: Vec<SeriesExport> = Vec::new();
    let request = build_write_request(&exports, &store, &[]).unwrap();
    assert!(request.timeseries.is_empty());
}

#[test]
fn test_build_write_request_with_data() {
    let mut store = create_test_store();
    let handle = store.register("cpu", &pairs(&[("host", "web1")])).unwrap();

    let exports = vec![SeriesExport {
        handle,
        points: vec![
            (1_700_000_000_000_000_000, 85.5f64.to_bits()),
            (1_700_000_001_000_000_000, 90.0f64.to_bits()),
        ],
    }];

    let request = build_write_request(&exports, &store, &[]).unwrap();

    assert_eq!(request.timeseries.len(), 1);
    let ts = &request.timeseries[0];
    assert_eq!(ts.labels.len(), 2);
    assert_eq!(ts.labels[0].name, "__name__");
    assert_eq!(ts.labels[0].value, "cpu");
    assert_eq!(ts.labels[1].name, "host");
    assert_eq!(ts.labels[1].value, "web1");
    assert_eq!(ts.samples.len(), 2);
    assert_eq!(f64::from_bits(ts.samples[0].value_bits), 85.5);
}

#[test]
fn test_series_not_found_error() {
    let store = create_test_store();

    let bogus_handle = SeriesHandle { schema_index: 0, series_id: 99, column: 99 };
    let exports = vec![SeriesExport {
        handle: bogus_handle,
        points: vec![(1_000_000_000_000_000_000, 1.0f64.to_bits())],
    }];

    let result = build_write_request(&exports, &store, &[]);
    assert!(result.is_err());
}

#[test]
fn test_config_builder() {
    let config = RemoteWriteConfig::new("http://example.com/write".to_string())
        .with_header("Authorization".to_string(), "Bearer token123".to_string())
        .with_timeout(10_000)
        .with_max_retries(5);

    assert_eq!(config.endpoint, "http://example.com/write");
    assert_eq!(config.timeout_ms, 10_000);
    assert_eq!(config.max_retries, 5);
    assert_eq!(config.headers.len(), 1);
    assert_eq!(config.headers[0].0, "Authorization");
    assert_eq!(config.headers[0].1, "Bearer token123");
}
