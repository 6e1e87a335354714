//! Tests for series registration and the registry.

use rondo::error::RondoError;
use rondo::schema::{LabelMatcher, SchemaConfig, TierConfig};
use rondo::series::{SeriesHandle, SeriesIndex, SeriesInfo, SeriesRegistry};
use rondo::slab::Slab;

const SEC: u64 = 1_000_000_000;

fn pairs(items: &[(&str, &str)]) -> Vec<(String, String)> {
    items.iter().map(|(k, v)| (k.to_string(), v.to_string())).collect()
}

fn test_schema(name: &str, matcher: &[(&str, &str)], max_series: u32) -> SchemaConfig {
    SchemaConfig {
        name: name.to_string(),
        label_matcher: LabelMatcher::new(pairs(matcher)),
        tiers: vec![TierConfig {
            interval_ns: SEC,
            retention_ns: 3600 * SEC,
            consolidation_fn: None,
        }],
        max_series,
    }
}

fn test_labels() -> Vec<(String, String)> {
    pairs(&[("type", "cpu"), ("host", "web1")])
}

#[test]
fn test_series_handle_creation() {
    let handle = SeriesHandle::new(1, 42, 100);
    assert_eq!(handle.schema_index, 1);
    assert_eq!(handle.series_id, 42);
    assert_eq!(handle.column, 100);
}

#[test]
fn test_series_info() {
    let info = SeriesInfo::new("cpu.usage".to_string(), test_labels(), 0, 1, 5);

    assert_eq!(info.name, "cpu.usage");
    assert_eq!(info.labels, test_labels());
    assert_eq!(info.schema_index, 0);
    assert_eq!(info.series_id, 1);
    assert_eq!(info.column, 5);

    let handle = info.handle();
    assert_eq!(handle.schema_index, 0);
    assert_eq!(handle.series_id, 1);
    assert_eq!(handle.column, 5);
}

#[test]
fn test_registry_new() {
    let schemas = vec![
        test_schema("cpu", &[("type", "cpu")], 100),
        test_schema("mem", &[("type", "memory")], 50),
    ];

    let registry = SeriesRegistry::new(schemas);
    assert_eq!(registry.schemas().len(), 2);
    assert_eq!(registry.total_series_count(), 0);
    assert_eq!(registry.series_count(0), 0);
    assert_eq!(registry.series_count(1), 0);
}

#[test]
fn test_register_new_series() {
    let schemas = vec![test_schema("cpu", &[("type", "cpu")], 100)];
    let mut registry = SeriesRegistry::new(schemas);

    let handle = registry.register("cpu.usage", &test_labels()).unwrap();

    assert_eq!(handle.schema_index, 0);
    assert_eq!(handle.series_id, 0);
    assert_eq!(handle.column, 0);
    assert_eq!(registry.series_count(0), 1);
    assert_eq!(registry.total_series_count(), 1);
}

#[test]
fn test_register_existing_series_returns_same_handle() {
    let schemas = vec![test_schema("cpu", &[("type", "cpu")], 100)];
    let mut registry = SeriesRegistry::new(schemas);

    let handle1 = registry.register("cpu.usage", &test_labels()).unwrap();
    let handle2 = registry.register("cpu.usage", &test_labels()).unwrap();

    assert_eq!(handle1, handle2);
    assert_eq!(registry.series_count(0), 1);
}

#[test]
fn test_register_different_labels_different_handles() {
    let schemas = vec![test_schema("cpu", &[("type", "cpu")], 100)];
    let mut registry = SeriesRegistry::new(schemas);

    let labels1 = pairs(&[("type", "cpu"), ("host", "web1")]);
    let labels2 = pairs(&[("type", "cpu"), ("host", "web2")]);

    let handle1 = registry.register("cpu.usage", &labels1).unwrap();
    let handle2 = registry.register("cpu.usage", &labels2).unwrap();

    assert_ne!(handle1, handle2);
    assert_eq!(handle1.series_id, 0);
    assert_eq!(handle2.series_id, 1);
    assert_eq!(handle1.column, 0);
    assert_eq!(handle2.column, 1);
}

#[test]
fn test_register_max_series_exceeded() {
    let schemas = vec![test_schema("cpu", &[("type", "cpu")], 1)];
    let mut registry = SeriesRegistry::new(schemas);

    let labels1 = pairs(&[("type", "cpu"), ("host", "web1")]);
    let labels2 = pairs(&[("type", "cpu"), ("host", "web2")]);

    registry.register("cpu.usage", &labels1).unwrap();
    let result = registry.register("cpu.usage", &labels2);
    assert!(result.is_err());
    assert!(matches!(
        result.unwrap_err(),
        RondoError::Series(rondo::error::SeriesError::MaxSeriesExceeded { .. })
    ));
}

#[test]
fn test_register_no_matching_schema() {
    let schemas = vec![test_schema("cpu", &[("type", "cpu")], 100)];
    let mut registry = SeriesRegistry::new(schemas);

    let labels = pairs(&[("type", "memory")]);
    let result = registry.register("mem.usage", &labels);
    assert!(result.is_err());
    assert!(matches!(
        result.unwrap_err(),
        RondoError::Series(rondo::error::SeriesError::NoMatchingSchema { .. })
    ));
}

#[test]
fn test_get_handle() {
    let schemas = vec![test_schema("cpu", &[("type", "cpu")], 100)];
    let mut registry = SeriesRegistry::new(schemas);

    assert!(registry.get_handle("cpu.usage", &test_labels()).is_none());

    let handle = registry.register("cpu.usage", &test_labels()).unwrap();
    let retrieved = registry.get_handle("cpu.usage", &test_labels()).unwrap();
    assert_eq!(handle, retrieved);
}

#[test]
fn test_series_info_lookup() {
    let schemas = vec![test_schema("cpu", &[("type", "cpu")], 100)];
    let mut registry = SeriesRegistry::new(schemas);

    let handle = registry.register("cpu.usage", &test_labels()).unwrap();

    let info = registry.series_info(&handle).unwrap();
    assert_eq!(info.name, "cpu.usage");
    assert_eq!(info.labels, test_labels());
    assert_eq!(info.handle(), handle);
}

#[test]
fn test_label_validation() {
    let schemas = vec![test_schema("any", &[], 100)];
    let mut registry = SeriesRegistry::new(schemas);

    assert!(registry.register("", &test_labels()).is_err());

    let invalid = pairs(&[("", "value")]);
    assert!(registry.register("test", &invalid).is_err());

    let invalid = pairs(&[("key", "")]);
    assert!(registry.register("test", &invalid).is_err());

    let invalid = pairs(&[("__reserved", "value")]);
    assert!(registry.register("test", &invalid).is_err());
}

#[test]
fn test_series_key_label_sorting() {
    // label order never makes a new series
    let schemas = vec![test_schema("any", &[], 100)];
    let mut registry = SeriesRegistry::new(schemas);

    let forward = pairs(&[("a", "1"), ("b", "2")]);
    let backward = pairs(&[("b", "2"), ("a", "1")]);

    let handle1 = registry.register("test", &forward).unwrap();
    let handle2 = registry.register("test", &backward).unwrap();
    assert_eq!(handle1, handle2);
    assert_eq!(registry.total_series_count(), 1);
    assert_eq!(registry.get_handle("test", &backward), Some(handle1));
}

#[test]
fn test_save_and_load() {
    // the registry round-trips through its stored index form
    let schemas = vec![
        test_schema("cpu", &[("type", "cpu")], 100),
        test_schema("mem", &[("type", "memory")], 50),
    ];

    let mut registry = SeriesRegistry::new(schemas.clone());
    let cpu_labels = pairs(&[("type", "cpu"), ("host", "web1")]);
    let mem_labels = pairs(&[("type", "memory"), ("host", "web1")]);
    let cpu_handle = registry.register("cpu.usage", &cpu_labels).unwrap();
    let mem_handle = registry.register("mem.usage", &mem_labels).unwrap();

    let (ids, cols) = registry.counters();
    let index = SeriesIndex {
        series: registry.series_list().clone(),
        next_series_id: ids.clone(),
        next_column: cols.clone(),
    };
    let loaded = SeriesRegistry::from_index(schemas, index).unwrap();

    assert_eq!(loaded.total_series_count(), 2);
    assert_eq!(loaded.series_count(0), 1);
    assert_eq!(loaded.series_count(1), 1);
    assert_eq!(loaded.get_handle("cpu.usage", &cpu_labels), Some(cpu_handle));
    assert_eq!(loaded.get_handle("mem.usage", &mem_labels), Some(mem_handle));
    let info = loaded.series_info(&cpu_handle).unwrap();
    assert_eq!(info.name, "cpu.usage");
    assert_eq!(info.labels, cpu_labels);
}

#[test]
fn test_from_index_rejects_incoherent_data() {
    let schemas = vec![test_schema("any", &[], 100)];
    // counter vectors must line up with the schemas
    let index = SeriesIndex { series: Vec::new(), next_series_id: vec![0, 0], next_column: vec![0, 0] };
    assert!(SeriesRegistry::from_index(schemas.clone(), index).is_err());
    // a record above its schema's counter is rejected
    let index = SeriesIndex {
        series: vec![SeriesInfo::new("x".to_string(), Vec::new(), 0, 5, 5)],
        next_series_id: vec![3],
        next_column: vec![3],
    };
    assert!(SeriesRegistry::from_index(schemas, index).is_err());
}

#[test]
fn test_multiple_schemas() {
    let schemas = vec![
        test_schema("cpu", &[("type", "cpu")], 100),
        test_schema("mem", &[("type", "memory")], 50),
    ];
    let mut registry = SeriesRegistry::new(schemas);

    let cpu_labels = pairs(&[("type", "cpu"), ("host", "web1")]);
    let mem_labels = pairs(&[("type", "memory"), ("host", "web1")]);

    let cpu_handle = registry.register("cpu.usage", &cpu_labels).unwrap();
    let mem_handle = registry.register("mem.usage", &mem_labels).unwrap();

    assert_eq!(cpu_handle.schema_index, 0);
    assert_eq!(mem_handle.schema_index, 1);
    assert_eq!(cpu_handle.series_id, 0);
    assert_eq!(mem_handle.series_id, 0);
    assert_eq!(cpu_handle.column, 0);
    assert_eq!(mem_handle.column, 0);
}

#[test]
fn test_multi_schema_registration() {
    let cpu_schema = test_schema("cpu_metrics", &[("type", "cpu")], 50);
    let mut memory_schema = test_schema("memory_metrics", &[("type", "memory")], 30);
    memory_schema.tiers[0].interval_ns = 5 * SEC;
    memory_schema.tiers[0].retention_ns = 7200 * SEC;

    let mut registry = SeriesRegistry::new(vec![cpu_schema, memory_schema]);

    let cpu_labels = pairs(&[("type", "cpu"), ("host", "server1")]);
    let memory_labels = pairs(&[("type", "memory"), ("host", "server1")]);

    let cpu_handle = registry.register("cpu.usage", &cpu_labels).unwrap();
    let memory_handle = registry.register("memory.usage", &memory_labels).unwrap();

    assert_eq!(cpu_handle.schema_index, 0);
    assert_eq!(memory_handle.schema_index, 1);
    assert_eq!(cpu_handle.column, 0);
    assert_eq!(memory_handle.column, 0);
    assert_eq!(registry.series_count(0), 1);
    assert_eq!(registry.series_count(1), 1);
    assert_eq!(registry.total_series_count(), 2);
}

#[test]
fn test_series_registration_integration() {
    let schema = test_schema("test_metrics", &[("service", "web")], 100);
    let mut registry = SeriesRegistry::new(vec![schema.clone()]);

    let labels1 = pairs(&[("service", "web"), ("host", "server1")]);
    let labels2 = pairs(&[("service", "web"), ("host", "server2")]);

    let handle1 = registry.register("cpu.usage", &labels1).unwrap();
    let handle2 = registry.register("memory.usage", &labels2).unwrap();

    assert_eq!(handle1.schema_index, 0);
    assert_eq!(handle2.schema_index, 0);
    assert_ne!(handle1.series_id, handle2.series_id);
    assert_ne!(handle1.column, handle2.column);

    // sync the registrations into a slab's directory
    let mut slab = Slab::new(schema.stable_hash(), 3600, schema.max_series, SEC);
    registry.sync_to_slab(0, &mut slab);

    assert_eq!(slab.series_count(), 2);
    assert_eq!(slab.get_series_column(handle1.series_id), Some(handle1.column));
    assert_eq!(slab.get_series_column(handle2.series_id), Some(handle2.column));
}
