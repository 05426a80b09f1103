use heliosdb_lite::delta_tracker::FilterIndexDeltaTracker;
use heliosdb_lite::filter_delta::{BulkLoadReason, FilterDeltaType, FilterIndexConfig};
use heliosdb_lite::value::Value;
use std::sync::atomic::Ordering;

fn create_test_schema() -> Vec<String> {
    vec!["id".to_string(), "name".to_string(), "value".to_string()]
}

fn create_test_tuple() -> Vec<Value> {
    vec![Value::Int8(1), Value::String("test".to_string()), Value::Int8(314)]
}

#[test]
fn test_on_insert_creates_deltas() {
    let mut tracker = FilterIndexDeltaTracker::new(FilterIndexConfig::default());
    let schema = create_test_schema();
    let tuple = create_test_tuple();

    tracker.on_insert("test_table", 0, &schema, &tuple);

    let stats = tracker.stats();
    assert_eq!(stats.total_operations, 1);
    assert_eq!(stats.tables_tracked, 1);
}

#[test]
fn test_bloom_delta_computation() {
    let tracker = FilterIndexDeltaTracker::new(FilterIndexConfig::default());
    let value = Value::Int8(42);

    let delta = tracker.compute_bloom_delta("col", &value);

    assert!(!delta.bits_to_set.is_empty());
    assert_eq!(delta.rows_added, 1);
}

#[test]
fn test_consolidation_threshold() {
    let mut config = FilterIndexConfig::default();
    config.delta_threshold = 5;
    let mut tracker = FilterIndexDeltaTracker::new(config);
    let schema = create_test_schema();
    let tuple = create_test_tuple();

    for i in 0..10 {
        tracker.on_insert("test_table", i, &schema, &tuple);
    }

    let tables = tracker.tables_needing_consolidation();
    assert!(tables.contains(&"test_table".to_string()));
}

#[test]
fn test_bulk_load_suspension() {
    let mut tracker = FilterIndexDeltaTracker::new(FilterIndexConfig::default());
    let schema = create_test_schema();
    let tuple = create_test_tuple();

    tracker.suspend_table("bulk_table", BulkLoadReason::MultiRowInsert);
    assert!(tracker.is_suspended("bulk_table"));
    assert_eq!(tracker.get_suspension_info("bulk_table").unwrap().reason, BulkLoadReason::MultiRowInsert);

    for i in 0..100 {
        tracker.on_insert("bulk_table", i, &schema, &tuple);
    }

    let stats = tracker.stats();
    assert_eq!(stats.total_operations, 0);
    assert_eq!(stats.suspended_tables, 1);

    let rows = tracker.get_suspension_info("bulk_table").unwrap().rows_affected.load(Ordering::Relaxed);
    assert_eq!(rows, 100);

    let info = tracker.resume_table("bulk_table").unwrap();
    tracker.mark_for_rebuild("bulk_table", info.rows_affected.load(Ordering::Relaxed));

    assert!(!tracker.is_suspended("bulk_table"));

    tracker.on_insert("bulk_table", 100, &schema, &tuple);
    let stats = tracker.stats();
    assert_eq!(stats.total_operations, 1);
    assert_eq!(stats.suspended_tables, 0);
}

#[test]
fn test_global_enable_disable() {
    let mut tracker = FilterIndexDeltaTracker::new(FilterIndexConfig::default());
    let schema = create_test_schema();
    let tuple = create_test_tuple();

    assert!(tracker.is_enabled());

    tracker.set_enabled(false);
    assert!(!tracker.is_enabled());

    tracker.on_insert("test_table", 0, &schema, &tuple);
    let stats = tracker.stats();
    assert_eq!(stats.total_operations, 0);

    tracker.set_enabled(true);
    assert!(tracker.is_enabled());

    tracker.on_insert("test_table", 1, &schema, &tuple);
    let stats = tracker.stats();
    assert_eq!(stats.total_operations, 1);
}

#[test]
fn test_multiple_tables_suspension() {
    let mut tracker = FilterIndexDeltaTracker::new(FilterIndexConfig::default());
    let schema = create_test_schema();
    let tuple = create_test_tuple();

    tracker.suspend_table("table1", BulkLoadReason::CopyFrom);
    tracker.suspend_table("table2", BulkLoadReason::InsertSelect);

    assert!(tracker.is_suspended("table1"));
    assert!(tracker.is_suspended("table2"));
    assert!(!tracker.is_suspended("table3"));

    tracker.on_insert("table1", 0, &schema, &tuple);
    tracker.on_insert("table3", 0, &schema, &tuple);

    let stats = tracker.stats();
    assert_eq!(stats.total_operations, 1);
    assert_eq!(stats.suspended_tables, 2);

    let suspended = tracker.list_suspended_tables();
    assert_eq!(suspended.len(), 2);
}

#[test]
fn tracker_update_delete_and_handover() {
    let mut tracker = FilterIndexDeltaTracker::new(FilterIndexConfig::default());
    let schema = create_test_schema();
    let old_row = create_test_tuple();
    let mut new_row = create_test_tuple();
    new_row[1] = Value::String("changed".to_string());

    tracker.on_update("t", 5, &schema, &old_row, &new_row);
    tracker.on_delete("t", 2500, &schema, &new_row);
    tracker.on_insert("u", 1, &schema, &old_row);

    let stats = tracker.stats();
    assert_eq!(stats.total_operations, 3);
    assert_eq!(stats.current_seq, 3);
    assert_eq!(stats.tables_tracked, 2);
    assert_eq!(stats.total_buffered_deltas, 3);
    assert_eq!(stats.pending_deltas, 3);

    let t = tracker.get_table_deltas("t").unwrap();
    assert_eq!(t.delta_count, 2);
    assert_eq!(t.bloom_deltas.len(), 1);
    assert!(t.bloom_deltas.contains_key("name"));
    assert_eq!(t.zone_deltas.len(), 2);
    assert_eq!(t.zone_deltas[&2].rows_affected, 1);
    assert!(tracker.get_table_deltas("t").is_none());

    let pending = tracker.take_pending_deltas();
    assert_eq!(pending.len(), 3);
    assert_eq!(pending[0].delta_type, FilterDeltaType::Update);
    assert_eq!(pending[1].delta_type, FilterDeltaType::Delete);
    assert_eq!(pending[2].table_name, "u");
    assert_eq!(pending[2].seq, 2);
    assert!(tracker.take_pending_deltas().is_empty());
    assert_eq!(tracker.stats().tables_tracked, 1);
}

#[test]
fn tracker_trims_pending_and_sets_threshold() {
    let mut config = FilterIndexConfig::default();
    config.max_buffered_deltas = 4;
    config.enable_bloom = false;
    let mut tracker = FilterIndexDeltaTracker::new(config);
    for i in 0..5 {
        tracker.on_insert("t", i, &create_test_schema(), &create_test_tuple());
    }
    assert_eq!(tracker.stats().pending_deltas, 3);
    let t = tracker.get_table_deltas("t").unwrap();
    assert!(t.bloom_deltas.is_empty());
    assert_eq!(t.delta_count, 5);
    assert_eq!(tracker.bulk_load_threshold(), 10000);
    tracker.set_bulk_load_threshold(5);
    assert_eq!(tracker.bulk_load_threshold(), 5);
}
