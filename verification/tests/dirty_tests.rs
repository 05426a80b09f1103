use heliosdb_lite::dirty_tracker::{ChangeType, DirtyState, DirtyTrackerError};

#[test]
fn test_track_insert() {
    let mut tracker = DirtyState::new();
    assert!(!tracker.is_dirty());

    let values = vec![1, 2, 3, 4];
    tracker.track_insert("users", "key1", &values).unwrap();

    assert!(tracker.is_dirty());
    assert_eq!(tracker.get_dirty_count(), 1);
}

#[test]
fn test_track_update() {
    let mut tracker = DirtyState::new();

    let old_values = vec![1, 2, 3];
    let new_values = vec![4, 5, 6];
    tracker.track_update("users", "key1", &old_values, &new_values).unwrap();

    assert!(tracker.is_dirty());
    assert_eq!(tracker.get_dirty_count(), 1);

    let changes = tracker.get_changes_since(0);
    assert_eq!(changes.len(), 1);
    assert_eq!(changes[0].change_type, ChangeType::Update);
    assert_eq!(changes[0].table_name, "users");
    assert_eq!(changes[0].row_key, "key1");
    assert_eq!(changes[0].old_values, Some(old_values));
    assert_eq!(changes[0].new_values, Some(new_values));
}

#[test]
fn test_track_delete() {
    let mut tracker = DirtyState::new();

    let values = vec![1, 2, 3];
    tracker.track_delete("users", "key1", &values).unwrap();

    assert!(tracker.is_dirty());
    assert_eq!(tracker.get_dirty_count(), 1);

    let changes = tracker.get_changes_since(0);
    assert_eq!(changes.len(), 1);
    assert_eq!(changes[0].change_type, ChangeType::Delete);
    assert!(changes[0].new_values.is_none());
    assert!(changes[0].old_values.is_some());
}

#[test]
fn test_dirty_state_flag() {
    let mut tracker = DirtyState::new();
    assert!(!tracker.is_dirty());

    tracker.track_insert("users", "key1", &[1, 2, 3]).unwrap();
    assert!(tracker.is_dirty());

    tracker.clear_dirty_state().unwrap();
    assert!(!tracker.is_dirty());
}

#[test]
fn test_changes_since_sequence() {
    let mut tracker = DirtyState::new();

    tracker.track_insert("users", "key1", &[1]).unwrap();
    tracker.track_insert("users", "key2", &[2]).unwrap();
    tracker.track_insert("users", "key3", &[3]).unwrap();

    assert_eq!(tracker.get_changes_since(0).len(), 3);
    assert_eq!(tracker.get_changes_since(1).len(), 2);
    assert_eq!(tracker.get_changes_since(2).len(), 1);
    assert_eq!(tracker.get_changes_since(3).len(), 0);
}

#[test]
fn test_get_dirty_tables() {
    let mut tracker = DirtyState::new();

    tracker.track_insert("users", "key1", &[1]).unwrap();
    tracker.track_insert("orders", "key2", &[2]).unwrap();
    tracker.track_insert("users", "key3", &[3]).unwrap();
    tracker.track_insert("products", "key4", &[4]).unwrap();

    let mut tables = tracker.get_dirty_tables();
    tables.sort();

    assert_eq!(tables, vec!["orders", "products", "users"]);
}

#[test]
fn test_buffer_overflow_handling() {
    let mut tracker = DirtyState::with_max_buffer_size(3);

    tracker.track_insert("users", "key1", &[1]).unwrap();
    tracker.track_insert("users", "key2", &[2]).unwrap();
    tracker.track_insert("users", "key3", &[3]).unwrap();
    tracker.track_insert("users", "key4", &[4]).unwrap();
    tracker.track_insert("users", "key5", &[5]).unwrap();

    let changes = tracker.get_changes_since(0);
    assert_eq!(changes.len(), 3);
    assert_eq!(changes[0].row_key, "key3");
    assert_eq!(changes[1].row_key, "key4");
    assert_eq!(changes[2].row_key, "key5");
}

#[test]
fn test_clear_dirty_state_incremental() {
    let mut tracker = DirtyState::new();

    tracker.track_insert("users", "key1", &[1]).unwrap();
    tracker.track_insert("users", "key2", &[2]).unwrap();
    assert_eq!(tracker.get_dirty_count(), 2);

    tracker.clear_dirty_state().unwrap();
    assert!(!tracker.is_dirty());
    assert_eq!(tracker.get_dirty_count(), 0);

    tracker.track_insert("users", "key3", &[3]).unwrap();
    tracker.track_insert("users", "key4", &[4]).unwrap();
    assert_eq!(tracker.get_dirty_count(), 2);

    let all_changes = tracker.get_changes_since(0);
    assert_eq!(all_changes.len(), 4);

    let last_dump = tracker.last_dump_sequence_number();
    let dirty_changes = tracker.get_changes_since(last_dump);
    assert_eq!(dirty_changes.len(), 2);
}

#[test]
fn test_invalid_parameters() {
    let mut tracker = DirtyState::new();

    let result = tracker.track_insert("", "key1", &[1, 2, 3]);
    assert!(result.is_err());

    let result = tracker.track_insert("users", "", &[1, 2, 3]);
    assert!(result.is_err());
}

#[test]
fn test_sequence_numbers_monotonic() {
    let mut tracker = DirtyState::new();

    tracker.track_insert("users", "key1", &[1]).unwrap();
    let seq1 = tracker.current_sequence_number();

    tracker.track_insert("users", "key2", &[2]).unwrap();
    let seq2 = tracker.current_sequence_number();

    tracker.track_insert("users", "key3", &[3]).unwrap();
    let seq3 = tracker.current_sequence_number();

    assert!(seq2 > seq1);
    assert!(seq3 > seq2);
}

#[test]
fn dirty_error_messages() {
    let e = DirtyTrackerError::BufferOverflow { max_size: 3, current_size: 4 };
    assert_eq!(e.message(), "Buffer overflow: current size 4 exceeds max 3");
    match DirtyState::new().track_insert("", "k", &[]) {
        Err(DirtyTrackerError::InvalidParameter(m)) => assert!(!m.is_empty()),
        other => panic!("unexpected {:?}", other),
    }
}
