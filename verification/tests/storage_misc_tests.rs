use heliosdb_lite::columnar::{ColumnBatch, ColumnarStore, BATCH_SIZE};
use heliosdb_lite::compression::{CompressionCodec, CompressionManager};
use heliosdb_lite::content_addr::{encode, ContentAddressedStore, CAS_MIN_SIZE};
use heliosdb_lite::dictionary::ColumnDictionary;
use heliosdb_lite::value::Value;

#[test]
fn test_batch_location() {
    assert_eq!(ColumnarStore::batch_location(0), (0, 0));
    assert_eq!(ColumnarStore::batch_location(1023), (0, 1023));
    assert_eq!(ColumnarStore::batch_location(1024), (1, 0));
    assert_eq!(ColumnarStore::batch_location(2047), (1, 1023));
    assert_eq!(ColumnarStore::batch_location(2048), (2, 0));
}

#[test]
fn test_column_dictionary_basic() {
    let mut dict = ColumnDictionary::new();

    let id1 = dict.encode("pending");
    let id2 = dict.encode("shipped");
    let id3 = dict.encode("pending");

    assert_eq!(id1, 0);
    assert_eq!(id2, 1);
    assert_eq!(id3, 0);

    assert_eq!(dict.decode(0), Some("pending"));
    assert_eq!(dict.decode(1), Some("shipped"));
    assert_eq!(dict.decode(2), None);

    assert_eq!(dict.len(), 2);
}

#[test]
fn dictionary_contains_and_values() {
    let mut dict = ColumnDictionary::new();
    assert!(dict.is_empty());
    dict.encode("a");
    dict.encode("b");
    assert!(dict.contains("a"));
    assert!(!dict.contains("c"));
    assert_eq!(dict.values().len(), 2);
}

#[test]
fn columnar_keys_and_batches() {
    assert_eq!(ColumnarStore::batch_key("t", "c", 3), b"col:t:c:3".to_vec());
    assert_eq!(ColumnarStore::column_prefix("t", "c"), b"col:t:c:".to_vec());
    assert_eq!(BATCH_SIZE, 1024);
    let mut batch = ColumnBatch::new("c", 1024);
    assert_eq!(batch.get(1024), Some(&Value::Null));
    assert_eq!(batch.count_non_null(), 0);
    batch.set(1025, Value::Int4(7));
    assert_eq!(batch.get(1025), Some(&Value::Int4(7)));
    assert_eq!(batch.get(1024), Some(&Value::Null));
    assert_eq!(batch.count_non_null(), 1);
    assert_eq!(batch.get(5), None);
    assert_eq!(batch.get(1024 + BATCH_SIZE as u64), None);
    assert!(!batch.set(5, Value::Int4(1)));
}

#[test]
fn test_cas_compute_hash() {
    let value = Value::String("test content".to_string());
    let hash1 = ContentAddressedStore::compute_hash(&value);
    let hash2 = ContentAddressedStore::compute_hash(&value);

    assert!(hash1.is_some());
    assert_eq!(hash1, hash2);
}

#[test]
fn test_cas_deduplication() {
    let content = Value::String("y".repeat(2000));
    let ref1 = ContentAddressedStore::maybe_store_entry(&content).unwrap();
    let ref2 = ContentAddressedStore::maybe_store_entry(&content).unwrap();
    match (ref1.reference, ref2.reference) {
        (Value::CasRef { hash: h1 }, Value::CasRef { hash: h2 }) => assert_eq!(h1, h2),
        _ => panic!("Expected CasRef values"),
    }
}

#[test]
fn cas_small_values_stay_inline() {
    assert!(ContentAddressedStore::maybe_store_entry(&Value::String("hello".to_string())).is_none());
    assert!(ContentAddressedStore::maybe_store_entry(&Value::Int8(5)).is_none());
    let big = Value::Bytes(vec![0u8; CAS_MIN_SIZE]);
    let e = ContentAddressedStore::maybe_store_entry(&big).unwrap();
    assert_eq!(e.payload, vec![0u8; CAS_MIN_SIZE]);
    assert!(e.key.starts_with(b"cas:"));
}

#[test]
fn cas_hash_is_blake3() {
    let h = ContentAddressedStore::compute_hash(&Value::String("abc".to_string())).unwrap();
    assert_eq!(encode(&h), "6437b3ac38465133ffb63b75273a8db548c558465d79db03fd359c6cd5bd9d85");
    assert!(ContentAddressedStore::compute_hash(&Value::Int4(1)).is_none());
}

#[test]
fn cas_resolve_and_errors() {
    let v = ContentAddressedStore::resolve_bytes(b"abc".to_vec(), true).unwrap();
    assert_eq!(v, Value::String("abc".to_string()));
    let b = ContentAddressedStore::resolve_bytes(vec![0xff], false).unwrap();
    assert_eq!(b, Value::Bytes(vec![0xff]));
    assert!(ContentAddressedStore::resolve_bytes(vec![0xff, 0xfe], true).is_err());
    assert!(ContentAddressedStore::store_entry(&Value::Int8(1)).is_err());
    assert!(matches!(ContentAddressedStore::store_entry(&Value::Null), Ok(None)));
}

#[test]
fn compression_manager_defaults() {
    let m = CompressionManager::new();
    m.rename_table("a", "b");
    assert_eq!(CompressionCodec::default(), CompressionCodec::Uncompressed);
}

#[test]
fn test_cas_small_value_not_stored() {
    // Small value stays inline: nothing is stored and the value is kept as it is
    let small = Value::String("hello".to_string());
    assert!(ContentAddressedStore::maybe_store_entry(&small).is_none());
    match small {
        Value::String(s) => assert_eq!(s, "hello"),
        _ => panic!("Expected the inline String value"),
    }
}

#[test]
fn test_cas_large_value_stored() {
    // Large value is stored under its hash and read back as the same text
    let large = Value::String("x".repeat(2000));
    let entry = ContentAddressedStore::maybe_store_entry(&large).unwrap();
    match entry.reference {
        Value::CasRef { hash } => {
            assert_eq!(entry.key, ContentAddressedStore::cas_key(&hash));
            let resolved = ContentAddressedStore::resolve_bytes(entry.payload.clone(), true).unwrap();
            match resolved {
                Value::String(s) => assert_eq!(s, "x".repeat(2000)),
                _ => panic!("Expected String value"),
            }
        }
        _ => panic!("Expected CasRef"),
    }
}

#[test]
fn test_cas_bytes() {
    // Large bytes are stored and read back as bytes
    let large = Value::Bytes(vec![0u8; 2000]);
    let entry = ContentAddressedStore::maybe_store_entry(&large).unwrap();
    match entry.reference {
        Value::CasRef { .. } => {
            let resolved = ContentAddressedStore::resolve_bytes(entry.payload.clone(), false).unwrap();
            match resolved {
                Value::Bytes(b) => assert_eq!(b.len(), 2000),
                _ => panic!("Expected Bytes value"),
            }
        }
        _ => panic!("Expected CasRef"),
    }
}

/// A column store kept in memory: batch key to batch, in key order.
type BatchStore = std::collections::BTreeMap<Vec<u8>, ColumnBatch>;

fn col_store(db: &mut BatchStore, table: &str, column: &str, row_id: u64, value: Value) -> Result<(), String> {
    let (batch_id, _) = ColumnarStore::batch_location(row_id);
    let key = ColumnarStore::batch_key(table, column, batch_id);
    let batch = ColumnarStore::place(db.get(&key).cloned(), column, row_id, value)?;
    db.insert(key, batch);
    Ok(())
}

fn col_get(db: &BatchStore, table: &str, column: &str, row_id: u64) -> Option<Value> {
    let (batch_id, _) = ColumnarStore::batch_location(row_id);
    let key = ColumnarStore::batch_key(table, column, batch_id);
    db.get(&key).and_then(|b| b.get(row_id).cloned())
}

fn col_scan(db: &BatchStore, table: &str, column: &str) -> Vec<(u64, Value)> {
    let prefix = ColumnarStore::column_prefix(table, column);
    let mut out = Vec::new();
    for (k, b) in db.iter() {
        if k.starts_with(&prefix) {
            out.extend(b.non_null_values());
        }
    }
    out
}

#[test]
fn test_columnar_scan() {
    let mut db = BatchStore::new();

    // Store sparse values
    col_store(&mut db, "test", "col", 0, Value::Int4(100)).unwrap();
    col_store(&mut db, "test", "col", 5, Value::Int4(500)).unwrap();
    col_store(&mut db, "test", "col", 10, Value::Int4(1000)).unwrap();

    // Scan should return only non-null values
    let results = col_scan(&db, "test", "col");
    assert_eq!(results.len(), 3);
    assert_eq!(results[0], (0, Value::Int4(100)));
    assert_eq!(results[1], (5, Value::Int4(500)));
    assert_eq!(results[2], (10, Value::Int4(1000)));
}

#[test]
fn test_columnar_multiple_batches() {
    let mut db = BatchStore::new();

    // Store values across multiple batches
    col_store(&mut db, "test", "col", 0, Value::Int4(1)).unwrap();
    col_store(&mut db, "test", "col", 1023, Value::Int4(2)).unwrap(); // Last in batch 0
    col_store(&mut db, "test", "col", 1024, Value::Int4(3)).unwrap(); // First in batch 1
    col_store(&mut db, "test", "col", 2048, Value::Int4(4)).unwrap(); // First in batch 2

    // Verify all values
    assert_eq!(col_get(&db, "test", "col", 0), Some(Value::Int4(1)));
    assert_eq!(col_get(&db, "test", "col", 1023), Some(Value::Int4(2)));
    assert_eq!(col_get(&db, "test", "col", 1024), Some(Value::Int4(3)));
    assert_eq!(col_get(&db, "test", "col", 2048), Some(Value::Int4(4)));

    // Three batches, four non-null values
    let prefix = ColumnarStore::column_prefix("test", "col");
    let batches: Vec<&ColumnBatch> = db.iter().filter(|(k, _)| k.starts_with(&prefix)).map(|(_, b)| b).collect();
    assert_eq!(batches.len(), 3);
    assert_eq!(batches.iter().map(|b| b.count_non_null()).sum::<usize>(), 4);
}

#[test]
fn test_columnar_delete() {
    let mut db = BatchStore::new();

    // Store and then delete (a delete stores Null)
    col_store(&mut db, "test", "col", 5, Value::Int4(100)).unwrap();
    col_store(&mut db, "test", "col", 5, Value::Null).unwrap();

    // Should be Null now
    assert_eq!(col_get(&db, "test", "col", 5), Some(Value::Null));
}

#[test]
fn columnar_place_refuses_rows_of_other_batches() {
    let batch = ColumnBatch::new("c", 1024);
    match ColumnarStore::place(Some(batch), "c", 5, Value::Int4(1)) {
        Err(m) => assert_eq!(m, "Invalid row_id 5 for batch starting at 1024"),
        Ok(_) => panic!("row 5 is not in the batch starting at 1024"),
    }
    let b = ColumnarStore::place(None, "c", 2050, Value::Int8(7)).unwrap();
    assert_eq!(b.start_row_id, 2048);
    assert_eq!(b.get(2050), Some(&Value::Int8(7)));
    assert_eq!(b.get(2049), Some(&Value::Null));
}
