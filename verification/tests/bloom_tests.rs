use heliosdb_lite::bloom_filter::{BlockBloomFilter, BloomFilter, ColumnBloomFilter, TableBloomFilters};
use heliosdb_lite::value::Value;

/// The shape a filter gets for an expected element count at a 1% false-positive rate.
fn shape_for(expected: usize) -> (usize, usize) {
    let n = expected as f64;
    let p: f64 = 0.01;
    let ln2 = std::f64::consts::LN_2;
    let m = -(n * p.ln()) / (ln2 * ln2);
    let bits = (m.ceil() as usize).max(64);
    let k = (bits as f64 / n) * ln2;
    (bits, (k.ceil() as usize).clamp(1, 16))
}

fn for_elements(expected: usize) -> BloomFilter {
    let (bits, hashes) = shape_for(expected);
    BloomFilter::with_shape(bits, hashes)
}

#[test]
fn test_bloom_filter_basic() {
    let mut bf = for_elements(1000);

    bf.insert(&"hello");
    bf.insert(&"world");
    bf.insert(&42i64);

    assert!(bf.might_contain(&"hello"));
    assert!(bf.might_contain(&"world"));
    assert!(bf.might_contain(&42i64));
}

#[test]
fn test_bloom_filter_value_types() {
    let mut bf = for_elements(100);

    bf.insert_value(&Value::Int8(42));
    bf.insert_value(&Value::String("test".to_string()));
    bf.insert_value(&Value::Boolean(true));

    assert!(bf.might_contain_value(&Value::Int8(42)));
    assert!(bf.might_contain_value(&Value::String("test".to_string())));
    assert!(bf.might_contain_value(&Value::Boolean(true)));
}

#[test]
fn test_bloom_filter_merge() {
    let mut bf1 = for_elements(100);
    let mut bf2 = BloomFilter::with_shape(bf1.num_bits(), bf1.num_hashes());

    bf1.insert(&"a");
    bf1.insert(&"b");
    bf2.insert(&"c");
    bf2.insert(&"d");

    bf1.merge(&bf2).unwrap();

    assert!(bf1.might_contain(&"a"));
    assert!(bf1.might_contain(&"b"));
    assert!(bf1.might_contain(&"c"));
    assert!(bf1.might_contain(&"d"));
}

#[test]
fn bloom_check_has_no_side_effects() {
    let mut bf = for_elements(10);
    bf.insert(&7u32);
    assert!(bf.check(&7u32));
    let _ = bf.check_value(&Value::Int4(1));
    assert_eq!(bf.stats().lookups, 0);
}

#[test]
fn test_column_bloom_filter() {
    let mut cbf = ColumnBloomFilter::new("status".to_string(), for_elements(10));

    cbf.add(&Value::String("active".to_string()));
    cbf.add(&Value::String("inactive".to_string()));

    assert!(cbf.might_contain(&Value::String("active".to_string())));
    assert!(cbf.might_contain(&Value::String("inactive".to_string())));
}

#[test]
fn test_table_bloom_filters() {
    let mut tbf = TableBloomFilters::new("users".to_string(), for_elements(1000));
    tbf.add_column("status".to_string(), for_elements(5));
    tbf.add_column("name".to_string(), for_elements(500));

    tbf.index_row(1, &[
        ("status".to_string(), Value::String("active".to_string())),
        ("name".to_string(), Value::String("Alice".to_string())),
    ]);

    assert!(tbf.might_contain_value("status", &Value::String("active".to_string())));
    assert!(tbf.might_contain_value("name", &Value::String("Alice".to_string())));
}

#[test]
fn bloom_hash_pairs_have_no_false_negatives() {
    let mut bf = BloomFilter::with_shape(1000, 7);
    assert!(!bf.check_hashes(1, 2));
    bf.insert_hashes(1, 2);
    assert!(bf.check_hashes(1, 2));
    assert!(bf.might_contain_hashes(1, 2));
    assert_eq!(bf.stats().insertions, 1);
    assert_eq!(bf.stats().lookups, 1);
    assert!(bf.stats().set_bits >= 1 && bf.stats().set_bits <= 7);
}

#[test]
fn bloom_shape_and_counters() {
    let mut bf = BloomFilter::with_shape(65, 3);
    assert_eq!(bf.bits_len(), 2);
    assert_eq!(bf.memory_usage(), 16);
    assert_eq!(bf.num_bits(), 65);
    assert_eq!(bf.num_hashes(), 3);
    assert!(!bf.might_contain_hashes(5, 9));
    assert_eq!(bf.stats().true_negatives, 1);
    bf.record_true_positive();
    bf.record_false_positive();
    bf.increment_items_added(4);
    assert_eq!(bf.stats().true_positives, 1);
    assert_eq!(bf.stats().false_positives, 1);
    assert_eq!(bf.stats().insertions, 4);
    bf.apply_delta_bits(0, u64::MAX);
    bf.apply_delta_bits(5, u64::MAX);
    assert!(bf.check_hashes(0, 0));
    bf.clear();
    assert_eq!(bf.stats().insertions, 0);
    assert!(!bf.check_hashes(0, 0));
}

#[test]
fn bloom_merge_refuses_other_shapes() {
    let mut a = BloomFilter::with_shape(128, 3);
    let b = BloomFilter::with_shape(256, 3);
    let err = a.merge(&b).unwrap_err();
    assert_eq!(err, "Cannot merge bloom filters with different configurations");
}

#[test]
fn bloom_rows_and_missing_columns() {
    let mut tbf = TableBloomFilters::new("t".to_string(), BloomFilter::with_shape(512, 4));
    tbf.index_row(9, &[("unknown".to_string(), Value::Int4(1))]);
    assert!(tbf.row_id_filter.might_contain_row(9));
    assert!(tbf.might_contain_value("unknown", &Value::Int4(2)));
    assert_eq!(tbf.memory_usage(), 64);
    tbf.build_from_tuples(&[vec![Value::Int4(1), Value::Null]], &["a".to_string(), "b".to_string()], 128, 2);
    assert_eq!(tbf.column_filters.len(), 2);
    assert_eq!(tbf.column_filters[0].row_count, 1);
    assert!(tbf.might_contain_value("a", &Value::Int4(1)));
    assert!(tbf.column_filters[1].might_contain_check(&Value::Null));
}

#[test]
fn block_bloom_filter_rows_and_columns() {
    let mut block = BlockBloomFilter::new(3, BloomFilter::with_shape(256, 3));
    block.add_column_filter("c".to_string(), BloomFilter::with_shape(256, 3));
    block.add_row(11);
    assert!(block.might_contain_row(11));
    assert!(block.might_contain_in_column("missing", &Value::Int8(1)));
    assert!(!block.might_contain_in_column("c", &Value::Int8(1)));
    assert_eq!(block.block_id, 3);
}
