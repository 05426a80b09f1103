use heliosdb_lite::engine_types::{build_data_key, bulk_load_batches, bulk_load_tally, row_counter_after_load, coerce_pk_value, extract_table_from_key, offset_limit_step, row_id_from_key, ScanStep, StorageStats};
use heliosdb_lite::text::{parse_i16_text, parse_i32_text, parse_i64_text, parse_u64_text};
use heliosdb_lite::value::{DataType, Value};

#[test]
fn test_extract_table_from_key_data_format() {
    let key = b"data:users:42";
    assert_eq!(extract_table_from_key(key), "users");

    let key = b"data:products:12345";
    assert_eq!(extract_table_from_key(key), "products");

    let key = b"data:my_table:1";
    assert_eq!(extract_table_from_key(key), "my_table");

    let key = b"data:user_accounts_2024:999";
    assert_eq!(extract_table_from_key(key), "user_accounts_2024");
}

#[test]
fn test_extract_table_from_key_metadata_format() {
    let key = b"meta:table:users";
    assert_eq!(extract_table_from_key(key), "users");

    let key = b"meta:table:products";
    assert_eq!(extract_table_from_key(key), "products");

    let key = b"meta:counter:users";
    assert_eq!(extract_table_from_key(key), "users");
}

#[test]
fn test_extract_table_from_key_system_keys() {
    let key = b"wal:entries:00000000000000000001";
    assert_eq!(extract_table_from_key(key), "unknown");

    let key = b"wal:last_lsn";
    assert_eq!(extract_table_from_key(key), "unknown");

    let key = b"system:config";
    assert_eq!(extract_table_from_key(key), "unknown");
}

#[test]
fn test_extract_table_from_key_malformed() {
    let key = b"data:users";
    assert_eq!(extract_table_from_key(key), "unknown");

    let key = b"data:";
    assert_eq!(extract_table_from_key(key), "unknown");

    let invalid_utf8: Vec<u8> = vec![0xFF, 0xFE, 0xFD];
    assert_eq!(extract_table_from_key(&invalid_utf8), "unknown");

    let key = b"";
    assert_eq!(extract_table_from_key(key), "unknown");
}

#[test]
fn test_extract_table_from_key_edge_cases() {
    let key = b"data:table_with_underscores:1";
    assert_eq!(extract_table_from_key(key), "table_with_underscores");

    let long_table_name = "very_long_table_name_that_might_be_used_in_some_applications";
    let key = format!("data:{}:42", long_table_name).into_bytes();
    assert_eq!(extract_table_from_key(&key), long_table_name);

    let key = b"data:table123:456";
    assert_eq!(extract_table_from_key(key), "table123");
}

#[test]
fn data_key_roundtrip() {
    let key = build_data_key("orders", 17);
    assert_eq!(key, b"data:orders:17".to_vec());
    assert_eq!(extract_table_from_key(&key), "orders");
    assert_eq!(extract_table_from_key(&build_data_key("", 0)), "");
    assert_eq!(extract_table_from_key("data:ünï:1".as_bytes()), "ünï");
}

#[test]
fn storage_stats_from_estimates() {
    let s = StorageStats::from_estimates(Some(10), None);
    assert_eq!(s.approximate_size, 10);
    assert_eq!(s.key_count, 0);
}

#[test]
fn row_id_from_data_keys() {
    assert_eq!(row_id_from_key(&build_data_key("users", 42), "users"), Some(42));
    assert_eq!(row_id_from_key(&build_data_key("users", u64::MAX), "users"), Some(u64::MAX));
    assert_eq!(row_id_from_key(b"data:users:42", "user"), None);
    assert_eq!(row_id_from_key(b"data:users:4x2", "users"), None);
    assert_eq!(row_id_from_key(b"data:users:", "users"), None);
    assert_eq!(row_id_from_key(b"data:users:+7", "users"), Some(7));
    assert_eq!(row_id_from_key(b"data:users:18446744073709551616", "users"), None);
    assert_eq!(row_id_from_key(&[0xff, 0xfe], "users"), None);
}

#[test]
fn integer_text_parsing_matches_std() {
    let cases = ["0", "42", "+42", "-42", "", "+", "-", "4 2", "9223372036854775807", "9223372036854775808",
        "-9223372036854775808", "-9223372036854775809", "18446744073709551615", "18446744073709551616",
        "2147483647", "2147483648", "-2147483648", "32767", "-32769", "00012", "-0", "1e3"];
    for c in cases {
        assert_eq!(parse_u64_text(c), c.parse::<u64>().ok(), "u64 {}", c);
        assert_eq!(parse_i64_text(c), c.parse::<i64>().ok(), "i64 {}", c);
        assert_eq!(parse_i32_text(c), c.parse::<i32>().ok(), "i32 {}", c);
        assert_eq!(parse_i16_text(c), c.parse::<i16>().ok(), "i16 {}", c);
    }
}

#[test]
fn pk_values_take_the_column_type() {
    assert_eq!(coerce_pk_value(&Value::Int4(1), &DataType::Int8), Value::Int8(1));
    assert_eq!(coerce_pk_value(&Value::Int2(-3), &DataType::Int8), Value::Int8(-3));
    assert_eq!(coerce_pk_value(&Value::Int2(7), &DataType::Int4), Value::Int4(7));
    assert_eq!(coerce_pk_value(&Value::Int8(5), &DataType::Int4), Value::Int4(5));
    assert_eq!(coerce_pk_value(&Value::Int8(70000), &DataType::Int2), Value::Int2(70000i64 as i16));
    assert_eq!(coerce_pk_value(&Value::Int4(9), &DataType::Int2), Value::Int2(9));
    assert_eq!(coerce_pk_value(&Value::String("1".to_string()), &DataType::Int8), Value::Int8(1));
    assert_eq!(coerce_pk_value(&Value::String("-12".to_string()), &DataType::Int4), Value::Int4(-12));
    assert_eq!(coerce_pk_value(&Value::String("40000".to_string()), &DataType::Int2), Value::String("40000".to_string()));
    assert_eq!(coerce_pk_value(&Value::String("abc".to_string()), &DataType::Int8), Value::String("abc".to_string()));
    assert_eq!(coerce_pk_value(&Value::Int8(5), &DataType::Int8), Value::Int8(5));
    assert_eq!(coerce_pk_value(&Value::Int4(5), &DataType::Text), Value::Int4(5));
}

#[test]
fn offset_limit_scan_takes_the_window() {
    // five rows of the table, then keys of another table
    let keys = [true, true, true, true, true, false, false];
    let (offset, limit) = (2usize, 2usize);
    let (mut taken, mut skipped) = (0usize, 0usize);
    let mut rows = Vec::new();
    for (pos, in_table) in keys.iter().enumerate() {
        match offset_limit_step(taken, skipped, offset, limit, *in_table) {
            ScanStep::Take => {
                rows.push(pos);
                taken += 1;
            }
            ScanStep::Skip => skipped += 1,
            ScanStep::Pass => {}
            ScanStep::Stop => break,
        }
    }
    assert_eq!(rows, vec![2, 3]);
    assert_eq!(offset_limit_step(0, 0, 0, 0, true), ScanStep::Stop);
    assert_eq!(offset_limit_step(0, 0, 1, 5, false), ScanStep::Pass);
    assert_eq!(offset_limit_step(0, 1, 1, 5, false), ScanStep::Stop);
}

#[test]
fn bulk_load_batching_and_tally() {
    assert_eq!(bulk_load_batches(5, 2), vec![(0, 2), (2, 4), (4, 5)]);
    assert_eq!(bulk_load_batches(4, 2), vec![(0, 2), (2, 4)]);
    assert_eq!(bulk_load_batches(3, 0), vec![(0, 1), (1, 2), (2, 3)]);
    assert_eq!(bulk_load_batches(0, 10), vec![]);
    assert_eq!(bulk_load_batches(3, 100), vec![(0, 3)]);
    let rows = vec![(4u64, vec![1u8, 2]), (9u64, vec![3u8]), (2u64, vec![])];
    assert_eq!(bulk_load_tally(&rows), (3, 3, 9));
    assert_eq!(bulk_load_tally(&[]), (0, 0, 0));
    assert_eq!(row_counter_after_load(None, 9), 10);
    assert_eq!(row_counter_after_load(Some(5), 9), 10);
    assert_eq!(row_counter_after_load(Some(50), 9), 50);
    assert_eq!(row_counter_after_load(Some(9), 9), 10);
}
