use heliosdb_lite::dump_file::{dump_file_header, parse_dump, push_end_marker, push_incremental_marker, push_table_section, push_table_sections, validate_dump_bytes, TableSection};
use heliosdb_lite::dump_format::{read_metadata_frame, write_metadata_frame, CompressionType, DumpError, DumpFormat};
use heliosdb_lite::dump_manager::{checksum_text, compress_batch, decompress_batch, DirtyTracker, DumpHistory, DumpMetadata, DumpType};

#[test]
fn format_test_compression_roundtrip() {
    let data = b"Hello, World! This is test data for compression.";

    for compression in [CompressionType::Uncompressed, CompressionType::Zstd, CompressionType::Gzip, CompressionType::Brotli] {
        let compressed = DumpFormat::compress(data, compression).unwrap();
        let decompressed = DumpFormat::decompress(&compressed, compression).unwrap();
        assert_eq!(data.as_ref(), decompressed.as_slice());
    }
}

#[test]
fn manager_test_compression_roundtrip() {
    let test_data = b"Hello, World! This is test data for compression.".repeat(100);
    let compressed = compress_batch(&test_data, CompressionType::Zstd).unwrap();
    let decompressed = decompress_batch(&compressed, CompressionType::Zstd).unwrap();

    assert_eq!(test_data.to_vec(), decompressed);
    assert!(compressed.len() < test_data.len());
}

#[test]
fn test_get_next_dump_id() {
    let mut history = DumpHistory::new();

    let id1 = history.get_next_dump_id();
    let id2 = history.get_next_dump_id();
    let id3 = history.get_next_dump_id();

    assert_eq!(id1, 1);
    assert_eq!(id2, 2);
    assert_eq!(id3, 3);
}

#[test]
fn test_checksum_calculation() {
    let checksum1 = checksum_text(b"test data for checksum");
    let checksum2 = checksum_text(b"test data for checksum");
    assert_eq!(checksum1, checksum2);

    let checksum3 = checksum_text(b"different test data");
    assert_ne!(checksum1, checksum3);
}

#[test]
fn checksum_is_crc32_hex() {
    assert_eq!(checksum_text(b"123456789"), "cbf43926");
    assert_eq!(checksum_text(b""), "00000000");
}

#[test]
fn compression_names() {
    assert_eq!(CompressionType::from_str("ZSTD").unwrap(), CompressionType::Zstd);
    assert_eq!(CompressionType::from_str("none").unwrap(), CompressionType::Uncompressed);
    assert_eq!(CompressionType::from_str("gzip").unwrap(), CompressionType::Gzip);
    match CompressionType::from_str("lz4") {
        Err(DumpError::Config(m)) => assert_eq!(m, "Unknown compression type: lz4"),
        other => panic!("unexpected {:?}", other),
    }
    assert_eq!(CompressionType::Brotli.extension(), ".br");
    assert_eq!(CompressionType::Uncompressed.extension(), "");
}

#[test]
fn metadata_frame_roundtrip() {
    let frame = write_metadata_frame(b"{\"lsn\":100}");
    assert_eq!(read_metadata_frame(&frame).unwrap(), b"{\"lsn\":100}".to_vec());
    assert!(read_metadata_frame(&frame[..10]).is_err());
}

#[test]
fn dump_file_roundtrip() {
    let mut out = dump_file_header();
    push_incremental_marker(&mut out);
    let batches = vec![vec![1u8, 2, 3], vec![4]];
    push_table_section(&mut out, "users", b"schema", b"idx", 2, &batches);
    push_table_section(&mut out, "orders", b"", b"", 0, &vec![]);
    push_end_marker(&mut out);
    let tables = parse_dump(&out).unwrap();
    assert_eq!(tables.len(), 2);
    assert_eq!(tables[0].name, "users");
    assert_eq!(tables[0].schema, b"schema".to_vec());
    assert_eq!(tables[0].indexes, b"idx".to_vec());
    assert_eq!(tables[0].row_count, 2);
    assert_eq!(tables[0].batches, batches);
    assert_eq!(tables[1].name, "orders");
    assert!(tables[1].batches.is_empty());
}

#[test]
fn dump_file_rejects_bad_headers() {
    assert!(matches!(parse_dump(b"short"), Err(DumpError::Storage(_))));
    let mut bad = dump_file_header();
    bad[0] ^= 0xff;
    match parse_dump(&bad) {
        Err(DumpError::Storage(m)) => assert_eq!(m, "Invalid dump file: bad magic bytes"),
        other => panic!("unexpected {:?}", other),
    }
    let mut wrong_version = dump_file_header();
    wrong_version[8] = 2;
    match parse_dump(&wrong_version) {
        Err(DumpError::Storage(m)) => assert_eq!(m, "Unsupported dump version: 2"),
        other => panic!("unexpected {:?}", other),
    }
    let header_only = dump_file_header();
    assert_eq!(parse_dump(&header_only).unwrap().len(), 0);
}

#[test]
fn dump_history_lookup() {
    let mut history = DumpHistory::new();
    history.record(DumpMetadata::new(7, DumpType::Full));
    assert_eq!(history.get_dump_metadata(7).unwrap().dump_id, 7);
    assert!(history.get_dump_metadata(8).is_err());
}

#[test]
fn dump_error_messages() {
    assert_eq!(DumpError::Io("x".to_string()).message(), "I/O error: x");
}

#[test]
fn table_sections_roundtrip_and_refusal() {
    let users = TableSection {
        name: "users".to_string(),
        schema: b"s".to_vec(),
        indexes: vec![],
        row_count: 3,
        batches: vec![vec![9u8, 8], vec![7]],
    };
    let logs = TableSection { name: "logs".to_string(), schema: vec![], indexes: vec![], row_count: 0, batches: vec![] };
    let mut out = dump_file_header();
    push_table_sections(&mut out, &[users.clone(), logs.clone()]).unwrap();
    push_end_marker(&mut out);
    let back = parse_dump(&out).unwrap();
    assert_eq!(back.len(), 2);
    assert_eq!(back[0].name, "users");
    assert_eq!(back[0].batches, users.batches);
    assert_eq!(back[0].row_count, 3);
    assert_eq!(back[1].name, "logs");

    let bad = TableSection { name: "bad".to_string(), schema: vec![], indexes: vec![], row_count: 1, batches: vec![vec![]] };
    let mut out2 = dump_file_header();
    let before = out2.clone();
    match push_table_sections(&mut out2, &[logs, bad]) {
        Err(DumpError::Storage(m)) => assert_eq!(m, "Table section cannot be framed: bad"),
        other => panic!("unexpected {:?}", other),
    }
    assert_eq!(out2, before);
}

#[test]
fn test_dirty_tracker() {
    let mut tracker = DirtyTracker::new();

    assert!(!tracker.is_dirty());

    tracker.mark_table_dirty("users");
    assert!(tracker.is_dirty());

    let dirty_tables = tracker.get_dirty_tables();
    assert_eq!(dirty_tables.len(), 1);
    assert!(dirty_tables.contains(&"users".to_string()));

    tracker.clear_dirty();
    assert!(!tracker.is_dirty());
    assert_eq!(tracker.get_dirty_tables().len(), 0);
}

#[test]
fn dump_dirty_tracker_lists_each_table_once() {
    let mut tracker = DirtyTracker::default();
    assert!(tracker.time_since_last_dump().is_none());
    tracker.mark_dirty();
    assert!(tracker.is_dirty());
    assert!(tracker.get_dirty_tables().is_empty());
    tracker.mark_table_dirty("a");
    tracker.mark_table_dirty("b");
    tracker.mark_table_dirty("a");
    let mut t = tracker.get_dirty_tables();
    t.sort();
    assert_eq!(t, vec!["a".to_string(), "b".to_string()]);
    tracker.clear_dirty();
    assert!(tracker.time_since_last_dump().is_some());
}

#[test]
fn dump_header_validation() {
    let header = dump_file_header();
    assert!(validate_dump_bytes(&header).is_ok());
    assert!(validate_dump_bytes(&header[..12]).is_ok());
    match validate_dump_bytes(&header[..5]) {
        Err(DumpError::Storage(m)) => assert_eq!(m, "Failed to read magic bytes: failed to fill whole buffer"),
        other => panic!("unexpected {:?}", other),
    }
    match validate_dump_bytes(&header[..10]) {
        Err(DumpError::Storage(m)) => assert_eq!(m, "Failed to read version: failed to fill whole buffer"),
        other => panic!("unexpected {:?}", other),
    }
    let mut bad = header.clone();
    bad[0] = b'X';
    match validate_dump_bytes(&bad) {
        Err(DumpError::Storage(m)) => assert_eq!(m, "Invalid dump file: bad magic bytes"),
        other => panic!("unexpected {:?}", other),
    }
    let mut newer = header.clone();
    newer[8] = 9;
    match validate_dump_bytes(&newer) {
        Err(DumpError::Storage(m)) => assert_eq!(m, "Unsupported dump version: 9"),
        other => panic!("unexpected {:?}", other),
    }
    let mut older = header.clone();
    older[8] = 0;
    assert!(validate_dump_bytes(&older).is_ok());
}

#[test]
fn dump_ids_are_v4_uuids() {
    let m = heliosdb_lite::dump_format::DumpMetadata::new(7, CompressionType::Zstd, false);
    let id: Vec<char> = m.dump_id.chars().collect();
    assert_eq!(id.len(), 36);
    for (i, c) in id.iter().enumerate() {
        if [8, 13, 18, 23].contains(&i) {
            assert_eq!(*c, '-');
        } else {
            assert!(c.is_ascii_hexdigit() && !c.is_ascii_uppercase());
        }
    }
    assert_eq!(id[14], '4');
    assert_eq!(m.lsn, 7);
    assert_ne!(m.dump_id, heliosdb_lite::dump_format::DumpMetadata::new(7, CompressionType::Zstd, false).dump_id);
}
