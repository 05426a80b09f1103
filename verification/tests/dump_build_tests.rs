use heliosdb_lite::dump_build::{
    batch_step, build_full_dump, build_incremental_dump, create_full_dump, create_incremental_dump, plan_incremental_dump,
    restore_tables, row_batches, table_step, totals_fit, DatabaseInterface, DatabaseRestoreInterface, RestoreStep, TableRows,
};
use heliosdb_lite::dump_file::parse_dump;
use heliosdb_lite::dump_format::{CompressionType, DumpError};
use heliosdb_lite::dump_manager::{checksum_text, DirtyTracker, DumpHistory, DumpType, IndexMetadata};

#[test]
fn row_batches_cover_the_rows() {
    assert!(row_batches(0).is_empty());
    assert_eq!(row_batches(1), vec![(0, 1)]);
    assert_eq!(row_batches(1000), vec![(0, 1000)]);
    assert_eq!(row_batches(2500), vec![(0, 1000), (1000, 2000), (2000, 2500)]);
}

fn table(name: &str, rows: u64, batches: Vec<Vec<u8>>) -> TableRows {
    TableRows { name: name.to_string(), schema: vec![1, 2], indexes: vec![3], row_count: rows, batches }
}

#[test]
fn full_dump_reads_back() {
    let tables = vec![table("users", 2, vec![vec![9, 9, 9]]), table("orders", 0, vec![])];
    let (bytes, m) = build_full_dump(&tables, CompressionType::Uncompressed, 7).unwrap();
    assert_eq!(m.dump_id, 7);
    assert_eq!(m.dump_type, DumpType::Full);
    assert_eq!(m.table_count, 2);
    assert_eq!(m.total_rows, 2);
    assert_eq!(m.uncompressed_size, 3 + 3 + 3);
    assert_eq!(m.compressed_size, bytes.len() as u64);
    assert_eq!(m.checksum, checksum_text(&bytes));
    assert_eq!(&bytes[bytes.len() - 4..], b"ENDD");
    let sections = parse_dump(&bytes).unwrap();
    assert_eq!(sections.len(), 2);
    assert_eq!(sections[0].name, "users");
    assert_eq!(sections[0].batches, vec![vec![9u8, 9, 9]]);
    assert_eq!(sections[1].row_count, 0);
}

#[test]
fn full_dump_compresses_batches() {
    let raw = vec![5u8; 4000];
    let tables = vec![table("t", 1000, vec![raw.clone()])];
    let (bytes, m) = build_full_dump(&tables, CompressionType::Zstd, 1).unwrap();
    let sections = parse_dump(&bytes).unwrap();
    assert!(sections[0].batches[0].len() < raw.len());
    assert_eq!(m.uncompressed_size, 3 + 4000);
}

#[test]
fn full_dump_refuses_an_empty_batch() {
    let tables = vec![table("t", 0, vec![vec![]])];
    assert!(matches!(build_full_dump(&tables, CompressionType::Uncompressed, 1), Err(DumpError::Storage(_))));
}

#[test]
fn incremental_plan_needs_dirty_tables() {
    let mut t = DirtyTracker::new();
    assert!(matches!(plan_incremental_dump(&t), Err(DumpError::Storage(m)) if m == "No dirty tables to dump"));
    t.mark_table_dirty("a");
    t.mark_table_dirty("b");
    t.mark_table_dirty("a");
    let mut v = plan_incremental_dump(&t).unwrap();
    v.sort();
    assert_eq!(v, vec!["a".to_string(), "b".to_string()]);
}

#[test]
fn incremental_dump_appends() {
    let tables = vec![table("a", 1, vec![vec![1]])];
    let (first, m1) = build_incremental_dump(&tables, CompressionType::Uncompressed, 1, None, false).unwrap();
    assert_eq!(m1.dump_type, DumpType::Incremental);
    assert_eq!(m1.append_count, 0);
    let (second, m2) = build_incremental_dump(&tables, CompressionType::Uncompressed, 2, Some(first.clone()), true).unwrap();
    assert_eq!(&second[..first.len()], &first[..]);
    assert_eq!(m2.append_count, 1);
    assert_eq!(m2.compressed_size, second.len() as u64);
    let sections = parse_dump(&second).unwrap();
    assert_eq!(sections.len(), 2);
    assert!(totals_fit(&tables));
}

struct MemDb {
    tables: Vec<(String, Vec<u32>)>,
}

impl DatabaseInterface for MemDb {
    type Row = u32;
    fn list_tables(&self) -> Result<Vec<String>, DumpError> {
        Ok(self.tables.iter().map(|t| t.0.clone()).collect())
    }
    fn get_table_schema(&self, table: &str) -> Result<Vec<u8>, DumpError> {
        Ok(table.as_bytes().to_vec())
    }
    fn scan_table(&self, table: &str) -> Result<Vec<u32>, DumpError> {
        Ok(self.tables.iter().find(|t| t.0 == table).map(|t| t.1.clone()).unwrap_or_default())
    }
    fn get_table_indexes(&self, _table: &str) -> Result<Vec<IndexMetadata>, DumpError> {
        Err(DumpError::Storage("no indexes".to_string()))
    }
    fn serialize_indexes(&self, indexes: &[IndexMetadata]) -> Result<Vec<u8>, DumpError> {
        Ok(vec![indexes.len() as u8])
    }
    fn serialize_rows(&self, rows: &[u32], start: usize, end: usize) -> Result<Vec<u8>, DumpError> {
        Ok(rows[start..end].iter().flat_map(|r| r.to_le_bytes()).collect())
    }
}

#[derive(Default)]
struct Sink {
    created: Vec<String>,
    rows: Vec<u32>,
}

impl DatabaseRestoreInterface for Sink {
    type Row = u32;
    fn create_table(&mut self, name: &str, _schema: &[u8]) -> Result<(), DumpError> {
        self.created.push(name.to_string());
        Ok(())
    }
    fn deserialize_indexes(&self, _bytes: &[u8]) -> Result<Vec<IndexMetadata>, DumpError> {
        Ok(Vec::new())
    }
    fn create_index(&mut self, _table: &str, _index: &IndexMetadata) -> Result<(), DumpError> {
        Ok(())
    }
    fn deserialize_rows(&self, bytes: &[u8]) -> Result<Vec<u32>, DumpError> {
        Ok(bytes.chunks(4).map(|c| u32::from_le_bytes([c[0], c[1], c[2], c[3]])).collect())
    }
    fn insert_row(&mut self, _table: &str, row: &u32) -> Result<(), DumpError> {
        self.rows.push(*row);
        Ok(())
    }
}

#[test]
fn database_dump_and_restore() {
    let db = MemDb { tables: vec![("big".to_string(), (0..2500).collect()), ("small".to_string(), vec![7])] };
    let mut history = DumpHistory::new();
    let mut dirty = DirtyTracker::new();
    dirty.mark_table_dirty("big");
    let (bytes, m) = create_full_dump(&db, &mut history, &mut dirty, CompressionType::Zstd).unwrap();
    assert_eq!(m.dump_id, 1);
    assert_eq!(history.entries.len(), 1);
    assert_eq!(history.next_dump_id, 2);
    assert!(dirty.get_dirty_tables().is_empty());
    assert!(!dirty.is_dirty());
    assert_eq!(&bytes[..8], b"HELIODMP");
    assert_eq!(m.table_count, 2);
    assert_eq!(m.total_rows, 2501);
    let sections = parse_dump(&bytes).unwrap();
    assert_eq!(sections[0].batches.len(), 3);
    assert_eq!(sections[0].indexes, vec![0u8]);
    let mut sink = Sink::default();
    let n = restore_tables(&mut sink, &sections, CompressionType::Zstd).unwrap();
    assert_eq!(n, 2);
    assert_eq!(sink.rows.len(), 2501);
    assert_eq!(sink.created, vec!["big".to_string(), "small".to_string()]);
    assert_eq!(sink.rows[2499], 2499);
    assert_eq!(sink.rows[2500], 7);
}

#[test]
fn database_incremental_dump() {
    let db = MemDb { tables: vec![("a".to_string(), vec![1, 2])] };
    let mut dirty = DirtyTracker::new();
    let mut history = DumpHistory::new();
    assert!(create_incremental_dump(&db, &mut history, &mut dirty, CompressionType::Zstd, None, false).is_err());
    assert_eq!(history.next_dump_id, 1);
    dirty.mark_table_dirty("a");
    let (bytes, m) = create_incremental_dump(&db, &mut history, &mut dirty, CompressionType::Zstd, None, false).unwrap();
    assert_eq!(m.dump_type, DumpType::Incremental);
    assert_eq!(m.dump_id, 1);
    assert_eq!(&bytes[..8], b"HELIODMP");
    assert_eq!(&bytes[8..12], &1u32.to_le_bytes());
    assert!(dirty.get_dirty_tables().is_empty());
    assert_eq!(history.entries.len(), 1);
    assert_eq!(m.table_count, 1);
    assert_eq!(m.total_rows, 2);
    assert_eq!(parse_dump(&bytes).unwrap()[0].name, "a");
}

#[test]
fn restore_steps_of_a_table() {
    let tables = vec![table("t", 2, vec![vec![4, 5], vec![6]])];
    let (bytes, _) = build_full_dump(&tables, CompressionType::Zstd, 1).unwrap();
    let sections = parse_dump(&bytes).unwrap();
    let t = &sections[0];
    assert!(matches!(table_step(t, 0), RestoreStep::CreateTable { table, schema } if table == "t" && schema == vec![1u8, 2]));
    assert!(matches!(table_step(t, 1), RestoreStep::CreateIndexes { table, indexes } if table == "t" && indexes == vec![3u8]));
    assert!(matches!(batch_step(t, CompressionType::Zstd, 0), Ok(RestoreStep::InsertRows { batch, .. }) if batch == vec![4u8, 5]));
    assert!(matches!(batch_step(t, CompressionType::Zstd, 1), Ok(RestoreStep::InsertRows { batch, .. }) if batch == vec![6u8]));
    let mut bad = t.clone();
    bad.batches[0] = vec![1, 2, 3];
    assert!(matches!(batch_step(&bad, CompressionType::Zstd, 0), Err(DumpError::Compression(_))));
}
