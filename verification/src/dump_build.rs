//! Building dump files: rows are cut into batches of 1000, each batch is
//! compressed, the tables are framed into sections, and the metadata counts
//! the tables, the rows and the bytes. The database is read through
//! `DatabaseInterface`, which hands over serialized schemas, index lists and
//! row batches; restoring hands the rows back through
//! `DatabaseRestoreInterface`.
use vstd::prelude::*;
use crate::dump_file::{
    encode_sections, end_marker, file_header, incremental_marker, law_full_dump_roundtrip, parse_dump_spec,
    push_end_marker, push_incremental_marker, push_table_sections, section_encodable, section_model, SectionModel,
    TableSection, ParseFailure, dump_file_header,
};
use crate::dump_format::{CompressionType, DumpError, dump_magic, le32_bytes, DUMP_VERSION};
use crate::dump_manager::{
    checksum_text, compress_batch, decompress_batch, crc32_of, name_views, zstd_bulk_encoded, DirtyTracker, DumpHistory, DumpMetadata, DumpType,
};
use crate::text::hex_spec;

verus! {

/// Rows per compressed batch of a dump.
pub const DUMP_BATCH_ROWS: usize = 1000;

/// The end of batch `i` of `n` rows: the next thousand, or `n`.
pub open spec fn batch_end(n: int, i: int) -> int {
    if 1000 * (i + 1) < n {
        1000 * (i + 1)
    } else {
        n
    }
}

/// The row ranges `(start, end)` of the batches of `n` rows: contiguous, in
/// order, 1000 rows each but the last, together `0..n`.
pub fn row_batches(n: usize) -> (r: Vec<(usize, usize)>)
    ensures
        forall|i: int| 0 <= i < r@.len() ==> (#[trigger] r@[i]).0 == 1000 * i && r@[i].1 == batch_end(n as int, i),
        forall|i: int| 0 <= i < r@.len() ==> (#[trigger] r@[i]).0 < r@[i].1,
        r@.len() == 0 <==> n == 0,
        r@.len() > 0 ==> r@[r@.len() - 1].1 == n,
{
    let mut r: Vec<(usize, usize)> = Vec::new();
    let mut start: usize = 0;
    while start < n
        invariant
            start <= n,
            start < n ==> start == 1000 * r@.len(),
            r@.len() == 0 ==> start == 0,
            forall|i: int| 0 <= i < r@.len() ==> (#[trigger] r@[i]).0 == 1000 * i && r@[i].1 == batch_end(n as int, i),
            forall|i: int| 0 <= i < r@.len() ==> (#[trigger] r@[i]).0 < r@[i].1,
            r@.len() > 0 ==> r@[r@.len() - 1].1 == start,
        decreases n - start,
    {
        let end: usize = if n - start > DUMP_BATCH_ROWS {
            start + DUMP_BATCH_ROWS
        } else {
            n
        };
        let ghost k = r@.len() as int;
        r.push((start, end));
        proof {
            assert(r@[k] == (start, end));
            assert(end == batch_end(n as int, k));
        }
        start = end;
    }
    r
}

/// A table to dump: its name, its serialized schema and index list, its row
/// count, and its rows serialized batch by batch (by `row_batches`).
pub struct TableRows {
    /// Table name
    pub name: String,
    /// Serialized schema
    pub schema: Vec<u8>,
    /// Serialized index list
    pub indexes: Vec<u8>,
    /// Number of rows
    pub row_count: u64,
    /// Serialized row batches, uncompressed
    pub batches: Vec<Vec<u8>>,
}

/// A batch as a dump stores it: as it is, or zstd-compressed.
pub open spec fn stored_batch(x: Seq<u8>, c: CompressionType) -> Seq<u8> {
    if c == CompressionType::Uncompressed {
        x
    } else {
        zstd_bulk_encoded(x)
    }
}

/// A stored batch decodes back to the batch: what `decompress_batch` makes
/// of the stored bytes is the serialized rows.
pub open spec fn batch_restores(x: Seq<u8>, c: CompressionType) -> bool {
    c != CompressionType::Uncompressed ==> crate::dump_manager::zstd_bulk_decoded(zstd_bulk_encoded(x)) == x
}

/// Every batch of the tables decodes back from its stored form.
pub open spec fn tables_restore(ts: Seq<TableRows>, c: CompressionType) -> bool {
    forall|i: int, j: int| 0 <= i < ts.len() && 0 <= j < ts[i].batches@.len() ==> #[trigger] batch_restores(ts[i].batches@[j]@, c)
}

/// A table as a dump stores it.
pub open spec fn stored_section(t: TableRows, c: CompressionType) -> SectionModel {
    SectionModel {
        name: t.name@,
        schema: t.schema@,
        indexes: t.indexes@,
        row_count: t.row_count,
        batches: t.batches@.map_values(|v: Vec<u8>| stored_batch(v@, c)),
    }
}

/// The tables as a dump stores them.
pub open spec fn stored_sections(ts: Seq<TableRows>, c: CompressionType) -> Seq<SectionModel> {
    ts.map_values(|t: TableRows| stored_section(t, c))
}

/// The sum of a sequence of counts.
pub open spec fn sum_of(s: Seq<nat>) -> nat
    decreases s.len(),
{
    if s.len() == 0 {
        0
    } else {
        sum_of(s.drop_last()) + s.last()
    }
}

proof fn lemma_sum_step(s: Seq<nat>, i: int)
    requires
        0 <= i < s.len(),
    ensures
        sum_of(s.take(i + 1)) == sum_of(s.take(i)) + s[i],
{
    assert(s.take(i + 1).drop_last() =~= s.take(i));
}

proof fn lemma_sum_prefix(s: Seq<nat>, i: int)
    requires
        0 <= i <= s.len(),
    ensures
        sum_of(s.take(i)) <= sum_of(s),
    decreases s.len() - i,
{
    if i == s.len() {
        assert(s.take(i) =~= s);
    } else {
        lemma_sum_prefix(s, i + 1);
        lemma_sum_step(s, i);
    }
}

/// The uncompressed bytes of a table: schema, index list and row batches.
pub open spec fn table_bytes(t: TableRows) -> nat {
    t.schema@.len() + t.indexes@.len() + sum_of(t.batches@.map_values(|v: Vec<u8>| v@.len()))
}

/// The rows of the tables, all together.
pub open spec fn rows_total(ts: Seq<TableRows>) -> nat {
    sum_of(ts.map_values(|t: TableRows| t.row_count as nat))
}

/// The uncompressed bytes of the tables, all together.
pub open spec fn bytes_total(ts: Seq<TableRows>) -> nat {
    sum_of(ts.map_values(|t: TableRows| table_bytes(t)))
}

/// The section of a table: its batches compressed, the rest as it is; and
/// the table's uncompressed bytes.
pub fn table_section(t: &TableRows, compression: CompressionType) -> (r: (TableSection, u64))
    requires
        table_bytes(*t) <= u64::MAX,
    ensures
        section_model(r.0) == stored_section(*t, compression),
        r.1 == table_bytes(*t),
        forall|j: int| 0 <= j < t.batches@.len() ==> #[trigger] batch_restores(t.batches@[j]@, compression),
{
    let ghost lens = t.batches@.map_values(|v: Vec<u8>| v@.len());
    let mut batches: Vec<Vec<u8>> = Vec::new();
    let mut raw: u64 = t.schema.len() as u64 + t.indexes.len() as u64;
    let mut i: usize = 0;
    proof {
        assert(lens.take(0) =~= Seq::<nat>::empty());
    }
    while i < t.batches.len()
        invariant
            i <= t.batches@.len(),
            lens == t.batches@.map_values(|v: Vec<u8>| v@.len()),
            table_bytes(*t) <= u64::MAX,
            batches@.len() == i,
            forall|j: int| 0 <= j < i ==> (#[trigger] batches@[j])@ == stored_batch(t.batches@[j]@, compression),
            forall|j: int| 0 <= j < i ==> #[trigger] batch_restores(t.batches@[j]@, compression),
            raw == t.schema@.len() + t.indexes@.len() + sum_of(lens.take(i as int)),
        decreases t.batches@.len() - i,
    {
        proof {
            lemma_sum_step(lens, i as int);
            lemma_sum_prefix(lens, i as int + 1);
        }
        let b = &t.batches[i];
        raw = raw + b.len() as u64;
        match compress_batch(b.as_slice(), compression) {
            Ok(c) => batches.push(c),
            Err(_) => {
                proof {
                    assert(false);
                }
            },
        }
        i = i + 1;
    }
    proof {
        assert(lens.take(i as int) =~= lens);
    }
    let s = TableSection {
        name: t.name.clone(),
        schema: t.schema.clone(),
        indexes: t.indexes.clone(),
        row_count: t.row_count,
        batches,
    };
    proof {
        assert(section_model(s).batches =~= stored_section(*t, compression).batches);
    }
    (s, raw)
}

/// The sections of the tables, with their rows and uncompressed bytes counted.
fn table_sections(tables: &[TableRows], compression: CompressionType) -> (r: (Vec<TableSection>, u64, u64))
    requires
        rows_total(tables@) <= u64::MAX,
        bytes_total(tables@) <= u64::MAX,
    ensures
        r.0@.len() == tables@.len(),
        forall|i: int| 0 <= i < tables@.len() ==> section_model(#[trigger] r.0@[i]) == stored_section(tables@[i], compression),
        r.1 == rows_total(tables@),
        r.2 == bytes_total(tables@),
        tables_restore(tables@, compression),
{
    let ghost rs = tables@.map_values(|t: TableRows| t.row_count as nat);
    let ghost bs = tables@.map_values(|t: TableRows| table_bytes(t));
    let mut out: Vec<TableSection> = Vec::new();
    let mut rows: u64 = 0;
    let mut bytes: u64 = 0;
    let mut i: usize = 0;
    proof {
        assert(rs.take(0) =~= Seq::<nat>::empty());
        assert(bs.take(0) =~= Seq::<nat>::empty());
    }
    while i < tables.len()
        invariant
            i <= tables@.len(),
            rs == tables@.map_values(|t: TableRows| t.row_count as nat),
            bs == tables@.map_values(|t: TableRows| table_bytes(t)),
            rows_total(tables@) <= u64::MAX,
            bytes_total(tables@) <= u64::MAX,
            out@.len() == i,
            forall|j: int| 0 <= j < i ==> section_model(#[trigger] out@[j]) == stored_section(tables@[j], compression),
            forall|a: int, j: int| 0 <= a < i && 0 <= j < tables@[a].batches@.len() ==> #[trigger] batch_restores(tables@[a].batches@[j]@, compression),
            rows == sum_of(rs.take(i as int)),
            bytes == sum_of(bs.take(i as int)),
        decreases tables@.len() - i,
    {
        proof {
            lemma_sum_step(rs, i as int);
            lemma_sum_prefix(rs, i as int + 1);
            lemma_sum_step(bs, i as int);
            lemma_sum_prefix(bs, i as int + 1);
        }
        let (s, b) = table_section(&tables[i], compression);
        out.push(s);
        rows = rows + tables[i].row_count;
        bytes = bytes + b;
        i = i + 1;
    }
    proof {
        assert(rs.take(i as int) =~= rs);
        assert(bs.take(i as int) =~= bs);
    }
    (out, rows, bytes)
}

/// A full dump of the tables: the file header with an empty metadata region,
/// each table's section (batches compressed), and the end marker; with its
/// metadata: the tables, rows, uncompressed bytes, file size and checksum of
/// the file. It fails, naming the table, when a section cannot be framed (a
/// length over `u32`, or an empty batch).
pub fn build_full_dump(tables: &[TableRows], compression: CompressionType, dump_id: u64) -> (r: Result<(Vec<u8>, DumpMetadata), DumpError>)
    requires
        rows_total(tables@) <= u64::MAX,
        bytes_total(tables@) <= u64::MAX,
        tables@.len() <= u32::MAX,
    ensures
        r is Ok <==> forall|i: int| 0 <= i < tables@.len() ==> section_encodable(#[trigger] stored_section(tables@[i], compression)),
        r matches Ok((b, m)) ==> {
            &&& b@ == file_header(b@.subrange(12, 8204)) + encode_sections(stored_sections(tables@, compression)) + end_marker()
            &&& parse_dump_spec(b@) == Ok::<Seq<SectionModel>, ParseFailure>(stored_sections(tables@, compression))
            &&& m.dump_id == dump_id
            &&& m.dump_type == DumpType::Full
            &&& m.table_count == tables@.len()
            &&& m.total_rows == rows_total(tables@)
            &&& m.uncompressed_size == bytes_total(tables@)
            &&& m.compressed_size == b@.len()
            &&& m.checksum@ == hex_spec(crc32_of(b@) as nat, 8)
            &&& m.append_count == 0
            &&& tables_restore(tables@, compression)
        },
        r matches Err(e) ==> e matches DumpError::Storage(t) && "Table section cannot be framed: "@.is_prefix_of(t@),
{
    let (sections, rows, bytes) = table_sections(tables, compression);
    let mut out = dump_file_header();
    let ghost h = out@;
    proof {
        assert(h =~= file_header(h.subrange(12, 8204)));
        assert(sections@.len() == tables@.len());
        assert forall|i: int| 0 <= i < tables@.len() implies (section_encodable(section_model(#[trigger] sections@[i]))
            <==> section_encodable(stored_section(tables@[i], compression))) by {
            assert(section_model(sections@[i]) == stored_section(tables@[i], compression));
        }
        assert(crate::dump_file::section_models(sections@) =~= stored_sections(tables@, compression));
    }
    match push_table_sections(&mut out, sections.as_slice()) {
        Ok(()) => {},
        Err(e) => {
            proof {
                let i = choose|i: int| 0 <= i < sections@.len() && !section_encodable(section_model(#[trigger] sections@[i]));
                assert(!section_encodable(stored_section(tables@[i], compression)));
            }
            return Err(e);
        },
    }
    proof {
        assert forall|i: int| 0 <= i < tables@.len() implies section_encodable(#[trigger] stored_section(tables@[i], compression)) by {
            assert(section_model(sections@[i]) == stored_section(tables@[i], compression));
        }
    }
    push_end_marker(&mut out);
    proof {
        assert(out@.subrange(12, 8204) =~= h.subrange(12, 8204));
        assert(out@ =~= file_header(out@.subrange(12, 8204)) + encode_sections(stored_sections(tables@, compression)) + end_marker());
        assert forall|i: int| 0 <= i < stored_sections(tables@, compression).len() implies section_encodable(
            #[trigger] stored_sections(tables@, compression)[i],
        ) by {
            assert(section_encodable(section_model(sections@[i])));
        }
        law_full_dump_roundtrip(out@.subrange(12, 8204), stored_sections(tables@, compression));
    }
    let mut m = DumpMetadata::new(dump_id, DumpType::Full);
    m.table_count = tables.len() as u32;
    m.total_rows = rows;
    m.uncompressed_size = bytes;
    m.compressed_size = out.len() as u64;
    m.checksum = checksum_text(out.as_slice());
    Ok((out, m))
}

/// What `decompress_batch` makes of a stored batch.
pub open spec fn restored_batch(x: Seq<u8>, c: CompressionType) -> Seq<u8> {
    if c == CompressionType::Uncompressed {
        x
    } else {
        crate::dump_manager::zstd_bulk_decoded(x)
    }
}

/// A dump reads back as the tables written into it: the sections that
/// `parse_dump_spec` reads from a dump built by `build_full_dump` carry each
/// table's name, schema, index list and row count, and each batch
/// decompresses to the table's serialized rows.
pub proof fn law_dump_reads_back_tables(ts: Seq<TableRows>, c: CompressionType, b: Seq<u8>)
    requires
        parse_dump_spec(b) == Ok::<Seq<SectionModel>, ParseFailure>(stored_sections(ts, c)),
        tables_restore(ts, c),
    ensures
        parse_dump_spec(b) matches Ok(ss) && ss.len() == ts.len() && forall|i: int| 0 <= i < ts.len() ==> {
            &&& (#[trigger] ss[i]).name == ts[i].name@
            &&& ss[i].schema == ts[i].schema@
            &&& ss[i].indexes == ts[i].indexes@
            &&& ss[i].row_count == ts[i].row_count
            &&& ss[i].batches.len() == ts[i].batches@.len()
            &&& forall|j: int| 0 <= j < ts[i].batches@.len() ==> restored_batch(#[trigger] ss[i].batches[j], c) == ts[i].batches@[j]@
        },
{
    let ss = stored_sections(ts, c);
    assert forall|i: int| 0 <= i < ts.len() implies {
        &&& (#[trigger] ss[i]).name == ts[i].name@
        &&& ss[i].schema == ts[i].schema@
        &&& ss[i].indexes == ts[i].indexes@
        &&& ss[i].row_count == ts[i].row_count
        &&& ss[i].batches.len() == ts[i].batches@.len()
        &&& forall|j: int| 0 <= j < ts[i].batches@.len() ==> restored_batch(#[trigger] ss[i].batches[j], c) == ts[i].batches@[j]@
    } by {
        assert(ss[i] == stored_section(ts[i], c));
        assert forall|j: int| 0 <= j < ts[i].batches@.len() implies restored_batch(#[trigger] ss[i].batches[j], c) == ts[i].batches@[j]@ by {
            assert(batch_restores(ts[i].batches@[j]@, c));
        }
    }
}

/// The tables an incremental dump holds: the dirty ones, each once; an error
/// when no table is dirty.
pub fn plan_incremental_dump(t: &DirtyTracker) -> (r: Result<Vec<String>, DumpError>)
    requires
        t.wf(),
    ensures
        r is Err <==> t.tables_spec().is_empty(),
        r matches Ok(v) ==> name_views(v@).to_set() == t.tables_spec() && name_views(v@).no_duplicates(),
        r matches Err(e) ==> e matches DumpError::Storage(m) && m@ == "No dirty tables to dump"@,
{
    let v = t.get_dirty_tables();
    if v.len() == 0 {
        proof {
            assert(name_views(v@) =~= Seq::<Seq<char>>::empty());
            assert(t.tables_spec() =~= Set::<Seq<char>>::empty());
        }
        Err(DumpError::Storage(String::from_str("No dirty tables to dump")))
    } else {
        proof {
            assert(t.tables_spec().contains(name_views(v@)[0]));
        }
        Ok(v)
    }
}

/// An incremental dump of the tables: after the existing file (or, for a new
/// file, the header with an empty metadata region), the incremental marker
/// and each table's section; with its metadata: the tables, rows,
/// uncompressed bytes, size and checksum of the whole file, and one append
/// when `append` is asked. It fails, naming the table, when a section cannot
/// be framed.
pub fn build_incremental_dump(
    tables: &[TableRows],
    compression: CompressionType,
    dump_id: u64,
    existing: Option<Vec<u8>>,
    append: bool,
) -> (r: Result<(Vec<u8>, DumpMetadata), DumpError>)
    requires
        rows_total(tables@) <= u64::MAX,
        bytes_total(tables@) <= u64::MAX,
        tables@.len() <= u32::MAX,
    ensures
        r is Ok <==> forall|i: int| 0 <= i < tables@.len() ==> section_encodable(#[trigger] stored_section(tables@[i], compression)),
        r matches Ok((b, m)) ==> {
            &&& (existing matches Some(e) ==> b@ == e@ + incremental_marker() + encode_sections(stored_sections(tables@, compression)))
            &&& (existing is None ==> b@ == file_header(b@.subrange(12, 8204)) + incremental_marker() + encode_sections(
                stored_sections(tables@, compression),
            ))
            &&& m.dump_id == dump_id
            &&& m.dump_type == DumpType::Incremental
            &&& m.table_count == tables@.len()
            &&& m.total_rows == rows_total(tables@)
            &&& m.uncompressed_size == bytes_total(tables@)
            &&& m.compressed_size == b@.len()
            &&& m.checksum@ == hex_spec(crc32_of(b@) as nat, 8)
            &&& m.append_count == (if append { 1u32 } else { 0u32 })
            &&& tables_restore(tables@, compression)
        },
        r matches Err(e) ==> e matches DumpError::Storage(t) && "Table section cannot be framed: "@.is_prefix_of(t@),
{
    let (sections, rows, bytes) = table_sections(tables, compression);
    let fresh = existing.is_none();
    let mut out = match existing {
        Some(e) => e,
        None => dump_file_header(),
    };
    let ghost h = out@;
    proof {
        if fresh {
            assert(h =~= file_header(h.subrange(12, 8204)));
        }
        assert forall|i: int| 0 <= i < tables@.len() implies (section_encodable(section_model(#[trigger] sections@[i]))
            <==> section_encodable(stored_section(tables@[i], compression))) by {
            assert(section_model(sections@[i]) == stored_section(tables@[i], compression));
        }
        assert(crate::dump_file::section_models(sections@) =~= stored_sections(tables@, compression));
    }
    push_incremental_marker(&mut out);
    match push_table_sections(&mut out, sections.as_slice()) {
        Ok(()) => {},
        Err(e) => {
            proof {
                let i = choose|i: int| 0 <= i < sections@.len() && !section_encodable(section_model(#[trigger] sections@[i]));
                assert(!section_encodable(stored_section(tables@[i], compression)));
            }
            return Err(e);
        },
    }
    proof {
        assert forall|i: int| 0 <= i < tables@.len() implies section_encodable(#[trigger] stored_section(tables@[i], compression)) by {
            assert(section_model(sections@[i]) == stored_section(tables@[i], compression));
        }
        if fresh {
            assert(out@.subrange(12, 8204) =~= h.subrange(12, 8204));
            assert(out@ =~= file_header(out@.subrange(12, 8204)) + incremental_marker() + encode_sections(
                stored_sections(tables@, compression),
            ));
        }
    }
    let mut m = DumpMetadata::new(dump_id, DumpType::Incremental);
    m.table_count = tables.len() as u32;
    m.total_rows = rows;
    m.uncompressed_size = bytes;
    m.compressed_size = out.len() as u64;
    m.checksum = checksum_text(out.as_slice());
    m.append_count = if append { 1 } else { 0 };
    Ok((out, m))
}


/// The database a dump reads. Schemas, index lists and row batches are
/// handed over serialized; the dump frames and compresses the bytes.
pub trait DatabaseInterface {
    /// A row of a table.
    type Row;

    /// The tables of the database.
    fn list_tables(&self) -> Result<Vec<String>, DumpError>;

    /// The serialized schema of a table.
    fn get_table_schema(&self, table: &str) -> Result<Vec<u8>, DumpError>;

    /// The rows of a table.
    fn scan_table(&self, table: &str) -> Result<Vec<Self::Row>, DumpError>;

    /// The indexes of a table.
    fn get_table_indexes(&self, table: &str) -> Result<Vec<crate::dump_manager::IndexMetadata>, DumpError>;

    /// The serialized form of an index list.
    fn serialize_indexes(&self, indexes: &[crate::dump_manager::IndexMetadata]) -> Result<Vec<u8>, DumpError>;

    /// The serialized form of the rows `start..end`, one batch.
    fn serialize_rows(&self, rows: &[Self::Row], start: usize, end: usize) -> Result<Vec<u8>, DumpError>;
}

/// The database a restore writes. It reads back the serialized schemas,
/// index lists and row batches that a dump holds.
pub trait DatabaseRestoreInterface {
    /// A row of a table.
    type Row;

    /// Create a table with its serialized schema.
    fn create_table(&mut self, name: &str, schema: &[u8]) -> Result<(), DumpError>;

    /// The index list of its serialized form.
    fn deserialize_indexes(&self, bytes: &[u8]) -> Result<Vec<crate::dump_manager::IndexMetadata>, DumpError>;

    /// Create an index of a table.
    fn create_index(&mut self, table: &str, index: &crate::dump_manager::IndexMetadata) -> Result<(), DumpError>;

    /// The rows of a serialized batch.
    fn deserialize_rows(&self, bytes: &[u8]) -> Result<Vec<Self::Row>, DumpError>;

    /// Insert a row into a table.
    fn insert_row(&mut self, table: &str, row: &Self::Row) -> Result<(), DumpError>;
}

/// One step of a restore, as the database is handed it.
pub enum RestoreStep {
    /// Create a table with its serialized schema
    CreateTable { table: String, schema: Vec<u8> },
    /// Create, in order, the indexes of a table's serialized index list
    CreateIndexes { table: String, indexes: Vec<u8> },
    /// Insert, in order, the rows of a decompressed serialized batch
    InsertRows { table: String, batch: Vec<u8> },
}

/// A restore step as the specifications see it.
pub enum StepView {
    /// Create a table (name, serialized schema)
    CreateTable(Seq<char>, Seq<u8>),
    /// Create a table's indexes (name, serialized index list)
    CreateIndexes(Seq<char>, Seq<u8>),
    /// Insert a batch's rows (name, serialized rows)
    InsertRows(Seq<char>, Seq<u8>),
}

/// The view of a restore step.
pub open spec fn step_view(s: RestoreStep) -> StepView {
    match s {
        RestoreStep::CreateTable { table, schema } => StepView::CreateTable(table@, schema@),
        RestoreStep::CreateIndexes { table, indexes } => StepView::CreateIndexes(table@, indexes@),
        RestoreStep::InsertRows { table, batch } => StepView::InsertRows(table@, batch@),
    }
}

/// The steps that restore one table: create it with its schema, create the
/// indexes of its index list, then insert the rows of each batch,
/// decompressed, batch after batch.
pub open spec fn table_plan(s: SectionModel, c: CompressionType) -> Seq<StepView> {
    seq![StepView::CreateTable(s.name, s.schema), StepView::CreateIndexes(s.name, s.indexes)] + s.batches.map_values(
        |b: Seq<u8>| StepView::InsertRows(s.name, restored_batch(b, c)),
    )
}

/// The steps that restore the tables, table after table.
pub open spec fn restore_plan(ss: Seq<SectionModel>, c: CompressionType) -> Seq<StepView>
    decreases ss.len(),
{
    if ss.len() == 0 {
        Seq::empty()
    } else {
        restore_plan(ss.drop_last(), c) + table_plan(ss.last(), c)
    }
}

/// Can a stored batch be decompressed: it is as it was, or it is what
/// `zstd::bulk::compress` made of a batch of at most `MAX_BATCH_BYTES` bytes.
pub open spec fn batch_decodable(b: Seq<u8>, c: CompressionType) -> bool {
    ||| c == CompressionType::Uncompressed
    ||| exists|x: Seq<u8>| b == zstd_bulk_encoded(x) && x.len() <= crate::dump_manager::MAX_BATCH_BYTES
}

/// Step `j` (0 or 1) of restoring a table (see `table_plan`): create the
/// table, or create its indexes.
pub fn table_step(t: &TableSection, j: usize) -> (r: RestoreStep)
    requires
        j < 2,
    ensures
        forall|c: CompressionType| step_view(r) == #[trigger] table_plan(section_model(*t), c)[j as int],
{
    if j == 0 {
        RestoreStep::CreateTable { table: t.name.clone(), schema: t.schema.clone() }
    } else {
        RestoreStep::CreateIndexes { table: t.name.clone(), indexes: t.indexes.clone() }
    }
}

/// The step of restoring a table that inserts the rows of batch `k` (step
/// `k + 2` of `table_plan`): the batch decompressed. Only the decompression
/// can fail, and it does not on a decodable batch.
pub fn batch_step(t: &TableSection, compression: CompressionType, k: usize) -> (r: Result<RestoreStep, DumpError>)
    requires
        k < t.batches@.len(),
    ensures
        r matches Ok(s) ==> step_view(s) == table_plan(section_model(*t), compression)[k + 2],
        batch_decodable(t.batches@[k as int]@, compression) ==> r is Ok,
        r matches Err(e) ==> e is Compression,
{
    let ghost s = section_model(*t);
    let data = decompress_batch(t.batches[k].as_slice(), compression)?;
    proof {
        assert(s.batches[k as int] == t.batches@[k as int]@);
        assert(table_plan(s, compression)[k + 2] == StepView::InsertRows(s.name, restored_batch(s.batches[k as int], compression)));
    }
    Ok(RestoreStep::InsertRows { table: t.name.clone(), batch: data })
}

/// Hand one step to the database: create the table; or read back the index
/// list and create each index, in order; or read back the rows of the batch
/// and insert each, in order. The first failure is the error.
pub fn apply_step<D: DatabaseRestoreInterface>(db: &mut D, step: &RestoreStep) -> Result<(), DumpError> {
    match step {
        RestoreStep::CreateTable { table, schema } => db.create_table(table.as_str(), schema.as_slice()),
        RestoreStep::CreateIndexes { table, indexes } => {
            let ix = db.deserialize_indexes(indexes.as_slice())?;
            let mut k: usize = 0;
            while k < ix.len()
                invariant
                    k <= ix@.len(),
                decreases ix@.len() - k,
            {
                db.create_index(table.as_str(), &ix[k])?;
                k = k + 1;
            }
            Ok(())
        },
        RestoreStep::InsertRows { table, batch } => {
            let rows = db.deserialize_rows(batch.as_slice())?;
            let mut q: usize = 0;
            while q < rows.len()
                invariant
                    q <= rows@.len(),
                decreases rows@.len() - q,
            {
                db.insert_row(table.as_str(), &rows[q])?;
                q = q + 1;
            }
            Ok(())
        },
    }
}

/// The table sections of a dump with their batches as they were before
/// compression.
pub open spec fn source_sections(ts: Seq<TableRows>) -> Seq<SectionModel> {
    ts.map_values(|t: TableRows| SectionModel {
        name: t.name@,
        schema: t.schema@,
        indexes: t.indexes@,
        row_count: t.row_count,
        batches: t.batches@.map_values(|v: Vec<u8>| v@),
    })
}

/// Restoring a dump replays the tables as the dump's source handed them
/// over: for each table in order, create it with its schema, create the
/// indexes of its serialized index list, and insert the rows of each of its
/// serialized batches, exactly as if nothing had been compressed.
pub proof fn law_restore_replays_source(ts: Seq<TableRows>, c: CompressionType)
    requires
        tables_restore(ts, c),
    ensures
        restore_plan(stored_sections(ts, c), c) == restore_plan(source_sections(ts), CompressionType::Uncompressed),
    decreases ts.len(),
{
    if ts.len() > 0 {
        let init = ts.drop_last();
        assert(tables_restore(init, c)) by {
            assert forall|i: int, j: int| 0 <= i < init.len() && 0 <= j < init[i].batches@.len() implies #[trigger] batch_restores(init[i].batches@[j]@, c) by {
                assert(init[i] == ts[i]);
                assert(batch_restores(ts[i].batches@[j]@, c));
            }
        }
        law_restore_replays_source(init, c);
        assert(stored_sections(ts, c).drop_last() =~= stored_sections(init, c));
        assert(source_sections(ts).drop_last() =~= source_sections(init));
        let t = ts.last();
        let a = stored_sections(ts, c).last();
        let b = source_sections(ts).last();
        assert(a == stored_section(t, c));
        assert(table_plan(a, c) =~= table_plan(b, CompressionType::Uncompressed)) by {
            assert forall|j: int| 0 <= j < t.batches@.len() implies restored_batch(#[trigger] a.batches[j], c) == b.batches[j] by {
                assert(batch_restores(ts[ts.len() - 1].batches@[j]@, c));
            }
            let x = a.batches.map_values(|q: Seq<u8>| StepView::InsertRows(a.name, restored_batch(q, c)));
            let y = b.batches.map_values(|q: Seq<u8>| StepView::InsertRows(b.name, restored_batch(q, CompressionType::Uncompressed)));
            assert(x =~= y);
        }
    }
}

/// A table of the database read for a dump: its schema, its index list (an
/// empty list when the indexes cannot be read), its row count and its rows
/// serialized in the batches of `row_batches`. The first failing read is the
/// error.
pub fn read_table<D: DatabaseInterface>(db: &D, table: &str) -> (r: Result<TableRows, DumpError>)
    ensures
        r matches Ok(t) ==> t.name@ == table@ && t.batches@.len() == row_batches_len(t.row_count as int),
{
    let schema = db.get_table_schema(table)?;
    let indexes = match db.get_table_indexes(table) {
        Ok(v) => v,
        Err(_) => Vec::new(),
    };
    let index_bytes = db.serialize_indexes(indexes.as_slice())?;
    let rows = db.scan_table(table)?;
    let ranges = row_batches(rows.len());
    let mut batches: Vec<Vec<u8>> = Vec::new();
    let mut i: usize = 0;
    while i < ranges.len()
        invariant
            i <= ranges@.len(),
            batches@.len() == i,
        decreases ranges@.len() - i,
    {
        let (s, e) = ranges[i];
        let b = db.serialize_rows(rows.as_slice(), s, e)?;
        batches.push(b);
        i = i + 1;
    }
    proof {
        lemma_row_batches_len(rows@.len() as int, ranges@.len() as int);
    }
    Ok(TableRows {
        name: String::from_str(table),
        schema,
        indexes: index_bytes,
        row_count: rows.len() as u64,
        batches,
    })
}

/// The number of batches of `n` rows: `n` divided by 1000, rounded up.
pub open spec fn row_batches_len(n: int) -> int {
    (n + 999) / 1000
}

proof fn lemma_row_batches_len(n: int, k: int)
    requires
        0 <= n,
        0 <= k,
        k == 0 <==> n == 0,
        k > 0 ==> 1000 * (k - 1) < n <= 1000 * k,
    ensures
        k == row_batches_len(n),
{
}

/// Do the counts of the tables fit the dump metadata: rows and bytes in a
/// `u64`, the number of tables in a `u32`?
pub fn totals_fit(tables: &[TableRows]) -> (r: bool)
    ensures
        r == (rows_total(tables@) <= u64::MAX && bytes_total(tables@) <= u64::MAX && tables@.len() <= u32::MAX),
{
    if tables.len() > 0xffff_ffffusize {
        return false;
    }
    let ghost rs = tables@.map_values(|t: TableRows| t.row_count as nat);
    let ghost bs = tables@.map_values(|t: TableRows| table_bytes(t));
    let mut rows: u64 = 0;
    let mut bytes: u64 = 0;
    let mut i: usize = 0;
    proof {
        assert(rs.take(0) =~= Seq::<nat>::empty());
        assert(bs.take(0) =~= Seq::<nat>::empty());
    }
    while i < tables.len()
        invariant
            i <= tables@.len(),
            rs == tables@.map_values(|t: TableRows| t.row_count as nat),
            bs == tables@.map_values(|t: TableRows| table_bytes(t)),
            rows == sum_of(rs.take(i as int)),
            bytes == sum_of(bs.take(i as int)),
        decreases tables@.len() - i,
    {
        proof {
            lemma_sum_step(rs, i as int);
            lemma_sum_step(bs, i as int);
        }
        let t = &tables[i];
        match rows.checked_add(t.row_count) {
            Some(x) => rows = x,
            None => {
                proof {
                    lemma_sum_prefix(rs, i as int + 1);
                }
                return false;
            },
        }
        match table_bytes_checked(t) {
            Some(b) => match bytes.checked_add(b) {
                Some(x) => bytes = x,
                None => {
                    proof {
                        lemma_sum_prefix(bs, i as int + 1);
                    }
                    return false;
                },
            },
            None => {
                proof {
                    lemma_sum_prefix(bs, i as int + 1);
                    lemma_sum_prefix(bs.take(i as int + 1), i as int + 1);
                    assert(sum_of(bs.take(i as int + 1)) >= bs[i as int]);
                }
                return false;
            },
        }
        i = i + 1;
    }
    proof {
        assert(rs.take(i as int) =~= rs);
        assert(bs.take(i as int) =~= bs);
    }
    true
}

/// The uncompressed bytes of a table, if they fit a `u64`.
fn table_bytes_checked(t: &TableRows) -> (r: Option<u64>)
    ensures
        r matches Some(b) ==> b == table_bytes(*t),
        r is None ==> table_bytes(*t) > u64::MAX,
{
    let ghost lens = t.batches@.map_values(|v: Vec<u8>| v@.len());
    let mut raw: u64 = match (t.schema.len() as u64).checked_add(t.indexes.len() as u64) {
        Some(x) => x,
        None => return None,
    };
    let mut i: usize = 0;
    proof {
        assert(lens.take(0) =~= Seq::<nat>::empty());
    }
    while i < t.batches.len()
        invariant
            i <= t.batches@.len(),
            lens == t.batches@.map_values(|v: Vec<u8>| v@.len()),
            raw == t.schema@.len() + t.indexes@.len() + sum_of(lens.take(i as int)),
        decreases t.batches@.len() - i,
    {
        proof {
            lemma_sum_step(lens, i as int);
        }
        match raw.checked_add(t.batches[i].len() as u64) {
            Some(x) => raw = x,
            None => {
                proof {
                    lemma_sum_prefix(lens, i as int + 1);
                }
                return None;
            },
        }
        i = i + 1;
    }
    proof {
        assert(lens.take(i as int) =~= lens);
    }
    Some(raw)
}

/// Does the history entry record the dump's metadata?
pub open spec fn records(e: DumpMetadata, m: DumpMetadata) -> bool {
    &&& e.dump_id == m.dump_id
    &&& e.created_at == m.created_at
    &&& e.dump_type == m.dump_type
    &&& e.table_count == m.table_count
    &&& e.total_rows == m.total_rows
    &&& e.compressed_size == m.compressed_size
    &&& e.uncompressed_size == m.uncompressed_size
    &&& e.checksum@ == m.checksum@
    &&& e.append_count == m.append_count
}

/// The tracker after a dump: consistent, clean, no dirty table, a dump taken.
pub open spec fn marked_clean(t: DirtyTracker) -> bool {
    &&& t.wf()
    &&& !t.dirty_spec()
    &&& t.tables_spec().is_empty()
    &&& t.dumped_spec()
}

/// After a successful dump: record it in the history and mark the state clean.
fn finish_dump(history: &mut DumpHistory, dirty: &mut DirtyTracker, m: &DumpMetadata)
    ensures
        final(history).next_dump_id == old(history).next_dump_id,
        final(history).entries@.len() == old(history).entries@.len() + 1,
        final(history).entries@.drop_last() == old(history).entries@,
        records(final(history).entries@.last(), *m),
        marked_clean(*final(dirty)),
{
    history.record(m.copy());
    dirty.clear_dirty();
    proof {
        assert(final(history).entries@.drop_last() =~= old(history).entries@);
    }
}

/// A full dump of the database under the history's next id: every table
/// read (see `read_table`) and built into a dump (see `build_full_dump`). It
/// fails with the first failing read, when the counts do not fit the
/// metadata, or when a section cannot be framed. The id is used up either
/// way; on success the dump is recorded in the history and the dirty state
/// is cleared, on failure both are left as they were.
pub fn create_full_dump<D: DatabaseInterface>(
    db: &D,
    history: &mut DumpHistory,
    dirty: &mut DirtyTracker,
    compression: CompressionType,
) -> (r: Result<(Vec<u8>, DumpMetadata), DumpError>)
    requires
        old(history).next_dump_id < u64::MAX,
    ensures
        final(history).next_dump_id == old(history).next_dump_id + 1,
        r matches Ok((b, m)) ==> {
            &&& m.dump_type == DumpType::Full
            &&& m.dump_id == old(history).next_dump_id
            &&& m.compressed_size == b@.len()
            &&& parse_dump_spec(b@) is Ok
            &&& b@.subrange(0, 12) == dump_magic() + le32_bytes(DUMP_VERSION)
            &&& m.checksum@ == hex_spec(crc32_of(b@) as nat, 8)
            &&& final(history).entries@.drop_last() == old(history).entries@
            &&& final(history).entries@.len() == old(history).entries@.len() + 1
            &&& records(final(history).entries@.last(), m)
            &&& marked_clean(*final(dirty))
        },
        r is Err ==> final(history).entries@ == old(history).entries@ && *final(dirty) == *old(dirty),
{
    let dump_id = history.get_next_dump_id();
    let names = db.list_tables()?;
    let tables = read_tables(db, &names)?;
    if !totals_fit(tables.as_slice()) {
        return Err(DumpError::Storage(String::from_str("Dump too large")));
    }
    let (b, m) = build_full_dump(tables.as_slice(), compression, dump_id)?;
    proof {
        assert(b@.subrange(0, 12) =~= file_header(b@.subrange(12, 8204)).subrange(0, 12));
        assert(dump_magic() + le32_bytes(DUMP_VERSION) =~= file_header(b@.subrange(12, 8204)).subrange(0, 12));
    }
    finish_dump(history, dirty, &m);
    Ok((b, m))
}

/// The tables of the list read from the database, in order.
fn read_tables<D: DatabaseInterface>(db: &D, names: &Vec<String>) -> (r: Result<Vec<TableRows>, DumpError>)
    ensures
        r matches Ok(ts) ==> ts@.len() == names@.len() && forall|i: int| 0 <= i < ts@.len() ==> (#[trigger] ts@[i]).name@ == names@[i]@,
{
    let mut out: Vec<TableRows> = Vec::new();
    let mut i: usize = 0;
    while i < names.len()
        invariant
            i <= names@.len(),
            out@.len() == i,
            forall|j: int| 0 <= j < i ==> (#[trigger] out@[j]).name@ == names@[j]@,
        decreases names@.len() - i,
    {
        let t = read_table(db, names[i].as_str())?;
        out.push(t);
        i = i + 1;
    }
    Ok(out)
}

/// An incremental dump of the database under the history's next id: the
/// dirty tables (an error when there are none, before an id is taken) read
/// and built into an incremental dump after the existing file, or into a
/// new file. On success the dump is recorded in the history and the dirty
/// state is cleared; on failure both are left as they were.
pub fn create_incremental_dump<D: DatabaseInterface>(
    db: &D,
    history: &mut DumpHistory,
    dirty: &mut DirtyTracker,
    compression: CompressionType,
    existing: Option<Vec<u8>>,
    append: bool,
) -> (r: Result<(Vec<u8>, DumpMetadata), DumpError>)
    requires
        old(dirty).wf(),
        old(history).next_dump_id < u64::MAX,
    ensures
        old(dirty).tables_spec().is_empty() ==> (r matches Err(e) && e matches DumpError::Storage(t) && t@ == "No dirty tables to dump"@)
            && final(history).next_dump_id == old(history).next_dump_id,
        !old(dirty).tables_spec().is_empty() ==> final(history).next_dump_id == old(history).next_dump_id + 1,
        r matches Ok((b, m)) ==> {
            &&& m.dump_type == DumpType::Incremental
            &&& m.dump_id == old(history).next_dump_id
            &&& m.compressed_size == b@.len()
            &&& m.table_count == old(dirty).tables_spec().len()
            &&& m.checksum@ == hex_spec(crc32_of(b@) as nat, 8)
            &&& m.append_count == (if append { 1u32 } else { 0u32 })
            &&& (existing is None ==> b@.subrange(0, 12) == dump_magic() + le32_bytes(DUMP_VERSION))
            &&& (existing matches Some(e) ==> e@.is_prefix_of(b@))
            &&& final(history).entries@.drop_last() == old(history).entries@
            &&& final(history).entries@.len() == old(history).entries@.len() + 1
            &&& records(final(history).entries@.last(), m)
            &&& marked_clean(*final(dirty))
        },
        r is Err ==> final(history).entries@ == old(history).entries@ && *final(dirty) == *old(dirty),
{
    let names = plan_incremental_dump(dirty)?;
    let dump_id = history.get_next_dump_id();
    let tables = read_tables(db, &names)?;
    if !totals_fit(tables.as_slice()) {
        return Err(DumpError::Storage(String::from_str("Dump too large")));
    }
    proof {
        name_views(names@).unique_seq_to_set();
    }
    let ghost ex = existing;
    let (b, m) = build_incremental_dump(tables.as_slice(), compression, dump_id, existing, append)?;
    proof {
        if ex is None {
            assert(b@.subrange(0, 12) =~= file_header(b@.subrange(12, 8204)).subrange(0, 12));
            assert(dump_magic() + le32_bytes(DUMP_VERSION) =~= file_header(b@.subrange(12, 8204)).subrange(0, 12));
        } else {
            let e = ex->0;
            assert(b@.subrange(0, e@.len() as int) =~= e@);
        }
    }
    finish_dump(history, dirty, &m);
    Ok((b, m))
}

/// Restore the tables of a dump into the database, in order, step by
/// step: every step of `table_plan` of each table (see `table_step` and
/// `batch_step`) is
/// handed to the database (see `apply_step`) as soon as it is made. The
/// first failure is the error; on success, the number of tables restored.
pub fn restore_tables<D: DatabaseRestoreInterface>(db: &mut D, tables: &Vec<TableSection>, compression: CompressionType) -> (r: Result<usize, DumpError>)
    ensures
        r matches Ok(n) ==> n == tables@.len(),
{
    let mut i: usize = 0;
    while i < tables.len()
        invariant
            i <= tables@.len(),
        decreases tables@.len() - i,
    {
        let t = &tables[i];
        apply_step(db, &table_step(t, 0))?;
        apply_step(db, &table_step(t, 1))?;
        let mut k: usize = 0;
        while k < t.batches.len()
            invariant
                k <= t.batches@.len(),
            decreases t.batches@.len() - k,
        {
            let step = batch_step(t, compression, k)?;
            apply_step(db, &step)?;
            k = k + 1;
        }
        i = i + 1;
    }
    Ok(i)
}

} // verus!
