//! Dumps of an in-memory database: the metadata of each dump, the history
//! of dumps, batch compression and the checksum of dump files.
use vstd::prelude::*;
use crate::dump_format::{CompressionType, DumpError, io_error_text};
use crate::text::{hex_padded, hex_spec};
use std::path::PathBuf;
use std::time::{Duration, Instant};
use crate::dirty_tracker::{instant_now, instant_elapsed};
use crate::text::str_eq;

verus! {

/// Dump type identifier
#[derive(Debug, Clone, Copy, PartialEq, Eq, Structural)]
pub enum DumpType {
    /// Full dump (all data)
    Full,
    /// Incremental dump (changes only)
    Incremental,
}

/// Metadata for a single dump operation
#[derive(Debug)]
pub struct DumpMetadata {
    /// Unique dump ID
    pub dump_id: u64,
    /// Creation timestamp
    pub created_at: std::time::SystemTime,
    /// Dump type (Full/Incremental)
    pub dump_type: DumpType,
    /// Number of tables dumped
    pub table_count: u32,
    /// Total rows dumped
    pub total_rows: u64,
    /// Compressed size in bytes
    pub compressed_size: u64,
    /// Uncompressed size in bytes
    pub uncompressed_size: u64,
    /// CRC32 checksum (hex string)
    pub checksum: String,
    /// Number of appends to this dump
    pub append_count: u32,
}

impl DumpMetadata {
    /// Create new metadata, stamped with the current time
    pub fn new(dump_id: u64, dump_type: DumpType) -> (m: Self)
        ensures
            m.dump_id == dump_id,
            m.dump_type == dump_type,
            m.table_count == 0,
            m.total_rows == 0,
            m.compressed_size == 0,
            m.uncompressed_size == 0,
            m.checksum@ == Seq::<char>::empty(),
            m.append_count == 0,
    {
        DumpMetadata {
            dump_id,
            created_at: crate::clock::system_time_now(),
            dump_type,
            table_count: 0,
            total_rows: 0,
            compressed_size: 0,
            uncompressed_size: 0,
            checksum: String::new(),
            append_count: 0,
        }
    }

    /// A copy of the metadata.
    pub fn copy(&self) -> (m: Self)
        ensures
            m.dump_id == self.dump_id,
            m.created_at == self.created_at,
            m.dump_type == self.dump_type,
            m.table_count == self.table_count,
            m.total_rows == self.total_rows,
            m.compressed_size == self.compressed_size,
            m.uncompressed_size == self.uncompressed_size,
            m.checksum@ == self.checksum@,
            m.append_count == self.append_count,
    {
        DumpMetadata {
            dump_id: self.dump_id,
            created_at: self.created_at,
            dump_type: self.dump_type,
            table_count: self.table_count,
            total_rows: self.total_rows,
            compressed_size: self.compressed_size,
            uncompressed_size: self.uncompressed_size,
            checksum: self.checksum.clone(),
            append_count: self.append_count,
        }
    }
}

/// Index metadata for dumps
#[derive(Debug, Clone)]
pub struct IndexMetadata {
    /// Index name
    pub name: String,
    /// Index type (e.g., "btree", "hash", "gin")
    pub index_type: String,
    /// Columns in index
    pub columns: Vec<String>,
    /// Is unique index
    pub is_unique: bool,
}

/// Whether a dump holds everything or only what changed
#[derive(Debug, Clone, Copy, PartialEq, Eq, Structural)]
pub enum DumpMode {
    /// Everything
    Full,
    /// Only the tables changed since the last dump
    Incremental,
}

/// Output format for dumps
#[derive(Debug, Clone, Copy, PartialEq, Eq, Structural)]
pub enum DumpOutputFormat {
    /// HeliosDB binary format (compressed)
    Binary,
    /// SQL text format (CREATE TABLE + INSERT)
    Sql,
}

#[verifier::external_type_specification]
#[verifier::external_body]
pub struct ExPathBuf(PathBuf);

/// `PathBuf::from(s)`: the path of a file name. Nothing is stated of the
/// path: `PathBuf` is opaque here.
#[verifier::external_body]
fn path_from(s: &str) -> PathBuf {
    PathBuf::from(s)
}

/// Options of a dump
#[derive(Debug)]
pub struct DumpOptions {
    /// The dump file
    pub output_path: PathBuf,
    /// Full or incremental
    pub mode: DumpMode,
    /// Compression of the row batches
    pub compression: CompressionType,
    /// Append to an existing file
    pub append: bool,
    /// Only these tables, if given
    pub tables: Option<Vec<String>>,
    /// Report progress
    pub verbose: bool,
    /// Connection string of a server, if any
    pub connection: Option<String>,
    /// Binary or SQL text
    pub format: DumpOutputFormat,
}

impl Default for DumpOptions {
    /// A full, zstd-compressed binary dump of every table to `backup.heliodump`.
    fn default() -> (o: Self)
        ensures
            o.mode == DumpMode::Full,
            o.compression == CompressionType::Zstd,
            !o.append,
            o.tables is None,
            !o.verbose,
            o.connection is None,
            o.format == DumpOutputFormat::Binary,
    {
        DumpOptions {
            output_path: path_from("backup.heliodump"),
            mode: DumpMode::Full,
            compression: CompressionType::Zstd,
            append: false,
            tables: None,
            verbose: false,
            connection: None,
            format: DumpOutputFormat::Binary,
        }
    }
}

/// Options of a restore
#[derive(Debug)]
pub struct RestoreOptions {
    /// The dump file
    pub input_path: PathBuf,
    /// Where to restore, if not the open database
    pub target: Option<PathBuf>,
    /// Only these tables, if given
    pub tables: Option<Vec<String>>,
    /// Check the dump before restoring
    pub verify: bool,
    /// Report progress
    pub verbose: bool,
    /// Connection string of a server, if any
    pub connection: Option<String>,
}

impl Default for RestoreOptions {
    /// A verified restore of every table from `backup.heliodump`.
    fn default() -> (o: Self)
        ensures
            o.target is None,
            o.tables is None,
            o.verify,
            !o.verbose,
            o.connection is None,
    {
        RestoreOptions {
            input_path: path_from("backup.heliodump"),
            target: None,
            tables: None,
            verify: true,
            verbose: false,
            connection: None,
        }
    }
}

/// What a restore did
#[derive(Debug, Clone)]
pub struct RestoreReport {
    /// Tables restored
    pub tables_restored: usize,
    /// Rows restored
    pub rows_restored: u64,
    /// Time taken, in milliseconds
    pub duration_ms: u64,
}

/// The dumps made so far, and the id the next one gets.
pub struct DumpHistory {
    /// Dumps, oldest first
    pub entries: Vec<DumpMetadata>,
    /// Id of the next dump
    pub next_dump_id: u64,
}

impl DumpHistory {
    /// An empty history; the first dump gets id 1.
    pub fn new() -> (h: Self)
        ensures
            h.entries@.len() == 0,
            h.next_dump_id == 1,
    {
        DumpHistory { entries: Vec::new(), next_dump_id: 1 }
    }

    /// Get next dump ID (counter)
    pub fn get_next_dump_id(&mut self) -> (id: u64)
        requires
            old(self).next_dump_id < u64::MAX,
        ensures
            id == old(self).next_dump_id,
            final(self).next_dump_id == old(self).next_dump_id + 1,
            final(self).entries@ == old(self).entries@,
    {
        let id = self.next_dump_id;
        self.next_dump_id = self.next_dump_id + 1;
        id
    }

    /// Add a dump to the history
    pub fn record(&mut self, m: DumpMetadata)
        ensures
            final(self).entries@ == old(self).entries@.push(m),
            final(self).next_dump_id == old(self).next_dump_id,
    {
        self.entries.push(m);
    }

    /// The first dump of the history with the given id
    pub fn get_dump_metadata(&self, dump_id: u64) -> (r: Result<&DumpMetadata, DumpError>)
        ensures
            r is Ok <==> exists|i: int| 0 <= i < self.entries@.len() && self.entries@[i].dump_id == dump_id,
            r matches Ok(m) ==> exists|i: int|
                0 <= i < self.entries@.len() && self.entries@[i] == *m && m.dump_id == dump_id && forall|j: int|
                    0 <= j < i ==> self.entries@[j].dump_id != dump_id,
            r matches Err(e) ==> (e matches DumpError::Storage(t) && t@ == "Dump "@ + crate::text::decimal_spec(
                dump_id as nat,
            ) + " not found"@),
    {
        let mut i: usize = 0;
        while i < self.entries.len()
            invariant
                i <= self.entries@.len(),
                forall|j: int| 0 <= j < i ==> self.entries@[j].dump_id != dump_id,
            decreases self.entries@.len() - i,
        {
            if self.entries[i].dump_id == dump_id {
                return Ok(&self.entries[i]);
            }
            i = i + 1;
        }
        Err(
            DumpError::Storage(
                String::from_str("Dump ").concat(crate::text::decimal(dump_id).as_str()).concat(" not found"),
            ),
        )
    }
}

/// What `zstd::bulk::compress` at level 3 makes of the data.
pub uninterp spec fn zstd_bulk_encoded(data: Seq<u8>) -> Seq<u8>;

/// What `zstd::bulk::decompress` makes of the data.
pub uninterp spec fn zstd_bulk_decoded(data: Seq<u8>) -> Seq<u8>;

/// `zstd::bulk::compress(data, 3)`. At a valid level, into a buffer of zstd's
/// compression bound, it succeeds; its output is the named encoding, and
/// decoding that output gives the data back (zstd is lossless).
#[verifier::external_body]
fn zstd_bulk_compress(data: &[u8]) -> (r: Result<Vec<u8>, std::io::Error>)
    ensures
        r is Ok,
        r matches Ok(c) ==> c@ == zstd_bulk_encoded(data@) && zstd_bulk_decoded(c@) == data@,
{
    zstd::bulk::compress(data, 3)
}

/// `zstd::bulk::decompress(data, capacity)`. It succeeds on what
/// `zstd::bulk::compress` made of data of at most `capacity` bytes; when it
/// succeeds its output is the named decoding of the data, of at most
/// `capacity` bytes. On other input whether it succeeds is not stated.
#[verifier::external_body]
fn zstd_bulk_decompress(data: &[u8], capacity: usize) -> (r: Result<Vec<u8>, std::io::Error>)
    ensures
        (exists|x: Seq<u8>| data@ == zstd_bulk_encoded(x) && x.len() <= capacity) ==> r is Ok,
        r matches Ok(d) ==> d@ == zstd_bulk_decoded(data@) && d@.len() <= capacity,
{
    zstd::bulk::decompress(data, capacity)
}

/// The largest batch a dump decompresses: 100 MiB.
pub const MAX_BATCH_BYTES: usize = 104857600;

/// Compress a row batch for a dump. Every compression type other than
/// `Uncompressed` uses zstd.
pub fn compress_batch(data: &[u8], compression: CompressionType) -> (r: Result<Vec<u8>, DumpError>)
    ensures
        r is Ok,
        compression == CompressionType::Uncompressed ==> (r matches Ok(c) && c@ == data@),
        compression != CompressionType::Uncompressed ==> (r matches Ok(c) ==> c@ == zstd_bulk_encoded(data@)
            && zstd_bulk_decoded(c@) == data@),
        r matches Err(e) ==> e is Compression,
{
    match compression {
        CompressionType::Uncompressed => Ok(crate::art_node::bytes_to_vec(data)),
        CompressionType::Zstd => match zstd_bulk_compress(data) {
            Ok(c) => Ok(c),
            Err(e) => Err(
                DumpError::Compression(String::from_str("Zstd compression failed: ").concat(io_error_text(&e).as_str())),
            ),
        },
        _ => match zstd_bulk_compress(data) {
            Ok(c) => Ok(c),
            Err(e) => Err(DumpError::Compression(String::from_str("Compression failed: ").concat(io_error_text(&e).as_str()))),
        },
    }
}

/// Decompress a row batch of a dump (at most `MAX_BATCH_BYTES` bytes).
pub fn decompress_batch(data: &[u8], compression: CompressionType) -> (r: Result<Vec<u8>, DumpError>)
    ensures
        (exists|x: Seq<u8>| data@ == zstd_bulk_encoded(x) && x.len() <= MAX_BATCH_BYTES) ==> r is Ok,
        compression == CompressionType::Uncompressed ==> (r matches Ok(d) && d@ == data@),
        compression != CompressionType::Uncompressed ==> (r matches Ok(d) ==> d@ == zstd_bulk_decoded(data@)
            && d@.len() <= MAX_BATCH_BYTES),
        r matches Err(e) ==> e is Compression,
{
    match compression {
        CompressionType::Uncompressed => Ok(crate::art_node::bytes_to_vec(data)),
        CompressionType::Zstd => match zstd_bulk_decompress(data, MAX_BATCH_BYTES) {
            Ok(d) => Ok(d),
            Err(e) => Err(
                DumpError::Compression(String::from_str("Zstd decompression failed: ").concat(io_error_text(&e).as_str())),
            ),
        },
        _ => match zstd_bulk_decompress(data, MAX_BATCH_BYTES) {
            Ok(d) => Ok(d),
            Err(e) => Err(
                DumpError::Compression(String::from_str("Decompression failed: ").concat(io_error_text(&e).as_str())),
            ),
        },
    }
}

/// A row batch compressed for a dump and decompressed again is the batch it
/// was (when both steps succeed).
pub proof fn law_batch_roundtrip(data: Seq<u8>, compressed: Seq<u8>, restored: Seq<u8>)
    requires
        compressed == zstd_bulk_encoded(data),
        zstd_bulk_decoded(compressed) == data,
        restored == zstd_bulk_decoded(compressed),
    ensures
        restored == data,
{
}

/// One bit step of the reflected CRC-32 register (polynomial 0xEDB88320).
pub open spec fn crc32_bit(c: u32) -> u32 {
    if c & 1 == 1 {
        (c >> 1u32) ^ 0xEDB8_8320u32
    } else {
        c >> 1u32
    }
}

/// `n` bit steps of the CRC-32 register.
pub open spec fn crc32_bits(c: u32, n: nat) -> u32
    decreases n,
{
    if n == 0 {
        c
    } else {
        crc32_bits(crc32_bit(c), (n - 1) as nat)
    }
}

/// The CRC-32 register after the bytes, one byte at a time: the byte is
/// folded into the low bits, then eight bit steps.
pub open spec fn crc32_run(c: u32, data: Seq<u8>) -> u32
    decreases data.len(),
{
    if data.len() == 0 {
        c
    } else {
        crc32_bits(crc32_run(c, data.drop_last()) ^ (data.last() as u32), 8)
    }
}

/// The CRC-32 (IEEE) checksum of the data: the register starts all ones,
/// runs over the bytes, and is inverted at the end.
pub open spec fn crc32_of(data: Seq<u8>) -> u32 {
    !crc32_run(0xFFFF_FFFFu32, data)
}

/// `crc32fast::hash(data)`: the CRC-32 (IEEE) checksum of the data, the
/// standard reflected CRC-32 that `crc32_of` states.
#[verifier::external_body]
fn crc32(data: &[u8]) -> (r: u32)
    ensures
        r == crc32_of(data@),
{
    crc32fast::hash(data)
}

/// The checksum text of dump file contents: the CRC-32 as eight lower-case
/// hexadecimal digits.
pub fn checksum_text(data: &[u8]) -> (r: String)
    ensures
        r@ == hex_spec(crc32_of(data@) as nat, 8),
        r@.len() == 8,
{
    let c = crc32(data);
    let r = hex_padded(c as u64, 8);
    proof {
        lemma_hex_len(c as nat, 8);
    }
    r
}

/// The padded hexadecimal text has exactly the requested width.
pub proof fn lemma_hex_len(n: nat, width: nat)
    ensures
        hex_spec(n, width).len() == width,
    decreases width,
{
    if width > 0 {
        lemma_hex_len(n / 16, (width - 1) as nat);
    }
}


/// The names of the tables in a list.
pub open spec fn name_views(v: Seq<String>) -> Seq<Seq<char>> {
    v.map_values(|s: String| s@)
}

/// Whether the database changed since the last dump, which tables did, and
/// when the last dump was taken.
pub struct DirtyTracker {
    last_dump_time: Option<Instant>,
    dirty: bool,
    dirty_tables: Vec<String>,
}

impl DirtyTracker {
    /// Whether anything changed since the last dump.
    pub closed spec fn dirty_spec(&self) -> bool {
        self.dirty
    }

    /// The tables changed since the last dump.
    pub closed spec fn tables_spec(&self) -> Set<Seq<char>> {
        name_views(self.dirty_tables@).to_set()
    }

    /// Whether a dump was taken.
    pub closed spec fn dumped_spec(&self) -> bool {
        self.last_dump_time is Some
    }

    /// Each dirty table is listed once.
    pub closed spec fn wf(&self) -> bool {
        name_views(self.dirty_tables@).no_duplicates()
    }

    /// A clean tracker, with no dump taken yet.
    pub fn new() -> (t: Self)
        ensures
            t.wf(),
            !t.dirty_spec(),
            t.tables_spec() == Set::<Seq<char>>::empty(),
            !t.dumped_spec(),
    {
        let t = DirtyTracker { last_dump_time: None, dirty: false, dirty_tables: Vec::new() };
        proof {
            assert(name_views(t.dirty_tables@) =~= Seq::<Seq<char>>::empty());
        }
        t
    }

    /// Mark the database as changed.
    pub fn mark_dirty(&mut self)
        ensures
            final(self).wf() == old(self).wf(),
            final(self).dirty_spec(),
            final(self).tables_spec() == old(self).tables_spec(),
            final(self).dumped_spec() == old(self).dumped_spec(),
    {
        self.dirty = true;
    }

    /// Mark a table, and with it the database, as changed.
    pub fn mark_table_dirty(&mut self, table: &str)
        requires
            old(self).wf(),
        ensures
            final(self).wf(),
            final(self).dirty_spec(),
            final(self).tables_spec() == old(self).tables_spec().insert(table@),
            final(self).dumped_spec() == old(self).dumped_spec(),
    {
        let ghost names = name_views(self.dirty_tables@);
        let mut i: usize = 0;
        let mut found = false;
        while i < self.dirty_tables.len()
            invariant
                i <= self.dirty_tables@.len(),
                names == name_views(self.dirty_tables@),
                found <==> exists|j: int| 0 <= j < i && names[j] == table@,
            decreases self.dirty_tables@.len() - i,
        {
            proof {
                assert(names[i as int] == self.dirty_tables@[i as int]@);
            }
            if str_eq(self.dirty_tables[i].as_str(), table) {
                found = true;
            }
            i = i + 1;
        }
        if !found {
            self.dirty_tables.push(String::from_str(table));
            proof {
                assert(name_views(self.dirty_tables@) =~= names.push(table@));
                assert(!names.contains(table@));
                names.lemma_push_to_set_commute(table@);
                assert(names.push(table@) == names + seq![table@]);
                vstd::seq_lib::lemma_no_dup_in_concat(names, seq![table@]);
            }
        } else {
            proof {
                let j = choose|j: int| 0 <= j < i && names[j] == table@;
                assert(names.to_set().contains(names[j]));
                assert(names.to_set().insert(table@) =~= names.to_set());
            }
        }
        self.dirty = true;
    }

    /// Whether anything changed since the last dump.
    pub fn is_dirty(&self) -> (r: bool)
        ensures
            r == self.dirty_spec(),
    {
        self.dirty
    }

    /// The tables changed since the last dump, each once.
    pub fn get_dirty_tables(&self) -> (r: Vec<String>)
        requires
            self.wf(),
        ensures
            name_views(r@).to_set() == self.tables_spec(),
            name_views(r@).no_duplicates(),
    {
        let mut r: Vec<String> = Vec::new();
        let mut i: usize = 0;
        while i < self.dirty_tables.len()
            invariant
                i <= self.dirty_tables@.len(),
                name_views(r@) == name_views(self.dirty_tables@).subrange(0, i as int),
            decreases self.dirty_tables@.len() - i,
        {
            let ghost r0 = r@;
            r.push(self.dirty_tables[i].clone());
            proof {
                assert(name_views(r@) =~= name_views(r0).push(self.dirty_tables@[i as int]@));
                assert(name_views(self.dirty_tables@).subrange(0, i + 1) =~= name_views(self.dirty_tables@).subrange(
                    0,
                    i as int,
                ).push(self.dirty_tables@[i as int]@));
            }
            i = i + 1;
        }
        proof {
            assert(name_views(self.dirty_tables@).subrange(0, i as int) =~= name_views(self.dirty_tables@));
        }
        r
    }

    /// Mark the current state as dumped: clean, no dirty tables, and the
    /// time of the dump recorded.
    pub fn clear_dirty(&mut self)
        ensures
            final(self).wf(),
            !final(self).dirty_spec(),
            final(self).tables_spec() == Set::<Seq<char>>::empty(),
            final(self).dumped_spec(),
    {
        self.dirty = false;
        self.dirty_tables = Vec::new();
        self.last_dump_time = Some(instant_now());
        proof {
            assert(name_views(self.dirty_tables@) =~= Seq::<Seq<char>>::empty());
        }
    }

    /// The time since the last dump, if one was taken.
    pub fn time_since_last_dump(&self) -> (r: Option<Duration>)
        ensures
            r is Some <==> self.dumped_spec(),
    {
        match &self.last_dump_time {
            Some(t) => Some(instant_elapsed(t)),
            None => None,
        }
    }
}

impl Default for DirtyTracker {
    /// A clean tracker, with no dump taken yet.
    fn default() -> (t: Self)
        ensures
            t.wf(),
            !t.dirty_spec(),
            t.tables_spec() == Set::<Seq<char>>::empty(),
            !t.dumped_spec(),
    {
        Self::new()
    }
}

} // verus!
