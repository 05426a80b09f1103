//! Dump file format definitions: compression types, the metadata frame at
//! the head of a dump file, and whole-buffer compression.
//!
//! A metadata frame is the magic number `HELIODMP`, the format version as a
//! little-endian `u32`, the length of the metadata text as a little-endian
//! `u32`, and the metadata text itself (JSON, produced and read by the
//! caller).
use vstd::prelude::*;
use crate::text::{extend_bytes, same_bytes};
use std::io::{Read, Write};

verus! {

/// Current dump format version
pub const DUMP_VERSION: u32 = 1;

/// Magic number for dump file identification: "HELIODMP"
pub open spec fn dump_magic() -> Seq<u8> {
    seq![72u8, 69u8, 76u8, 73u8, 79u8, 68u8, 77u8, 80u8]
}

/// The magic number as bytes.
pub fn dump_magic_number() -> (r: [u8; 8])
    ensures
        r@ == dump_magic(),
{
    let r: [u8; 8] = [72u8, 69u8, 76u8, 73u8, 79u8, 68u8, 77u8, 80u8];
    proof {
        assert(r@ =~= dump_magic());
    }
    r
}

/// Compression type for dump files
#[derive(Debug, Clone, Copy, PartialEq, Eq, Structural)]
pub enum CompressionType {
    /// No compression
    Uncompressed,
    /// Zstandard compression (default)
    Zstd,
    /// Gzip compression
    Gzip,
    /// Brotli compression
    Brotli,
}

/// Errors of dump files
#[derive(Debug, Clone)]
pub enum DumpError {
    /// A configuration value that is not understood
    Config(String),
    /// Reading or writing dump data failed
    Io(String),
    /// A storage-level failure
    Storage(String),
    /// Compressing or decompressing failed
    Compression(String),
}

impl DumpError {
    /// The display text of the error.
    pub fn message(&self) -> (r: String)
        ensures
            r@ == match self {
                DumpError::Config(m) => "Configuration error: "@ + m@,
                DumpError::Io(m) => "I/O error: "@ + m@,
                DumpError::Storage(m) => "Storage error: "@ + m@,
                DumpError::Compression(m) => "Compression error: "@ + m@,
            },
    {
        match self {
            DumpError::Config(m) => String::from_str("Configuration error: ").concat(m.as_str()),
            DumpError::Io(m) => String::from_str("I/O error: ").concat(m.as_str()),
            DumpError::Storage(m) => String::from_str("Storage error: ").concat(m.as_str()),
            DumpError::Compression(m) => String::from_str("Compression error: ").concat(m.as_str()),
        }
    }
}

/// ASCII lower case of a character (other characters unchanged).
pub open spec fn ascii_lower(c: char) -> char {
    if 'A' <= c && c <= 'Z' {
        ((c as u32) + 32) as char
    } else {
        c
    }
}

/// The compression type a (case-insensitive) name denotes.
pub open spec fn compression_named(s: Seq<char>) -> Option<CompressionType> {
    let l = s.map_values(|c: char| ascii_lower(c));
    if l == "none"@ {
        Some(CompressionType::Uncompressed)
    } else if l == "zstd"@ {
        Some(CompressionType::Zstd)
    } else if l == "gzip"@ || l == "gz"@ {
        Some(CompressionType::Gzip)
    } else if l == "brotli"@ || l == "br"@ {
        Some(CompressionType::Brotli)
    } else {
        None
    }
}

/// Does `s` equal the lower-case ASCII word `w` when ASCII letters are
/// compared without case?
fn equals_ignore_case(s: &str, w: &str) -> (r: bool)
    requires
        forall|i: int| 0 <= i < w@.len() ==> ascii_lower(#[trigger] w@[i]) == w@[i],
    ensures
        r == (s@.map_values(|c: char| ascii_lower(c)) == w@),
{
    let n = s.unicode_len();
    let m = w.unicode_len();
    if n != m {
        proof {
            assert(s@.map_values(|c: char| ascii_lower(c)).len() != w@.len());
        }
        return false;
    }
    let mut i: usize = 0;
    while i < n
        invariant
            n == s@.len(),
            m == w@.len(),
            n == m,
            i <= n,
            forall|j: int| 0 <= j < i ==> ascii_lower(#[trigger] s@[j]) == w@[j],
        decreases n - i,
    {
        let c = s.get_char(i);
        let d = w.get_char(i);
        let lc = if 'A' <= c && c <= 'Z' {
            char_add_32(c)
        } else {
            c
        };
        if lc != d {
            proof {
                assert(s@.map_values(|c: char| ascii_lower(c))[i as int] != w@[i as int]);
            }
            return false;
        }
        i = i + 1;
    }
    proof {
        assert(s@.map_values(|c: char| ascii_lower(c)) =~= w@);
    }
    true
}

/// The lower-case letter of an upper-case ASCII letter.
fn char_add_32(c: char) -> (r: char)
    requires
        'A' <= c && c <= 'Z',
    ensures
        r == ascii_lower(c),
{
    let v: u32 = c as u32;
    let l: u8 = (v + 32) as u8;
    l as char
}

impl CompressionType {
    /// Parse compression type from string
    pub fn from_str(s: &str) -> (r: Result<Self, DumpError>)
        ensures
            r is Ok <==> compression_named(s@) is Some,
            r matches Ok(t) ==> compression_named(s@) == Some(t),
            r matches Err(e) ==> (e matches DumpError::Config(m) && m@ == "Unknown compression type: "@ + s@),
    {
        proof {
            reveal_strlit("none");
            reveal_strlit("zstd");
            reveal_strlit("gzip");
            reveal_strlit("gz");
            reveal_strlit("brotli");
            reveal_strlit("br");
        }
        if equals_ignore_case(s, "none") {
            Ok(CompressionType::Uncompressed)
        } else if equals_ignore_case(s, "zstd") {
            Ok(CompressionType::Zstd)
        } else if equals_ignore_case(s, "gzip") || equals_ignore_case(s, "gz") {
            Ok(CompressionType::Gzip)
        } else if equals_ignore_case(s, "brotli") || equals_ignore_case(s, "br") {
            Ok(CompressionType::Brotli)
        } else {
            Err(DumpError::Config(String::from_str("Unknown compression type: ").concat(s)))
        }
    }

    /// The file extension for this compression type.
    pub open spec fn extension_spec(self) -> Seq<char> {
        match self {
            CompressionType::Uncompressed => ""@,
            CompressionType::Zstd => ".zst"@,
            CompressionType::Gzip => ".gz"@,
            CompressionType::Brotli => ".br"@,
        }
    }

    /// Get file extension for this compression type
    pub fn extension(&self) -> (r: &'static str)
        ensures
            r@ == self.extension_spec(),
    {
        match self {
            CompressionType::Uncompressed => "",
            CompressionType::Zstd => ".zst",
            CompressionType::Gzip => ".gz",
            CompressionType::Brotli => ".br",
        }
    }
}

/// Dump metadata stored at the beginning of dump files
#[derive(Debug, Clone)]
pub struct DumpMetadata {
    /// Unique dump identifier
    pub dump_id: String,
    /// Database version
    pub version: String,
    /// Timestamp of dump creation (Unix timestamp)
    pub created_at: u64,
    /// LSN (Log Sequence Number) at time of dump
    pub lsn: u64,
    /// Compression type used
    pub compression: CompressionType,
    /// Total number of tables
    pub table_count: usize,
    /// Total number of rows
    pub row_count: u64,
    /// Total bytes (uncompressed)
    pub bytes_uncompressed: u64,
    /// Total bytes (compressed)
    pub bytes_compressed: u64,
    /// Whether this is an incremental dump
    pub incremental: bool,
    /// Previous dump LSN (for incremental dumps)
    pub previous_lsn: Option<u64>,
}

/// The version of this package, recorded in dump metadata.
pub open spec fn package_version() -> Seq<char> {
    "0.1.0"@
}

/// Is the character a lower-case hexadecimal digit?
pub open spec fn is_lower_hex(c: char) -> bool {
    ('0' <= c && c <= '9') || ('a' <= c && c <= 'f')
}

/// The shape of the text of a version 4 UUID: 36 characters, hyphens at
/// positions 8, 13, 18 and 23, lower-case hexadecimal digits elsewhere, and
/// the version digit `4` at position 14.
pub open spec fn uuid_v4_text(s: Seq<char>) -> bool {
    &&& s.len() == 36
    &&& forall|i: int|
        0 <= i < 36 ==> if i == 8 || i == 13 || i == 18 || i == 23 {
            #[trigger] s[i] == '-'
        } else {
            is_lower_hex(s[i])
        }
    &&& s[14] == '4'
}

/// `uuid::Uuid::new_v4().to_string()`: the hyphenated lower-case text of a
/// fresh random version 4 UUID. Its shape is stated; its digits are random.
#[verifier::external_body]
fn fresh_uuid_text() -> (r: String)
    ensures
        uuid_v4_text(r@),
{
    uuid::Uuid::new_v4().to_string()
}

impl DumpMetadata {
    /// Create a new dump metadata with a fresh id and the current time
    pub fn new(lsn: u64, compression: CompressionType, incremental: bool) -> (m: Self)
        ensures
            uuid_v4_text(m.dump_id@),
            m.version@ == package_version(),
            m.lsn == lsn,
            m.compression == compression,
            m.incremental == incremental,
            m.table_count == 0,
            m.row_count == 0,
            m.bytes_uncompressed == 0,
            m.bytes_compressed == 0,
            m.previous_lsn is None,
    {
        DumpMetadata {
            dump_id: fresh_uuid_text(),
            version: String::from_str("0.1.0"),
            created_at: crate::clock::unix_seconds(&crate::clock::system_time_now()),
            lsn,
            compression,
            table_count: 0,
            row_count: 0,
            bytes_uncompressed: 0,
            bytes_compressed: 0,
            incremental,
            previous_lsn: None,
        }
    }
}

/// The four little-endian bytes of `x`.
pub open spec fn le32_bytes(x: u32) -> Seq<u8> {
    seq![x as u8, (x >> 8u32) as u8, (x >> 16u32) as u8, (x >> 24u32) as u8]
}

/// The number that the four little-endian bytes of `b` at `p` encode.
pub open spec fn le32_at(b: Seq<u8>, p: int) -> u32 {
    (b[p] as u32) | ((b[p + 1] as u32) << 8u32) | ((b[p + 2] as u32) << 16u32) | ((b[p + 3] as u32) << 24u32)
}

/// Little-endian bytes give back the number they encode.
pub proof fn lemma_le32_roundtrip(b: Seq<u8>, p: int, x: u32)
    requires
        0 <= p,
        p + 4 <= b.len(),
        b.subrange(p, p + 4) == le32_bytes(x),
    ensures
        le32_at(b, p) == x,
{
    assert(b[p] == b.subrange(p, p + 4)[0]);
    assert(b[p + 1] == b.subrange(p, p + 4)[1]);
    assert(b[p + 2] == b.subrange(p, p + 4)[2]);
    assert(b[p + 3] == b.subrange(p, p + 4)[3]);
    let b0 = b[p];
    let b1 = b[p + 1];
    let b2 = b[p + 2];
    let b3 = b[p + 3];
    assert(b0 == x as u8 && b1 == (x >> 8u32) as u8 && b2 == (x >> 16u32) as u8 && b3 == (x >> 24u32) as u8 ==> (b0 as u32) | ((
    b1 as u32) << 8u32) | ((b2 as u32) << 16u32) | ((b3 as u32) << 24u32) == x) by (bit_vector);
}

/// Append the four little-endian bytes of `x`.
pub fn push_le32(out: &mut Vec<u8>, x: u32)
    ensures
        final(out)@ == old(out)@ + le32_bytes(x),
{
    out.push(x as u8);
    out.push((x >> 8u32) as u8);
    out.push((x >> 16u32) as u8);
    out.push((x >> 24u32) as u8);
    proof {
        assert(final(out)@ =~= old(out)@ + le32_bytes(x));
    }
}

/// Read the little-endian `u32` at `p`.
pub fn read_le32(b: &[u8], p: usize) -> (r: u32)
    requires
        p + 4 <= b@.len(),
    ensures
        r == le32_at(b@, p as int),
{
    (b[p] as u32) | ((b[p + 1] as u32) << 8u32) | ((b[p + 2] as u32) << 16u32) | ((b[p + 3] as u32) << 24u32)
}

/// The metadata frame holding the metadata text `json`.
pub open spec fn metadata_frame(json: Seq<u8>) -> Seq<u8> {
    dump_magic() + le32_bytes(DUMP_VERSION) + le32_bytes(json.len() as u32) + json
}

/// Why a metadata frame was refused.
pub open spec fn frame_error(b: Seq<u8>) -> Option<Seq<char>> {
    if b.len() < 8 {
        Some("Failed to read magic number: failed to fill whole buffer"@)
    } else if b.subrange(0, 8) != dump_magic() {
        Some("Invalid dump file: magic number mismatch"@)
    } else if b.len() < 12 {
        Some("Failed to read version: failed to fill whole buffer"@)
    } else if le32_at(b, 8) != DUMP_VERSION {
        Some("Incompatible dump version: expected 1, found "@ + crate::text::decimal_spec(le32_at(b, 8) as nat))
    } else if b.len() < 16 {
        Some("Failed to read metadata length: failed to fill whole buffer"@)
    } else if b.len() < 16 + le32_at(b, 12) {
        Some("Failed to read metadata: failed to fill whole buffer"@)
    } else {
        None
    }
}

/// Frame the metadata text `json` for the head of a dump file.
pub fn write_metadata_frame(json: &[u8]) -> (r: Vec<u8>)
    requires
        json@.len() <= u32::MAX,
    ensures
        r@ == metadata_frame(json@),
{
    let mut r: Vec<u8> = Vec::new();
    let magic = dump_magic_number();
    extend_bytes(&mut r, magic.as_slice());
    push_le32(&mut r, DUMP_VERSION);
    push_le32(&mut r, json.len() as u32);
    extend_bytes(&mut r, json);
    r
}

/// Read the metadata text out of the frame at the start of `b` (bytes after
/// the frame are ignored).
pub fn read_metadata_frame(b: &[u8]) -> (r: Result<Vec<u8>, DumpError>)
    ensures
        r is Ok <==> frame_error(b@) is None,
        r matches Ok(j) ==> j@ == b@.subrange(16, 16 + le32_at(b@, 12)),
        r matches Err(e) ==> (e matches DumpError::Io(m) && Some(m@) == frame_error(b@)),
{
    if b.len() < 8 {
        return Err(DumpError::Io(String::from_str("Failed to read magic number: failed to fill whole buffer")));
    }
    let magic = dump_magic_number();
    if !same_bytes(b.split_at(8).0, magic.as_slice()) {
        return Err(DumpError::Io(String::from_str("Invalid dump file: magic number mismatch")));
    }
    if b.len() < 12 {
        return Err(DumpError::Io(String::from_str("Failed to read version: failed to fill whole buffer")));
    }
    let version = read_le32(b, 8);
    if version != DUMP_VERSION {
        let found = crate::text::decimal(version as u64);
        return Err(
            DumpError::Io(String::from_str("Incompatible dump version: expected 1, found ").concat(found.as_str())),
        );
    }
    if b.len() < 16 {
        return Err(DumpError::Io(String::from_str("Failed to read metadata length: failed to fill whole buffer")));
    }
    let len = read_le32(b, 12) as usize;
    if b.len() - 16 < len {
        return Err(DumpError::Io(String::from_str("Failed to read metadata: failed to fill whole buffer")));
    }
    let mut j: Vec<u8> = Vec::new();
    let body = b.split_at(16).1;
    extend_bytes(&mut j, body.split_at(len).0);
    proof {
        assert(j@ =~= b@.subrange(16, 16 + le32_at(b@, 12)));
    }
    Ok(j)
}

/// A metadata frame reads back the metadata text it was written with.
pub proof fn law_metadata_frame_roundtrip(json: Seq<u8>, rest: Seq<u8>)
    requires
        json.len() <= u32::MAX,
    ensures
        frame_error(metadata_frame(json) + rest) is None,
        (metadata_frame(json) + rest).subrange(16, 16 + le32_at(metadata_frame(json) + rest, 12)) == json,
{
    let b = metadata_frame(json) + rest;
    assert(b.subrange(0, 8) =~= dump_magic());
    assert(b.subrange(8, 12) =~= le32_bytes(DUMP_VERSION));
    assert(b.subrange(12, 16) =~= le32_bytes(json.len() as u32));
    lemma_le32_roundtrip(b, 8, DUMP_VERSION);
    lemma_le32_roundtrip(b, 12, json.len() as u32);
    assert(b.subrange(16, 16 + json.len() as int) =~= json);
}

/// `std::io::Error`, the error of the compression libraries.
#[verifier::external_type_specification]
#[verifier::external_body]
pub struct ExIoError(std::io::Error);

/// The display text of an I/O error (`format!("{}", e)`). Nothing is stated
/// of the text.
#[verifier::external_body]
pub(crate) fn io_error_text(e: &std::io::Error) -> String {
    format!("{}", e)
}

/// What `zstd::encode_all` at level 3 makes of the data.
pub uninterp spec fn zstd_stream_encoded(data: Seq<u8>) -> Seq<u8>;

/// What `zstd::decode_all` makes of the data.
pub uninterp spec fn zstd_stream_decoded(data: Seq<u8>) -> Seq<u8>;

/// What a gzip encoder (flate2, default level) makes of the data.
pub uninterp spec fn gzip_encoded(data: Seq<u8>) -> Seq<u8>;

/// What a gzip decoder (flate2) makes of the data.
pub uninterp spec fn gzip_decoded(data: Seq<u8>) -> Seq<u8>;

/// What `brotli::BrotliCompress` with default parameters makes of the data.
pub uninterp spec fn brotli_encoded(data: Seq<u8>) -> Seq<u8>;

/// What `brotli::BrotliDecompress` makes of the data.
pub uninterp spec fn brotli_decoded(data: Seq<u8>) -> Seq<u8>;

/// `zstd::encode_all(data, 3)`. It reads from memory and writes into a `Vec`,
/// at a valid level, so it succeeds; its output is the named encoding of the
/// data, and decoding that output gives the data back (zstd is lossless).
#[verifier::external_body]
fn zstd_encode_all(data: &[u8]) -> (r: Result<Vec<u8>, std::io::Error>)
    ensures
        r is Ok,
        r matches Ok(c) ==> c@ == zstd_stream_encoded(data@) && zstd_stream_decoded(c@) == data@,
{
    zstd::encode_all(data, 3)
}

/// `zstd::decode_all(data)`. It succeeds on what `zstd::encode_all` made;
/// when it succeeds its output is the named decoding of the data. On other
/// input whether it succeeds is not stated.
#[verifier::external_body]
fn zstd_decode_all(data: &[u8]) -> (r: Result<Vec<u8>, std::io::Error>)
    ensures
        (exists|x: Seq<u8>| data@ == zstd_stream_encoded(x)) ==> r is Ok,
        r matches Ok(d) ==> d@ == zstd_stream_decoded(data@),
{
    zstd::decode_all(data)
}

/// A gzip encoder (`flate2::write::GzEncoder`, default level) fed the data and
/// finished. It writes into a `Vec`, so it succeeds; its output is the named
/// encoding, and decoding it gives the data back (gzip is lossless).
#[verifier::external_body]
fn gzip_encode(data: &[u8]) -> (r: Result<Vec<u8>, std::io::Error>)
    ensures
        r is Ok,
        r matches Ok(c) ==> c@ == gzip_encoded(data@) && gzip_decoded(c@) == data@,
{
    let mut encoder = flate2::write::GzEncoder::new(Vec::new(), flate2::Compression::default());
    encoder.write_all(data)?;
    encoder.finish()
}

/// A gzip decoder (`flate2::read::GzDecoder`) read to the end. It succeeds on
/// what the gzip encoder made; when it succeeds its output is the named
/// decoding of the data. On other input whether it succeeds is not stated.
#[verifier::external_body]
fn gzip_decode(data: &[u8]) -> (r: Result<Vec<u8>, std::io::Error>)
    ensures
        (exists|x: Seq<u8>| data@ == gzip_encoded(x)) ==> r is Ok,
        r matches Ok(d) ==> d@ == gzip_decoded(data@),
{
    let mut decoder = flate2::read::GzDecoder::new(data);
    let mut output = Vec::new();
    decoder.read_to_end(&mut output)?;
    Ok(output)
}

/// `brotli::BrotliCompress` with default parameters. It reads from memory and
/// writes into a `Vec`, so it succeeds; its output is the named encoding, and
/// decoding it gives the data back (brotli is lossless).
#[verifier::external_body]
fn brotli_encode(data: &[u8]) -> (r: Result<Vec<u8>, std::io::Error>)
    ensures
        r is Ok,
        r matches Ok(c) ==> c@ == brotli_encoded(data@) && brotli_decoded(c@) == data@,
{
    let mut output = Vec::new();
    let params = brotli::enc::BrotliEncoderParams::default();
    brotli::BrotliCompress(&mut std::io::Cursor::new(data), &mut output, &params)?;
    Ok(output)
}

/// `brotli::BrotliDecompress`. It succeeds on what `BrotliCompress` made; when
/// it succeeds its output is the named decoding of the data. On other input
/// whether it succeeds is not stated.
#[verifier::external_body]
fn brotli_decode(data: &[u8]) -> (r: Result<Vec<u8>, std::io::Error>)
    ensures
        (exists|x: Seq<u8>| data@ == brotli_encoded(x)) ==> r is Ok,
        r matches Ok(d) ==> d@ == brotli_decoded(data@),
{
    let mut output = Vec::new();
    brotli::BrotliDecompress(&mut std::io::Cursor::new(data), &mut output)?;
    Ok(output)
}

/// The bytes a compression type makes of the data.
pub open spec fn compressed_spec(data: Seq<u8>, c: CompressionType) -> Seq<u8> {
    match c {
        CompressionType::Uncompressed => data,
        CompressionType::Zstd => zstd_stream_encoded(data),
        CompressionType::Gzip => gzip_encoded(data),
        CompressionType::Brotli => brotli_encoded(data),
    }
}

/// The bytes a compression type decodes the data to.
pub open spec fn decompressed_spec(data: Seq<u8>, c: CompressionType) -> Seq<u8> {
    match c {
        CompressionType::Uncompressed => data,
        CompressionType::Zstd => zstd_stream_decoded(data),
        CompressionType::Gzip => gzip_decoded(data),
        CompressionType::Brotli => brotli_decoded(data),
    }
}

/// Dump file format handler
pub struct DumpFormat;

impl DumpFormat {
    /// Compress data using the specified compression type
    pub fn compress(data: &[u8], compression: CompressionType) -> (r: Result<Vec<u8>, DumpError>)
        ensures
            r is Ok,
            r matches Ok(c) ==> c@ == compressed_spec(data@, compression) && decompressed_spec(c@, compression) == data@,
            r matches Err(e) ==> e is Io,
    {
        match compression {
            CompressionType::Uncompressed => Ok(crate::art_node::bytes_to_vec(data)),
            CompressionType::Zstd => match zstd_encode_all(data) {
                Ok(c) => Ok(c),
                Err(e) => Err(DumpError::Io(String::from_str("Zstd compression failed: ").concat(io_error_text(&e).as_str()))),
            },
            CompressionType::Gzip => match gzip_encode(data) {
                Ok(c) => Ok(c),
                Err(e) => Err(DumpError::Io(String::from_str("Gzip compression failed: ").concat(io_error_text(&e).as_str()))),
            },
            CompressionType::Brotli => match brotli_encode(data) {
                Ok(c) => Ok(c),
                Err(e) => Err(
                    DumpError::Io(String::from_str("Brotli compression failed: ").concat(io_error_text(&e).as_str())),
                ),
            },
        }
    }

    /// Decompress data using the specified compression type
    pub fn decompress(data: &[u8], compression: CompressionType) -> (r: Result<Vec<u8>, DumpError>)
        ensures
            (exists|x: Seq<u8>| data@ == compressed_spec(x, compression)) ==> r is Ok,
            r matches Ok(d) ==> d@ == decompressed_spec(data@, compression),
            r matches Err(e) ==> e is Io,
    {
        match compression {
            CompressionType::Uncompressed => Ok(crate::art_node::bytes_to_vec(data)),
            CompressionType::Zstd => match zstd_decode_all(data) {
                Ok(d) => Ok(d),
                Err(e) => Err(
                    DumpError::Io(String::from_str("Zstd decompression failed: ").concat(io_error_text(&e).as_str())),
                ),
            },
            CompressionType::Gzip => match gzip_decode(data) {
                Ok(d) => Ok(d),
                Err(e) => Err(
                    DumpError::Io(String::from_str("Gzip decompression failed: ").concat(io_error_text(&e).as_str())),
                ),
            },
            CompressionType::Brotli => match brotli_decode(data) {
                Ok(d) => Ok(d),
                Err(e) => Err(
                    DumpError::Io(String::from_str("Brotli decompression failed: ").concat(io_error_text(&e).as_str())),
                ),
            },
        }
    }
}

/// Decompressing what compression produced gives the data back: when
/// `DumpFormat::compress` hands back `compressed` for `data` and
/// `DumpFormat::decompress` hands back `restored` for `compressed`, with the
/// same compression type, then `restored` is `data`.
pub proof fn law_compression_roundtrip(data: Seq<u8>, c: CompressionType, compressed: Seq<u8>, restored: Seq<u8>)
    requires
        compressed == compressed_spec(data, c),
        decompressed_spec(compressed, c) == data,
        restored == decompressed_spec(compressed, c),
    ensures
        restored == data,
{
}

} // verus!
