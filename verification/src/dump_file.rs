//! The layout of a dump file, and the metadata of dumps.
//!
//! A dump file starts with the magic number `HELIODMP`, the format version
//! (little-endian `u32`) and a reserved region of 8192 bytes that holds the
//! metadata of the dump. Then come, in any order, table sections (marker
//! `TABL`) and incremental markers (`INCR`); a full dump ends with the marker
//! `ENDD`, an incremental dump just ends.
//!
//! A table section is: the marker `TABL`; the table name (length as a
//! little-endian `u32`, then its UTF-8 bytes); the serialized schema and the
//! serialized index list (each a little-endian `u32` length and the bytes);
//! the row count (little-endian `u64`); the compressed row batches, each a
//! non-empty byte string preceded by its length (little-endian `u32`); and a
//! zero length that ends the table.
use vstd::prelude::*;
use crate::dump_format::{DumpError, CompressionType, dump_magic, dump_magic_number, le32_bytes, le32_at, push_le32, read_le32, lemma_le32_roundtrip, DUMP_VERSION};
use crate::dump_format::io_error_text;
use crate::text::{extend_bytes, same_bytes, decimal, decimal_spec, hex_padded, hex_spec};

verus! {

/// Size of the region reserved for the dump metadata after the version.
pub const METADATA_REGION: usize = 8192;

/// The table marker `TABL`.
pub open spec fn table_marker() -> Seq<u8> {
    seq![84u8, 65u8, 66u8, 76u8]
}

/// The end-of-dump marker `ENDD`.
pub open spec fn end_marker() -> Seq<u8> {
    seq![69u8, 78u8, 68u8, 68u8]
}

/// The incremental marker `INCR`.
pub open spec fn incremental_marker() -> Seq<u8> {
    seq![73u8, 78u8, 67u8, 82u8]
}

/// The eight little-endian bytes of `x`.
pub open spec fn le64_bytes(x: u64) -> Seq<u8> {
    seq![
        x as u8,
        (x >> 8u64) as u8,
        (x >> 16u64) as u8,
        (x >> 24u64) as u8,
        (x >> 32u64) as u8,
        (x >> 40u64) as u8,
        (x >> 48u64) as u8,
        (x >> 56u64) as u8,
    ]
}

/// The number that the eight little-endian bytes of `b` at `p` encode.
pub open spec fn le64_at(b: Seq<u8>, p: int) -> u64 {
    (b[p] as u64) | ((b[p + 1] as u64) << 8u64) | ((b[p + 2] as u64) << 16u64) | ((b[p + 3] as u64) << 24u64) | ((b[p
        + 4] as u64) << 32u64) | ((b[p + 5] as u64) << 40u64) | ((b[p + 6] as u64) << 48u64) | ((b[p + 7] as u64) << 56u64)
}

pub proof fn lemma_le64_roundtrip(b: Seq<u8>, p: int, x: u64)
    requires
        0 <= p,
        p + 8 <= b.len(),
        b.subrange(p, p + 8) == le64_bytes(x),
    ensures
        le64_at(b, p) == x,
{
    let s = b.subrange(p, p + 8);
    assert(b[p] == s[0] && b[p + 1] == s[1] && b[p + 2] == s[2] && b[p + 3] == s[3]);
    assert(b[p + 4] == s[4] && b[p + 5] == s[5] && b[p + 6] == s[6] && b[p + 7] == s[7]);
    let (b0, b1, b2, b3, b4, b5, b6, b7) = (b[p], b[p + 1], b[p + 2], b[p + 3], b[p + 4], b[p + 5], b[p + 6], b[p + 7]);
    assert(b0 == x as u8 && b1 == (x >> 8u64) as u8 && b2 == (x >> 16u64) as u8 && b3 == (x >> 24u64) as u8 && b4 == (x
        >> 32u64) as u8 && b5 == (x >> 40u64) as u8 && b6 == (x >> 48u64) as u8 && b7 == (x >> 56u64) as u8 ==> (b0 as u64)
        | ((b1 as u64) << 8u64) | ((b2 as u64) << 16u64) | ((b3 as u64) << 24u64) | ((b4 as u64) << 32u64) | ((b5 as u64)
        << 40u64) | ((b6 as u64) << 48u64) | ((b7 as u64) << 56u64) == x) by (bit_vector);
}

/// A table as a dump file holds it.
pub struct SectionModel {
    /// Table name
    pub name: Seq<char>,
    /// Serialized schema
    pub schema: Seq<u8>,
    /// Serialized index list
    pub indexes: Seq<u8>,
    /// Row count recorded for the table
    pub row_count: u64,
    /// Compressed row batches
    pub batches: Seq<Seq<u8>>,
}

/// The encoding of a list of row batches, ended by a zero length.
pub open spec fn encode_batches(bs: Seq<Seq<u8>>) -> Seq<u8>
    decreases bs.len(),
{
    if bs.len() == 0 {
        le32_bytes(0)
    } else {
        le32_bytes(bs[0].len() as u32) + bs[0] + encode_batches(bs.drop_first())
    }
}

/// The encoding of a table section.
pub open spec fn encode_section(s: SectionModel) -> Seq<u8> {
    let name = vstd::utf8::encode_utf8(s.name);
    table_marker() + le32_bytes(name.len() as u32) + name + le32_bytes(s.schema.len() as u32) + s.schema + le32_bytes(
        s.indexes.len() as u32,
    ) + s.indexes + le64_bytes(s.row_count) + encode_batches(s.batches)
}

/// The encoding of a list of table sections, one after the other.
pub open spec fn encode_sections(ss: Seq<SectionModel>) -> Seq<u8>
    decreases ss.len(),
{
    if ss.len() == 0 {
        Seq::empty()
    } else {
        encode_section(ss[0]) + encode_sections(ss.drop_first())
    }
}

/// Every length of the section fits its `u32` field, and every batch is non-empty.
pub open spec fn section_encodable(s: SectionModel) -> bool {
    &&& vstd::utf8::encode_utf8(s.name).len() <= u32::MAX
    &&& s.schema.len() <= u32::MAX
    &&& s.indexes.len() <= u32::MAX
    &&& forall|i: int| 0 <= i < s.batches.len() ==> 0 < (#[trigger] s.batches[i]).len() <= u32::MAX
}

/// Why reading a dump failed.
pub enum ParseFailure {
    /// The failure and its message
    Message(Seq<char>),
    /// A table name that is not UTF-8
    BadTableName,
}

/// The message of a read that ran out of bytes.
pub open spec fn short_read(what: Seq<char>) -> ParseFailure {
    ParseFailure::Message("Failed to read "@ + what + ": failed to fill whole buffer"@)
}

/// Read the row batches of a table starting at `p`: the batches and the
/// position after the terminating zero length.
pub open spec fn parse_batches(b: Seq<u8>, p: int) -> Result<(Seq<Seq<u8>>, int), ParseFailure>
    decreases b.len() - p,
{
    if p < 0 || p + 4 > b.len() {
        Err(short_read("batch length"@))
    } else {
        let l = le32_at(b, p) as int;
        if l == 0 {
            Ok((Seq::empty(), p + 4))
        } else if p + 4 + l > b.len() {
            Err(short_read("batch"@))
        } else {
            match parse_batches(b, p + 4 + l) {
                Ok((bs, q)) => Ok((seq![b.subrange(p + 4, p + 4 + l)] + bs, q)),
                Err(e) => Err(e),
            }
        }
    }
}

/// Read a length-prefixed byte string at `p`: the bytes and the position after them.
pub open spec fn parse_field(b: Seq<u8>, p: int, len_name: Seq<char>, name: Seq<char>) -> Result<(Seq<u8>, int), ParseFailure> {
    if p < 0 || p + 4 > b.len() {
        Err(short_read(len_name))
    } else {
        let l = le32_at(b, p) as int;
        if p + 4 + l > b.len() {
            Err(short_read(name))
        } else {
            Ok((b.subrange(p + 4, p + 4 + l), p + 4 + l))
        }
    }
}

/// Read a table section whose marker ends at `p`: the section and the
/// position after it.
pub open spec fn parse_section(b: Seq<u8>, p: int) -> Result<(SectionModel, int), ParseFailure> {
    match parse_field(b, p, "table name length"@, "table name"@) {
        Err(e) => Err(e),
        Ok((name, p1)) => if !vstd::utf8::valid_utf8(name) {
            Err(ParseFailure::BadTableName)
        } else {
            match parse_field(b, p1, "schema length"@, "schema"@) {
                Err(e) => Err(e),
                Ok((schema, p2)) => match parse_field(b, p2, "indexes length"@, "indexes"@) {
                    Err(e) => Err(e),
                    Ok((indexes, p3)) => if p3 + 8 > b.len() {
                        Err(short_read("row count"@))
                    } else {
                        match parse_batches(b, p3 + 8) {
                            Err(e) => Err(e),
                            Ok((batches, q)) => Ok(
                                (
                                    SectionModel {
                                        name: vstd::utf8::decode_utf8(name),
                                        schema,
                                        indexes,
                                        row_count: le64_at(b, p3),
                                        batches,
                                    },
                                    q,
                                ),
                            ),
                        }
                    }
                },
            }
        }
    }
}

pub proof fn lemma_batches_advance(b: Seq<u8>, p: int)
    ensures
        parse_batches(b, p) matches Ok((_, q)) ==> p + 4 <= q <= b.len(),
    decreases b.len() - p,
{
    if p >= 0 && p + 4 <= b.len() {
        let l = le32_at(b, p) as int;
        if l != 0 && p + 4 + l <= b.len() {
            lemma_batches_advance(b, p + 4 + l);
        }
    }
}

pub proof fn lemma_section_advance(b: Seq<u8>, p: int)
    ensures
        parse_section(b, p) matches Ok((_, q)) ==> p < q <= b.len(),
{
    if let Ok((name, p1)) = parse_field(b, p, "table name length"@, "table name"@) {
        if let Ok((schema, p2)) = parse_field(b, p1, "schema length"@, "schema"@) {
            if let Ok((indexes, p3)) = parse_field(b, p2, "indexes length"@, "indexes"@) {
                lemma_batches_advance(b, p3 + 8);
            }
        }
    }
}

/// The debug text of a four-byte marker, as `{:?}` writes a byte array.
pub open spec fn marker_text(m: Seq<u8>) -> Seq<char> {
    "["@ + decimal_spec(m[0] as nat) + ", "@ + decimal_spec(m[1] as nat) + ", "@ + decimal_spec(m[2] as nat) + ", "@
        + decimal_spec(m[3] as nat) + "]"@
}

/// Read the sections of a dump from position `p` on, up to the end marker or
/// the end of the bytes.
#[verifier::opaque]
pub open spec fn parse_body(b: Seq<u8>, p: int) -> Result<Seq<SectionModel>, ParseFailure>
    decreases b.len() - p,
{
    if p < 0 || p + 4 > b.len() {
        Ok(Seq::empty())
    } else {
        let m = b.subrange(p, p + 4);
        if m == end_marker() {
            Ok(Seq::empty())
        } else if m == incremental_marker() {
            parse_body(b, p + 4)
        } else if m == table_marker() {
            match parse_section(b, p + 4) {
                Err(e) => Err(e),
                Ok((s, q)) => {
                    proof {
                        lemma_section_advance(b, p + 4);
                    }
                    match parse_body(b, q) {
                        Ok(rest) => Ok(seq![s] + rest),
                        Err(e) => Err(e),
                    }
                },
            }
        } else {
            Err(ParseFailure::Message("Invalid marker: "@ + marker_text(m)))
        }
    }
}

/// Read a whole dump file: check the magic number and the version, skip the
/// metadata region, and read the sections.
pub open spec fn parse_dump_spec(b: Seq<u8>) -> Result<Seq<SectionModel>, ParseFailure> {
    if b.len() < 8 {
        Err(short_read("magic bytes"@))
    } else if b.subrange(0, 8) != dump_magic() {
        Err(ParseFailure::Message("Invalid dump file: bad magic bytes"@))
    } else if b.len() < 12 {
        Err(short_read("version"@))
    } else if le32_at(b, 8) != DUMP_VERSION {
        Err(ParseFailure::Message("Unsupported dump version: "@ + decimal_spec(le32_at(b, 8) as nat)))
    } else {
        parse_body(b, 8204int)
    }
}

/// A table of a dump file.
#[derive(Debug, Clone)]
pub struct TableSection {
    /// Table name
    pub name: String,
    /// Serialized schema
    pub schema: Vec<u8>,
    /// Serialized index list
    pub indexes: Vec<u8>,
    /// Row count recorded for the table
    pub row_count: u64,
    /// Compressed row batches
    pub batches: Vec<Vec<u8>>,
}

/// The model of a table section.
pub open spec fn section_model(s: TableSection) -> SectionModel {
    SectionModel {
        name: s.name@,
        schema: s.schema@,
        indexes: s.indexes@,
        row_count: s.row_count,
        batches: s.batches@.map_values(|v: Vec<u8>| v@),
    }
}

/// The models of a list of table sections.
pub open spec fn section_models(ss: Seq<TableSection>) -> Seq<SectionModel> {
    ss.map_values(|s: TableSection| section_model(s))
}

/// Does the library error carry the parse failure?
pub open spec fn reports(e: DumpError, f: ParseFailure) -> bool {
    match f {
        ParseFailure::Message(m) => e matches DumpError::Storage(t) && t@ == m,
        ParseFailure::BadTableName => e matches DumpError::Storage(t) && "Invalid table name: "@.is_prefix_of(t@),
    }
}

/// The header of a new dump file: magic number, version and an empty metadata region.
pub fn dump_file_header() -> (r: Vec<u8>)
    ensures
        r@.len() == 12 + 8192,
        r@.subrange(0, 8) == dump_magic(),
        r@.subrange(8, 12) == le32_bytes(DUMP_VERSION),
{
    let mut r: Vec<u8> = Vec::new();
    let magic = dump_magic_number();
    extend_bytes(&mut r, magic.as_slice());
    push_le32(&mut r, DUMP_VERSION);
    let mut i: usize = 0;
    while i < METADATA_REGION
        invariant
            i <= 8192,
            r@.len() == 12 + i,
            r@.subrange(0, 8) == dump_magic(),
            r@.subrange(8, 12) == le32_bytes(DUMP_VERSION),
        decreases 8192 - i,
    {
        let ghost r0 = r@;
        r.push(0u8);
        i = i + 1;
        proof {
            assert(r@.subrange(0, 8) =~= r0.subrange(0, 8));
            assert(r@.subrange(8, 12) =~= r0.subrange(8, 12));
        }
    }
    r
}

/// Append a marker.
fn push_marker(out: &mut Vec<u8>, a: u8, b: u8, c: u8, d: u8)
    ensures
        final(out)@ == old(out)@ + seq![a, b, c, d],
{
    out.push(a);
    out.push(b);
    out.push(c);
    out.push(d);
    proof {
        assert(final(out)@ =~= old(out)@ + seq![a, b, c, d]);
    }
}

/// Append the end-of-dump marker.
pub fn push_end_marker(out: &mut Vec<u8>)
    ensures
        final(out)@ == old(out)@ + end_marker(),
{
    push_marker(out, 69u8, 78u8, 68u8, 68u8);
}

/// Append the incremental marker.
pub fn push_incremental_marker(out: &mut Vec<u8>)
    ensures
        final(out)@ == old(out)@ + incremental_marker(),
{
    push_marker(out, 73u8, 78u8, 67u8, 82u8);
}

/// Append the eight little-endian bytes of `x`.
fn push_le64(out: &mut Vec<u8>, x: u64)
    ensures
        final(out)@ == old(out)@ + le64_bytes(x),
{
    out.push(x as u8);
    out.push((x >> 8u64) as u8);
    out.push((x >> 16u64) as u8);
    out.push((x >> 24u64) as u8);
    out.push((x >> 32u64) as u8);
    out.push((x >> 40u64) as u8);
    out.push((x >> 48u64) as u8);
    out.push((x >> 56u64) as u8);
    proof {
        assert(final(out)@ =~= old(out)@ + le64_bytes(x));
    }
}

/// Append a table section.
pub fn push_table_section(out: &mut Vec<u8>, name: &str, schema: &[u8], indexes: &[u8], row_count: u64, batches: &Vec<Vec<u8>>)
    requires
        vstd::utf8::encode_utf8(name@).len() <= u32::MAX,
        schema@.len() <= u32::MAX,
        indexes@.len() <= u32::MAX,
        forall|i: int| 0 <= i < batches@.len() ==> (#[trigger] batches@[i])@.len() <= u32::MAX,
    ensures
        final(out)@ == old(out)@ + encode_section(
            SectionModel {
                name: name@,
                schema: schema@,
                indexes: indexes@,
                row_count,
                batches: batches@.map_values(|v: Vec<u8>| v@),
            },
        ),
{
    let ghost o0 = old(out)@;
    push_marker(out, 84u8, 65u8, 66u8, 76u8);
    let nb = name.as_bytes();
    push_le32(out, nb.len() as u32);
    extend_bytes(out, nb);
    push_le32(out, schema.len() as u32);
    extend_bytes(out, schema);
    push_le32(out, indexes.len() as u32);
    extend_bytes(out, indexes);
    push_le64(out, row_count);
    let ghost before_batches = out@;
    let ghost bs = batches@.map_values(|v: Vec<u8>| v@);
    let mut i: usize = 0;
    proof {
        assert(bs.subrange(0, bs.len() as int) =~= bs);
    }
    while i < batches.len()
        invariant
            i <= batches@.len(),
            bs == batches@.map_values(|v: Vec<u8>| v@),
            forall|j: int| 0 <= j < batches@.len() ==> (#[trigger] batches@[j])@.len() <= u32::MAX,
            before_batches + encode_batches(bs) == out@ + encode_batches(bs.subrange(i as int, bs.len() as int)),
        decreases batches@.len() - i,
    {
        let ghost rest = bs.subrange(i as int, bs.len() as int);
        let ghost out_i = out@;
        let bch = &batches[i];
        push_le32(out, bch.len() as u32);
        extend_bytes(out, bch.as_slice());
        i = i + 1;
        proof {
            assert(rest.drop_first() =~= bs.subrange(i as int, bs.len() as int));
            assert(rest[0] == bch@);
            assert(encode_batches(rest) == le32_bytes(bch@.len() as u32) + bch@ + encode_batches(rest.drop_first()));
            assert(out_i + encode_batches(rest) =~= out@ + encode_batches(rest.drop_first()));
        }
    }
    push_le32(out, 0);
    proof {
        assert(bs.subrange(i as int, bs.len() as int).len() == 0);
        assert(encode_batches(bs.subrange(i as int, bs.len() as int)) == le32_bytes(0));
        assert(final(out)@ =~= o0 + encode_section(
            SectionModel {
                name: name@,
                schema: schema@,
                indexes: indexes@,
                row_count,
                batches: bs,
            },
        ));
    }
}

/// Does every length of the table fit its `u32` field, and is every batch non-empty?
pub fn section_fits(t: &TableSection) -> (r: bool)
    ensures
        r == section_encodable(section_model(*t)),
{
    let nb = t.name.as_str().as_bytes();
    if nb.len() > 0xffff_ffffusize || t.schema.len() > 0xffff_ffffusize || t.indexes.len() > 0xffff_ffffusize {
        return false;
    }
    let ghost bs = t.batches@.map_values(|v: Vec<u8>| v@);
    let mut i: usize = 0;
    while i < t.batches.len()
        invariant
            i <= t.batches@.len(),
            bs == t.batches@.map_values(|v: Vec<u8>| v@),
            forall|j: int| 0 <= j < i ==> 0 < (#[trigger] bs[j]).len() <= u32::MAX,
        decreases t.batches@.len() - i,
    {
        let l = t.batches[i].len();
        if l == 0 || l > 0xffff_ffffusize {
            proof {
                assert(bs[i as int] == t.batches@[i as int]@);
                assert(section_model(*t).batches[i as int] == bs[i as int]);
            }
            return false;
        }
        i = i + 1;
    }
    true
}

/// Append the sections of the tables one after the other. Where a table
/// cannot be framed, nothing is written and the error names that table.
pub fn push_table_sections(out: &mut Vec<u8>, tables: &[TableSection]) -> (r: Result<(), DumpError>)
    ensures
        r is Ok <==> forall|i: int| 0 <= i < tables@.len() ==> section_encodable(section_model(#[trigger] tables@[i])),
        r is Ok ==> final(out)@ == old(out)@ + encode_sections(section_models(tables@)),
        r is Err ==> final(out)@ == old(out)@,
        r matches Err(e) ==> e matches DumpError::Storage(t) && "Table section cannot be framed: "@.is_prefix_of(t@),
{
    let mut k: usize = 0;
    while k < tables.len()
        invariant
            k <= tables@.len(),
            forall|i: int| 0 <= i < k ==> section_encodable(section_model(#[trigger] tables@[i])),
        decreases tables@.len() - k,
    {
        if !section_fits(&tables[k]) {
            return Err(DumpError::Storage(String::from_str("Table section cannot be framed: ").concat(tables[k].name.as_str())));
        }
        k = k + 1;
    }
    let ghost o0 = out@;
    let ghost ms = section_models(tables@);
    let mut i: usize = 0;
    proof {
        assert(ms.subrange(0, ms.len() as int) =~= ms);
    }
    while i < tables.len()
        invariant
            i <= tables@.len(),
            ms == section_models(tables@),
            forall|j: int| 0 <= j < tables@.len() ==> section_encodable(section_model(#[trigger] tables@[j])),
            o0 + encode_sections(ms) == out@ + encode_sections(ms.subrange(i as int, ms.len() as int)),
        decreases tables@.len() - i,
    {
        let ghost rest = ms.subrange(i as int, ms.len() as int);
        let ghost out_i = out@;
        let t = &tables[i];
        proof {
            assert(section_encodable(section_model(tables@[i as int])));
            assert(forall|j: int| 0 <= j < t.batches@.len() ==> (#[trigger] t.batches@[j])@.len() <= u32::MAX) by {
                assert forall|j: int| 0 <= j < t.batches@.len() implies (#[trigger] t.batches@[j])@.len() <= u32::MAX by {
                    assert(section_model(*t).batches[j] == t.batches@[j]@);
                }
            }
        }
        push_table_section(out, t.name.as_str(), t.schema.as_slice(), t.indexes.as_slice(), t.row_count, &t.batches);
        i = i + 1;
        proof {
            assert(rest.drop_first() =~= ms.subrange(i as int, ms.len() as int));
            assert(rest[0] == section_model(*t));
            assert(out_i + encode_sections(rest) =~= out@ + encode_sections(rest.drop_first()));
        }
    }
    proof {
        assert(ms.subrange(0, ms.len() as int) =~= ms);
        assert(ms.subrange(i as int, ms.len() as int) =~= Seq::<SectionModel>::empty());
        assert(out@ =~= o0 + encode_sections(ms));
    }
    Ok(())
}

/// The error of a read that ran out of bytes.
fn short_read_error(what: &str) -> (e: DumpError)
    ensures
        reports(e, short_read(what@)),
{
    DumpError::Storage(String::from_str("Failed to read ").concat(what).concat(": failed to fill whole buffer"))
}

/// Does the result of a field read agree with its model?
pub open spec fn field_agrees(r: Result<(Vec<u8>, usize), DumpError>, s: Result<(Seq<u8>, int), ParseFailure>) -> bool {
    match (r, s) {
        (Ok((v, q)), Ok((w, q2))) => v@ == w && q == q2,
        (Err(e), Err(f)) => reports(e, f),
        _ => false,
    }
}

/// Read a length-prefixed byte string at `p`.
fn read_field(b: &[u8], p: usize, len_name: &str, name: &str) -> (r: Result<(Vec<u8>, usize), DumpError>)
    requires
        p <= b@.len(),
    ensures
        field_agrees(r, parse_field(b@, p as int, len_name@, name@)),
        r matches Ok((_, q)) ==> q <= b@.len(),
{
    if b.len() - p < 4 {
        return Err(short_read_error(len_name));
    }
    let l = read_le32(b, p) as usize;
    if b.len() - p - 4 < l {
        return Err(short_read_error(name));
    }
    let mut v: Vec<u8> = Vec::new();
    let tail = b.split_at(p + 4).1;
    extend_bytes(&mut v, tail.split_at(l).0);
    proof {
        assert(v@ =~= b@.subrange(p + 4, p + 4 + l));
    }
    Ok((v, p + 4 + l))
}

/// Does the result of a batch read agree with its model, given the batches read before?
pub open spec fn batches_agree(
    r: Result<(Vec<Vec<u8>>, usize), DumpError>,
    s: Result<(Seq<Seq<u8>>, int), ParseFailure>,
) -> bool {
    match (r, s) {
        (Ok((v, q)), Ok((w, q2))) => v@.map_values(|x: Vec<u8>| x@) == w && q == q2,
        (Err(e), Err(f)) => reports(e, f),
        _ => false,
    }
}

/// The batches read so far put in front of what the rest reads.
pub open spec fn after_batches(acc: Seq<Seq<u8>>, r: Result<(Seq<Seq<u8>>, int), ParseFailure>) -> Result<(Seq<Seq<u8>>, int), ParseFailure> {
    match r {
        Ok((bs, q)) => Ok((acc + bs, q)),
        Err(e) => Err(e),
    }
}

/// Read the row batches of a table starting at `p`.
fn read_batches(b: &[u8], p0: usize) -> (r: Result<(Vec<Vec<u8>>, usize), DumpError>)
    requires
        p0 <= b@.len(),
    ensures
        batches_agree(r, parse_batches(b@, p0 as int)),
        r matches Ok((_, q)) ==> q <= b@.len(),
{
    let mut acc: Vec<Vec<u8>> = Vec::new();
    let mut p: usize = p0;
    proof {
        assert(after_batches(Seq::empty(), parse_batches(b@, p0 as int)) =~~= parse_batches(b@, p0 as int)) by {
            if let Ok((bs, q)) = parse_batches(b@, p0 as int) {
                assert(Seq::<Seq<u8>>::empty() + bs =~= bs);
            }
        }
    }
    loop
        invariant
            p0 <= p <= b@.len(),
            parse_batches(b@, p0 as int) == after_batches(acc@.map_values(|x: Vec<u8>| x@), parse_batches(b@, p as int)),
        decreases b@.len() - p,
    {
        if b.len() - p < 4 {
            return Err(short_read_error("batch length"));
        }
        let l = read_le32(b, p) as usize;
        if l == 0 {
            proof {
                assert(acc@.map_values(|x: Vec<u8>| x@) + Seq::<Seq<u8>>::empty() =~= acc@.map_values(|x: Vec<u8>| x@));
            }
            return Ok((acc, p + 4));
        }
        if b.len() - p - 4 < l {
            return Err(short_read_error("batch"));
        }
        let mut v: Vec<u8> = Vec::new();
        let tail = b.split_at(p + 4).1;
        extend_bytes(&mut v, tail.split_at(l).0);
        let ghost a0 = acc@.map_values(|x: Vec<u8>| x@);
        proof {
            assert(v@ =~= b@.subrange(p + 4, p + 4 + l));
        }
        acc.push(v);
        proof {
            let x = b@.subrange(p + 4, p + 4 + l);
            assert(acc@.map_values(|x: Vec<u8>| x@) =~= a0.push(x));
            if let Ok((bs, q)) = parse_batches(b@, p + 4 + l) {
                assert(a0 + (seq![x] + bs) =~= a0.push(x) + bs);
            }
        }
        p = p + 4 + l;
    }
}

/// Does the result of a section read agree with its model?
pub open spec fn section_agrees(r: Result<(TableSection, usize), DumpError>, s: Result<(SectionModel, int), ParseFailure>) -> bool {
    match (r, s) {
        (Ok((t, q)), Ok((m, q2))) => section_model(t) == m && q == q2,
        (Err(e), Err(f)) => reports(e, f),
        _ => false,
    }
}

/// Read a table section whose marker ends at `p`.
fn read_section(b: &[u8], p: usize) -> (r: Result<(TableSection, usize), DumpError>)
    requires
        p <= b@.len(),
    ensures
        section_agrees(r, parse_section(b@, p as int)),
        r matches Ok((_, q)) ==> q <= b@.len(),
{
    let (name_bytes, p1) = match read_field(b, p, "table name length", "table name") {
        Ok(x) => x,
        Err(e) => return Err(e),
    };
    let ghost nb = name_bytes@;
    let name = match crate::branch::utf8_string(name_bytes) {
        Ok(s) => s,
        Err(msg) => return Err(DumpError::Storage(String::from_str("Invalid table name: ").concat(msg.as_str()))),
    };
    let (schema, p2) = match read_field(b, p1, "schema length", "schema") {
        Ok(x) => x,
        Err(e) => return Err(e),
    };
    let (indexes, p3) = match read_field(b, p2, "indexes length", "indexes") {
        Ok(x) => x,
        Err(e) => return Err(e),
    };
    if b.len() - p3 < 8 {
        return Err(short_read_error("row count"));
    }
    let row_count: u64 = (b[p3] as u64) | ((b[p3 + 1] as u64) << 8u64) | ((b[p3 + 2] as u64) << 16u64) | ((b[p3 + 3] as u64)
        << 24u64) | ((b[p3 + 4] as u64) << 32u64) | ((b[p3 + 5] as u64) << 40u64) | ((b[p3 + 6] as u64) << 48u64) | ((b[p3
        + 7] as u64) << 56u64);
    let (batches, q) = match read_batches(b, p3 + 8) {
        Ok(x) => x,
        Err(e) => return Err(e),
    };
    Ok((TableSection { name, schema, indexes, row_count, batches }, q))
}

/// The sections read so far put in front of what the rest reads.
pub open spec fn after_sections(acc: Seq<SectionModel>, r: Result<Seq<SectionModel>, ParseFailure>) -> Result<Seq<SectionModel>, ParseFailure> {
    match r {
        Ok(rest) => Ok(acc + rest),
        Err(e) => Err(e),
    }
}

/// The debug text of a four-byte marker.
fn marker_debug(m0: u8, m1: u8, m2: u8, m3: u8) -> (r: String)
    ensures
        r@ == marker_text(seq![m0, m1, m2, m3]),
{
    String::from_str("[").concat(decimal(m0 as u64).as_str()).concat(", ").concat(decimal(m1 as u64).as_str()).concat(
        ", ",
    ).concat(decimal(m2 as u64).as_str()).concat(", ").concat(decimal(m3 as u64).as_str()).concat("]")
}

/// Read the table sections of a dump file (its bytes, whole), checking the
/// magic number and the version and skipping the metadata region. Reading
/// stops at the end marker or where fewer than four bytes are left.
pub fn parse_dump(b: &[u8]) -> (r: Result<Vec<TableSection>, DumpError>)
    ensures
        match (r, parse_dump_spec(b@)) {
            (Ok(v), Ok(ss)) => section_models(v@) == ss,
            (Err(e), Err(f)) => reports(e, f),
            _ => false,
        },
{
    if b.len() < 8 {
        return Err(short_read_error("magic bytes"));
    }
    let magic = dump_magic_number();
    if !same_bytes(b.split_at(8).0, magic.as_slice()) {
        return Err(DumpError::Storage(String::from_str("Invalid dump file: bad magic bytes")));
    }
    if b.len() < 12 {
        return Err(short_read_error("version"));
    }
    let version = read_le32(b, 8);
    if version != DUMP_VERSION {
        return Err(
            DumpError::Storage(String::from_str("Unsupported dump version: ").concat(decimal(version as u64).as_str())),
        );
    }
    let mut acc: Vec<TableSection> = Vec::new();
    if b.len() < 8204 {
        proof {
            reveal(parse_body);
            assert(section_models(acc@) =~= Seq::<SectionModel>::empty());
        }
        return Ok(acc);
    }
    let mut p: usize = 8204;
    proof {
        assert(after_sections(Seq::empty(), parse_body(b@, 8204)) =~~= parse_body(b@, 8204)) by {
            if let Ok(ss) = parse_body(b@, 8204) {
                assert(Seq::<SectionModel>::empty() + ss =~= ss);
            }
        }
        assert(section_models(acc@) =~= Seq::<SectionModel>::empty());
    }
    proof {
        reveal(parse_body);
    }
    loop
        invariant
            8204 <= p <= b@.len(),
            parse_dump_spec(b@) == parse_body(b@, 8204),
            parse_body(b@, 8204) == after_sections(section_models(acc@), parse_body(b@, p as int)),
        decreases b@.len() - p,
    {
        proof {
            reveal(parse_body);
        }
        let ghost a0 = section_models(acc@);
        if b.len() - p < 4 {
            proof {
                assert(a0 + Seq::<SectionModel>::empty() =~= a0);
            }
            return Ok(acc);
        }
        let (m0, m1, m2, m3) = (b[p], b[p + 1], b[p + 2], b[p + 3]);
        proof {
            assert(b@.subrange(p as int, p + 4) =~= seq![m0, m1, m2, m3]);
        }
        if m0 == 69u8 && m1 == 78u8 && m2 == 68u8 && m3 == 68u8 {
            proof {
                assert(seq![m0, m1, m2, m3] =~= end_marker());
                assert(a0 + Seq::<SectionModel>::empty() =~= a0);
            }
            return Ok(acc);
        } else if m0 == 73u8 && m1 == 78u8 && m2 == 67u8 && m3 == 82u8 {
            proof {
                assert(seq![m0, m1, m2, m3] =~= incremental_marker());
                assert(seq![m0, m1, m2, m3] != end_marker()) by {
                    assert(seq![m0, m1, m2, m3][0] != end_marker()[0]);
                }
            }
            p = p + 4;
        } else if m0 == 84u8 && m1 == 65u8 && m2 == 66u8 && m3 == 76u8 {
            proof {
                assert(seq![m0, m1, m2, m3] =~= table_marker());
                assert(seq![m0, m1, m2, m3] != end_marker()) by {
                    assert(seq![m0, m1, m2, m3][0] != end_marker()[0]);
                }
                assert(seq![m0, m1, m2, m3] != incremental_marker()) by {
                    assert(seq![m0, m1, m2, m3][0] != incremental_marker()[0]);
                }
            }
            let (section, q) = match read_section(b, p + 4) {
                Ok(x) => x,
                Err(e) => return Err(e),
            };
            proof {
                lemma_section_advance(b@, p + 4);
            }
            acc.push(section);
            proof {
                let s = section_model(section);
                assert(section_models(acc@) =~= a0.push(s));
                if let Ok(rest) = parse_body(b@, q as int) {
                    assert(a0 + (seq![s] + rest) =~= a0.push(s) + rest);
                }
            }
            p = q;
        } else {
            proof {
                let m = seq![m0, m1, m2, m3];
                assert(m != end_marker() && m != incremental_marker() && m != table_marker()) by {
                    if m == end_marker() {
                        assert(m[0] == end_marker()[0] && m[1] == end_marker()[1] && m[2] == end_marker()[2] && m[3] == end_marker()[3]);
                    }
                    if m == incremental_marker() {
                        assert(m[0] == incremental_marker()[0] && m[1] == incremental_marker()[1] && m[2] == incremental_marker()[2] && m[3] == incremental_marker()[3]);
                    }
                    if m == table_marker() {
                        assert(m[0] == table_marker()[0] && m[1] == table_marker()[1] && m[2] == table_marker()[2] && m[3] == table_marker()[3]);
                    }
                }
            }
            return Err(DumpError::Storage(String::from_str("Invalid marker: ").concat(marker_debug(m0, m1, m2, m3).as_str())));
        }
    }
}

/// What a check of a dump file's header finds: the magic number must be
/// there and the version no newer than this library writes.
pub open spec fn validate_spec(b: Seq<u8>) -> Result<(), ParseFailure> {
    if b.len() < 8 {
        Err(short_read("magic bytes"@))
    } else if b.subrange(0, 8) != dump_magic() {
        Err(ParseFailure::Message("Invalid dump file: bad magic bytes"@))
    } else if b.len() < 12 {
        Err(short_read("version"@))
    } else if le32_at(b, 8) > DUMP_VERSION {
        Err(ParseFailure::Message("Unsupported dump version: "@ + decimal_spec(le32_at(b, 8) as nat)))
    } else {
        Ok(())
    }
}

/// Check the header of a dump file: the magic number, and a version no
/// newer than this library writes.
pub fn validate_dump_bytes(b: &[u8]) -> (r: Result<(), DumpError>)
    ensures
        match (r, validate_spec(b@)) {
            (Ok(_), Ok(_)) => true,
            (Err(e), Err(f)) => reports(e, f),
            _ => false,
        },
{
    if b.len() < 8 {
        return Err(short_read_error("magic bytes"));
    }
    let magic = dump_magic_number();
    if !same_bytes(b.split_at(8).0, magic.as_slice()) {
        return Err(DumpError::Storage(String::from_str("Invalid dump file: bad magic bytes")));
    }
    if b.len() < 12 {
        return Err(short_read_error("version"));
    }
    let version = read_le32(b, 8);
    if version > DUMP_VERSION {
        return Err(
            DumpError::Storage(String::from_str("Unsupported dump version: ").concat(decimal(version as u64).as_str())),
        );
    }
    Ok(())
}

/// A window of `b` that equals `x + y` splits into a window equal to `x`
/// followed by one equal to `y`.
pub proof fn lemma_window_split(b: Seq<u8>, p: int, x: Seq<u8>, y: Seq<u8>)
    requires
        0 <= p,
        p + x.len() + y.len() <= b.len(),
        b.subrange(p, p + x.len() + y.len()) == x + y,
    ensures
        b.subrange(p, p + x.len()) == x,
        b.subrange(p + x.len(), p + x.len() + y.len()) == y,
{
    let w = b.subrange(p, p + x.len() + y.len());
    assert forall|i: int| 0 <= i < x.len() + y.len() implies b[p + i] == (x + y)[i] by {
        assert(w[i] == b[p + i]);
    }
    assert forall|i: int| 0 <= i < x.len() implies b.subrange(p, p + x.len())[i] == x[i] by {
        assert(b[p + i] == (x + y)[i]);
    }
    assert forall|i: int| 0 <= i < y.len() implies b.subrange(p + x.len(), p + x.len() + y.len())[i] == y[i] by {
        assert(b[p + (x.len() + i)] == (x + y)[x.len() + i]);
    }
    assert(b.subrange(p, p + x.len()) =~= x);
    assert(b.subrange(p + x.len(), p + x.len() + y.len()) =~= y);
}

/// Reading encoded batches gives them back, with the position after them.
pub proof fn lemma_batches_roundtrip(b: Seq<u8>, p: int, bs: Seq<Seq<u8>>)
    requires
        0 <= p,
        p + encode_batches(bs).len() <= b.len(),
        b.subrange(p, p + encode_batches(bs).len()) == encode_batches(bs),
        forall|i: int| 0 <= i < bs.len() ==> 0 < (#[trigger] bs[i]).len() <= u32::MAX,
    ensures
        parse_batches(b, p) == Ok::<(Seq<Seq<u8>>, int), ParseFailure>((bs, p + encode_batches(bs).len())),
    decreases bs.len(),
{
    if bs.len() == 0 {
        lemma_le32_roundtrip(b, p, 0);
        assert(bs =~= Seq::<Seq<u8>>::empty());
    } else {
        let l = bs[0].len();
        let head = le32_bytes(l as u32);
        let rest = bs.drop_first();
        let e = encode_batches(bs);
        assert(e == head + bs[0] + encode_batches(rest));
        lemma_window_split(b, p, head + bs[0], encode_batches(rest));
        lemma_window_split(b, p, head, bs[0]);
        lemma_le32_roundtrip(b, p, l as u32);
        assert forall|i: int| 0 <= i < rest.len() implies 0 < (#[trigger] rest[i]).len() <= u32::MAX by {
            assert(rest[i] == bs[i + 1]);
        }
        lemma_batches_roundtrip(b, p + 4 + l, rest);
        assert(le32_at(b, p) as int == l);
        assert(l != 0);
        assert(b.subrange(p + 4, p + 4 + l) == bs[0]);
        assert(seq![b.subrange(p + 4, p + 4 + l)] + rest =~= bs);
        assert(parse_batches(b, p + 4 + l) == Ok::<(Seq<Seq<u8>>, int), ParseFailure>((rest, p + 4 + l + encode_batches(rest).len())));
        assert(e.len() == 4 + l + encode_batches(rest).len());
    }
}

/// Reading an encoded table section (after its marker) gives it back, with the
/// position after it.
pub proof fn lemma_section_roundtrip(b: Seq<u8>, p: int, s: SectionModel)
    requires
        0 <= p,
        section_encodable(s),
        p + encode_section(s).len() <= b.len(),
        b.subrange(p, p + encode_section(s).len()) == encode_section(s),
    ensures
        parse_section(b, p + 4) == Ok::<(SectionModel, int), ParseFailure>((s, p + encode_section(s).len())),
{
    let name = vstd::utf8::encode_utf8(s.name);
    let t = table_marker();
    let l1 = le32_bytes(name.len() as u32);
    let l2 = le32_bytes(s.schema.len() as u32);
    let l3 = le32_bytes(s.indexes.len() as u32);
    let rc = le64_bytes(s.row_count);
    let eb = encode_batches(s.batches);
    let a1 = t + l1;
    let a2 = a1 + name;
    let a3 = a2 + l2;
    let a4 = a3 + s.schema;
    let a5 = a4 + l3;
    let a6 = a5 + s.indexes;
    let a7 = a6 + rc;
    assert(encode_section(s) == a7 + eb);
    lemma_window_split(b, p, a7, eb);
    lemma_window_split(b, p, a6, rc);
    lemma_window_split(b, p, a5, s.indexes);
    lemma_window_split(b, p, a4, l3);
    lemma_window_split(b, p, a3, s.schema);
    lemma_window_split(b, p, a2, l2);
    lemma_window_split(b, p, a1, name);
    lemma_window_split(b, p, t, l1);
    lemma_le32_roundtrip(b, p + 4, name.len() as u32);
    lemma_le32_roundtrip(b, p + a2.len(), s.schema.len() as u32);
    lemma_le32_roundtrip(b, p + a4.len(), s.indexes.len() as u32);
    lemma_le64_roundtrip(b, p + a6.len(), s.row_count);
    lemma_batches_roundtrip(b, p + a7.len(), s.batches);
    vstd::utf8::encode_utf8_valid_utf8(s.name);
    vstd::utf8::encode_utf8_decode_utf8(s.name);
    assert(parse_field(b, p + 4, "table name length"@, "table name"@) == Ok::<(Seq<u8>, int), ParseFailure>((name, p + a2.len())));
    assert(parse_field(b, p + a2.len(), "schema length"@, "schema"@) == Ok::<(Seq<u8>, int), ParseFailure>((s.schema, p + a4.len())));
    assert(parse_field(b, p + a4.len(), "indexes length"@, "indexes"@) == Ok::<(Seq<u8>, int), ParseFailure>((s.indexes, p + a6.len())));
    let m = SectionModel {
        name: vstd::utf8::decode_utf8(name),
        schema: s.schema,
        indexes: s.indexes,
        row_count: le64_at(b, p + a6.len()),
        batches: s.batches,
    };
    assert(m == s);
}

/// Reading encoded table sections gives them back, in front of whatever
/// follows them.
pub proof fn lemma_body_roundtrip(b: Seq<u8>, p: int, ss: Seq<SectionModel>)
    requires
        0 <= p,
        p + encode_sections(ss).len() <= b.len(),
        b.subrange(p, p + encode_sections(ss).len()) == encode_sections(ss),
        forall|i: int| 0 <= i < ss.len() ==> section_encodable(#[trigger] ss[i]),
    ensures
        parse_body(b, p) == after_sections(ss, parse_body(b, p + encode_sections(ss).len())),
    decreases ss.len(),
{
    if ss.len() == 0 {
        if let Ok(rest) = parse_body(b, p) {
            assert(ss + rest =~= rest);
        }
    } else {
        let e0 = encode_section(ss[0]);
        let rest = ss.drop_first();
        let er = encode_sections(rest);
        assert(encode_sections(ss) == e0 + er);
        lemma_window_split(b, p, e0, er);
        assert(e0 == table_marker() + (e0.subrange(4, e0.len() as int))) by {
            assert(e0 =~= table_marker() + (e0.subrange(4, e0.len() as int)));
        }
        lemma_window_split(b, p, table_marker(), e0.subrange(4, e0.len() as int));
        lemma_table_step(b, p);
        lemma_section_roundtrip(b, p, ss[0]);
        assert forall|i: int| 0 <= i < rest.len() implies section_encodable(#[trigger] rest[i]) by {
            assert(rest[i] == ss[i + 1]);
        }
        lemma_body_roundtrip(b, p + e0.len(), rest);
        if let Ok(tail) = parse_body(b, p + e0.len() + er.len()) {
            assert(seq![ss[0]] + (rest + tail) =~= ss + tail);
        }
    }
}

/// The header of a dump file: magic number, version and metadata region `fill`.
pub open spec fn file_header(fill: Seq<u8>) -> Seq<u8> {
    dump_magic() + le32_bytes(DUMP_VERSION) + fill
}

proof fn lemma_header_ok(b: Seq<u8>, fill: Seq<u8>)
    requires
        fill.len() == 8192,
        file_header(fill).is_prefix_of(b),
    ensures
        parse_dump_spec(b) == parse_body(b, 8204),
{
    let h = file_header(fill);
    assert(b.subrange(0, 8204) =~= h);
    lemma_window_split(b, 0, dump_magic() + le32_bytes(DUMP_VERSION), fill);
    lemma_window_split(b, 0, dump_magic(), le32_bytes(DUMP_VERSION));
    lemma_le32_roundtrip(b, 8, DUMP_VERSION);
}

/// A full dump reads back as the tables written into it: a header, the table
/// sections, and the end marker parse to exactly those sections.
pub proof fn law_full_dump_roundtrip(fill: Seq<u8>, ss: Seq<SectionModel>)
    requires
        fill.len() == 8192,
        forall|i: int| 0 <= i < ss.len() ==> section_encodable(#[trigger] ss[i]),
    ensures
        parse_dump_spec(file_header(fill) + encode_sections(ss) + end_marker()) == Ok::<Seq<SectionModel>, ParseFailure>(ss),
{
    let h = file_header(fill);
    let e = encode_sections(ss);
    let b = h + e + end_marker();
    assert(h.is_prefix_of(b)) by {
        assert(b.subrange(0, h.len() as int) =~= h);
    }
    lemma_header_ok(b, fill);
    assert(b.subrange(8204int, 8204int + e.len()) =~= e);
    lemma_body_roundtrip(b, 8204, ss);
    let q: int = 8204int + e.len();
    reveal(parse_body);
    assert(b.subrange(q, q + 4) =~= end_marker());
    assert(ss + Seq::<SectionModel>::empty() =~= ss);
}

/// An incremental dump reads back as the tables written into it: a header
/// followed by incremental runs (each the marker and table sections, the
/// second one appended to the file later) parses to the sections of both runs.
pub proof fn law_incremental_dump_roundtrip(fill: Seq<u8>, ss1: Seq<SectionModel>, ss2: Seq<SectionModel>)
    requires
        fill.len() == 8192,
        forall|i: int| 0 <= i < ss1.len() ==> section_encodable(#[trigger] ss1[i]),
        forall|i: int| 0 <= i < ss2.len() ==> section_encodable(#[trigger] ss2[i]),
    ensures
        parse_dump_spec(file_header(fill) + incremental_marker() + encode_sections(ss1) + incremental_marker() + encode_sections(ss2))
            == Ok::<Seq<SectionModel>, ParseFailure>(ss1 + ss2),
{
    let h = file_header(fill);
    let i4 = incremental_marker();
    let e1 = encode_sections(ss1);
    let e2 = encode_sections(ss2);
    let c1 = h + i4;
    let c2 = c1 + e1;
    let c3 = c2 + i4;
    let b = c3 + e2;
    let p1 = 8204int;
    let p2 = p1 + 4;
    let p3 = p2 + e1.len();
    let p4 = p3 + 4;
    assert(b.subrange(0, b.len() as int) =~= b);
    lemma_window_split(b, 0, c3, e2);
    lemma_window_split(b, 0, c2, i4);
    lemma_window_split(b, 0, c1, e1);
    lemma_window_split(b, 0, h, i4);
    assert(h.is_prefix_of(b));
    lemma_header_ok(b, fill);
    lemma_body_roundtrip(b, p4, ss2);
    lemma_skip_incremental(b, p3);
    lemma_body_roundtrip(b, p2, ss1);
    lemma_skip_incremental(b, p1);
    assert(parse_body(b, p4 + e2.len()) == Ok::<Seq<SectionModel>, ParseFailure>(Seq::empty())) by {
        reveal(parse_body);
    }
    assert(ss2 + Seq::<SectionModel>::empty() =~= ss2);
}

/// A table marker is followed by a section, then the rest of the dump.
pub proof fn lemma_table_step(b: Seq<u8>, p: int)
    requires
        0 <= p,
        p + 4 <= b.len(),
        b.subrange(p, p + 4) == table_marker(),
    ensures
        parse_body(b, p) == match parse_section(b, p + 4) {
            Err(e) => Err(e),
            Ok((s, q)) => after_sections(seq![s], parse_body(b, q)),
        },
{
    reveal(parse_body);
    let m = b.subrange(p, p + 4);
    assert(m != end_marker()) by {
        assert(m[0] != end_marker()[0]);
    }
    assert(m != incremental_marker()) by {
        assert(m[0] != incremental_marker()[0]);
    }
}

/// An incremental marker is skipped.
pub proof fn lemma_skip_incremental(b: Seq<u8>, p: int)
    requires
        0 <= p,
        p + 4 <= b.len(),
        b.subrange(p, p + 4) == incremental_marker(),
    ensures
        parse_body(b, p) == parse_body(b, p + 4),
{
    reveal(parse_body);
    let m = b.subrange(p, p + 4);
    assert(m != end_marker()) by {
        assert(m[0] != end_marker()[0]);
    }
}

} // verus!
