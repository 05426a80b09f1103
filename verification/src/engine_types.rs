//! Result types and key formats of the storage engine.
use vstd::prelude::*;
use std::time::Duration;
use crate::text::{decimal, decimal_spec, extend_bytes, parsed_integer, parse_u64_text, parse_i64_text, parse_i32_text, parse_i16_text, lemma_decimal_digits, is_decimal_digit};
use crate::value::{DataType, Value, ValueView};
use crate::branch::utf8_string;

verus! {

/// Result of a direct bulk load operation
#[derive(Debug)]
pub struct DirectBulkLoadResult {
    /// Total rows loaded
    pub rows_loaded: u64,
    /// Total bytes written
    pub bytes_written: usize,
    /// Time taken
    pub duration: Duration,
    /// Rows per second achieved
    pub rows_per_sec: u64,
    /// Maximum row ID loaded
    pub max_row_id: u64,
}

/// Storage statistics
#[derive(Debug, Clone, Copy)]
pub struct StorageStats {
    /// Approximate size in bytes
    pub approximate_size: u64,
    /// Estimated number of keys
    pub key_count: u64,
}

impl StorageStats {
    /// Statistics from the store's estimates; a missing estimate counts as zero.
    pub fn from_estimates(approximate_size: Option<u64>, key_count: Option<u64>) -> (s: Self)
        ensures
            s.approximate_size == match approximate_size {
                Some(v) => v,
                None => 0,
            },
            s.key_count == match key_count {
                Some(v) => v,
                None => 0,
            },
    {
        StorageStats {
            approximate_size: match approximate_size {
                Some(v) => v,
                None => 0,
            },
            key_count: match key_count {
                Some(v) => v,
                None => 0,
            },
        }
    }
}

/// The first `:` of the text, if any.
pub open spec fn first_colon(s: Seq<char>) -> int {
    choose|i: int| 0 <= i < s.len() && s[i] == ':' && forall|j: int| 0 <= j < i ==> s[j] != ':'
}

/// The table a storage key's text names: `data:{table}:{row}`,
/// `meta:table:{table}` or `meta:counter:{table}`; `unknown` otherwise.
pub open spec fn key_table_text(s: Seq<char>) -> Seq<char> {
    if "data:"@.is_prefix_of(s) {
        let rest = s.subrange(5, s.len() as int);
        if rest.contains(':') {
            rest.subrange(0, first_colon(rest))
        } else {
            "unknown"@
        }
    } else if "meta:table:"@.is_prefix_of(s) {
        s.subrange(11, s.len() as int)
    } else if "meta:counter:"@.is_prefix_of(s) {
        s.subrange(13, s.len() as int)
    } else {
        "unknown"@
    }
}

/// The table a storage key names; `unknown` for a key that is not UTF-8.
pub open spec fn table_of_key(key: Seq<u8>) -> Seq<char> {
    if vstd::utf8::valid_utf8(key) {
        key_table_text(vstd::utf8::decode_utf8(key))
    } else {
        "unknown"@
    }
}

/// Does the text start with the prefix?
fn starts_with_chars(t: &str, p: &str) -> (r: bool)
    ensures
        r == p@.is_prefix_of(t@),
{
    let n = p.unicode_len();
    if t.unicode_len() < n {
        return false;
    }
    let mut i: usize = 0;
    while i < n
        invariant
            n == p@.len(),
            n <= t@.len(),
            i <= n,
            forall|j: int| 0 <= j < i ==> p@[j] == t@[j],
        decreases n - i,
    {
        if p.get_char(i) != t.get_char(i) {
            return false;
        }
        i = i + 1;
    }
    true
}

/// The table a storage key names: `data:{table}:{row}`, `meta:table:{table}`
/// or `meta:counter:{table}`; `unknown` for any other key (write-ahead log
/// and system keys, malformed keys, keys that are not UTF-8).
pub fn extract_table_from_key(key: &[u8]) -> (r: String)
    ensures
        r@ == table_of_key(key@),
{
    let mut bytes: Vec<u8> = Vec::new();
    extend_bytes(&mut bytes, key);
    let s = match utf8_string(bytes) {
        Ok(s) => s,
        Err(_) => return String::from_str("unknown"),
    };
    let t = s.as_str();
    let n = t.unicode_len();
    proof {
        assert(bytes@ == key@);
    }
    proof {
        reveal_strlit("data:");
        reveal_strlit("meta:table:");
        reveal_strlit("meta:counter:");
    }
    if starts_with_chars(t, "data:") {
        let ghost rest = t@.subrange(5, n as int);
        let mut i: usize = 5;
        while i < n
            invariant
                5 <= i <= n,
                n == t@.len(),
                vstd::utf8::valid_utf8(key@),
                t@ == vstd::utf8::decode_utf8(key@),
                "data:"@.is_prefix_of(t@),
                rest == t@.subrange(5, n as int),
                forall|j: int| 5 <= j < i ==> t@[j] != ':',
            decreases n - i,
        {
            if t.get_char(i) == ':' {
                proof {
                    assert(rest[i - 5] == ':');
                    assert(rest.contains(':'));
                    assert forall|j: int| 0 <= j < i - 5 implies rest[j] != ':' by {
                        assert(rest[j] == t@[j + 5]);
                    }
                    assert(0 <= i - 5 < rest.len() && rest[i - 5] == ':' && forall|j: int| 0 <= j < i - 5 ==> rest[j] != ':');
                    let f = first_colon(rest);
                    if f < i - 5 {
                        assert(t@[f + 5] == ':');
                    } else if f > i - 5 {
                        assert(rest[i - 5] != ':');
                    }
                    assert(t@.subrange(5, i as int) =~= rest.subrange(0, first_colon(rest)));
                }
                return String::from_str(t.substring_char(5, i));
            }
            i = i + 1;
        }
        proof {
            if rest.contains(':') {
                let j = choose|j: int| 0 <= j < rest.len() && rest[j] == ':';
                assert(t@[j + 5] == ':');
            }
        }
        return String::from_str("unknown");
    }
    if starts_with_chars(t, "meta:table:") {
        return String::from_str(t.substring_char(11, n));
    }
    if starts_with_chars(t, "meta:counter:") {
        return String::from_str(t.substring_char(13, n));
    }
    String::from_str("unknown")
}

/// The text of the data key of a row.
pub open spec fn data_key_text(table: Seq<char>, row_id: u64) -> Seq<char> {
    "data:"@ + table + ":"@ + decimal_spec(row_id as nat)
}

/// The data key of a row: `data:{table_name}:{row_id}`, as UTF-8 bytes.
pub fn build_data_key(table_name: &str, row_id: u64) -> (r: Vec<u8>)
    ensures
        r@ == vstd::utf8::encode_utf8(data_key_text(table_name@, row_id)),
{
    let s = String::from_str("data:").concat(table_name).concat(":").concat(decimal(row_id).as_str());
    let mut r: Vec<u8> = Vec::new();
    extend_bytes(&mut r, s.as_str().as_bytes());
    r
}

/// The table of a row's data key is the row's table, when the table name
/// holds no `:`.
pub proof fn law_data_key_table(table: Seq<char>, row_id: u64)
    requires
        !table.contains(':'),
    ensures
        table_of_key(vstd::utf8::encode_utf8(data_key_text(table, row_id))) == table,
{
    broadcast use vstd::utf8::encode_utf8_valid_utf8, vstd::utf8::encode_utf8_decode_utf8;
    reveal_strlit("data:");
    reveal_strlit(":");
    let s = data_key_text(table, row_id);
    assert("data:"@.is_prefix_of(s)) by {
        assert(s.subrange(0, 5) =~= "data:"@);
    }
    let rest = s.subrange(5, s.len() as int);
    assert(rest =~= table + ":"@ + decimal_spec(row_id as nat));
    let n = table.len() as int;
    assert(rest[n] == ':');
    assert(rest.contains(':'));
    let f = first_colon(rest);
    if f < n {
        assert(rest[f] == table[f]);
        assert(table.contains(table[f]));
    } else if f > n {
        assert(rest[n] != ':');
    }
    assert(rest.subrange(0, n) =~= table);
}


/// A primary-key value brought to the type of its column: small integers
/// widened, large ones narrowed (wrapping, as `as` does), and text read as
/// an integer where it parses; anything else unchanged.
pub open spec fn coerced_pk(v: ValueView, target: DataType) -> ValueView {
    match (v, target) {
        (ValueView::Int2(x), DataType::Int8) => ValueView::Int8(x as i64),
        (ValueView::Int4(x), DataType::Int8) => ValueView::Int8(x as i64),
        (ValueView::Int2(x), DataType::Int4) => ValueView::Int4(x as i32),
        (ValueView::Int8(x), DataType::Int4) => ValueView::Int4(x as i32),
        (ValueView::Int8(x), DataType::Int2) => ValueView::Int2(x as i16),
        (ValueView::Int4(x), DataType::Int2) => ValueView::Int2(x as i16),
        (ValueView::String(s), DataType::Int8) => match parsed_integer(s, true, i64::MIN as int, i64::MAX as int) {
            Some(n) => ValueView::Int8(n as i64),
            None => v,
        },
        (ValueView::String(s), DataType::Int4) => match parsed_integer(s, true, i32::MIN as int, i32::MAX as int) {
            Some(n) => ValueView::Int4(n as i32),
            None => v,
        },
        (ValueView::String(s), DataType::Int2) => match parsed_integer(s, true, i16::MIN as int, i16::MAX as int) {
            Some(n) => ValueView::Int2(n as i16),
            None => v,
        },
        _ => v,
    }
}

/// Bring a primary-key value to the type of its column, so that its key
/// encoding matches the one stored: `Int4(1)` looked up in an `Int8` column
/// becomes `Int8(1)`, and the text `'1'` becomes the number.
pub fn coerce_pk_value(value: &Value, target: &DataType) -> (r: Value)
    ensures
        r@ == coerced_pk(value@, *target),
{
    match (value, target) {
        (Value::Int2(v), DataType::Int8) => Value::Int8(*v as i64),
        (Value::Int4(v), DataType::Int8) => Value::Int8(*v as i64),
        (Value::Int2(v), DataType::Int4) => Value::Int4(*v as i32),
        (Value::Int8(v), DataType::Int4) => Value::Int4(*v as i32),
        (Value::Int8(v), DataType::Int2) => Value::Int2(*v as i16),
        (Value::Int4(v), DataType::Int2) => Value::Int2(*v as i16),
        (Value::String(s), DataType::Int8) => match parse_i64_text(s.as_str()) {
            Some(n) => Value::Int8(n),
            None => value.duplicate(),
        },
        (Value::String(s), DataType::Int4) => match parse_i32_text(s.as_str()) {
            Some(n) => Value::Int4(n),
            None => value.duplicate(),
        },
        (Value::String(s), DataType::Int2) => match parse_i16_text(s.as_str()) {
            Some(n) => Value::Int2(n),
            None => value.duplicate(),
        },
        _ => value.duplicate(),
    }
}

/// The text every data key of the table starts with: `data:{table}:`.
pub open spec fn data_prefix_text(table: Seq<char>) -> Seq<char> {
    "data:"@ + table + ":"@
}

/// The row id a data key of the table carries: the text after
/// `data:{table}:`, read as a `u64`; `None` for a key of another table, a
/// key that is not UTF-8, or a suffix that is not a `u64`.
pub open spec fn row_id_of_key(key: Seq<u8>, table: Seq<char>) -> Option<u64> {
    let s = vstd::utf8::decode_utf8(key);
    let p = data_prefix_text(table);
    if vstd::utf8::valid_utf8(key) && p.is_prefix_of(s) {
        match parsed_integer(s.subrange(p.len() as int, s.len() as int), false, 0, u64::MAX as int) {
            Some(v) => Some(v as u64),
            None => None,
        }
    } else {
        None
    }
}

/// The row id a data key of the table carries (`data:{table}:{row_id}`), if
/// the key belongs to the table and its suffix reads as a `u64`.
pub fn row_id_from_key(key: &[u8], table_name: &str) -> (r: Option<u64>)
    ensures
        r == row_id_of_key(key@, table_name@),
{
    let mut bytes: Vec<u8> = Vec::new();
    extend_bytes(&mut bytes, key);
    proof {
        assert(bytes@ == key@);
    }
    let s = match utf8_string(bytes) {
        Ok(s) => s,
        Err(_) => return None,
    };
    let prefix = String::from_str("data:").concat(table_name).concat(":");
    proof {
        reveal_strlit("data:");
        reveal_strlit(":");
        assert(prefix@ == data_prefix_text(table_name@));
    }
    let t = s.as_str();
    if !starts_with_chars(t, prefix.as_str()) {
        return None;
    }
    let n = t.unicode_len();
    let m = prefix.as_str().unicode_len();
    parse_u64_text(t.substring_char(m, n))
}

/// The row id of a row's data key is the row's id.
pub proof fn law_data_key_row_id(table: Seq<char>, row_id: u64)
    ensures
        row_id_of_key(vstd::utf8::encode_utf8(data_key_text(table, row_id)), table) == Some(row_id),
{
    broadcast use vstd::utf8::encode_utf8_valid_utf8, vstd::utf8::encode_utf8_decode_utf8;
    let s = data_key_text(table, row_id);
    let p = data_prefix_text(table);
    let d = decimal_spec(row_id as nat);
    assert(s =~= p + d);
    assert(p.is_prefix_of(s)) by {
        assert(s.subrange(0, p.len() as int) =~= p);
    }
    assert(s.subrange(p.len() as int, s.len() as int) =~= d);
    lemma_decimal_digits(row_id as nat);
    assert(is_decimal_digit(d[0]));
}

/// What a scan that skips rows and returns a bounded number of them does
/// with the next key.
#[derive(Debug, Clone, Copy, PartialEq, Eq, Structural)]
pub enum ScanStep {
    /// Read the row and return it
    Take,
    /// Step over the row without reading it
    Skip,
    /// Step over a key of no table row before the table's rows
    Pass,
    /// End the scan
    Stop,
}

/// The decision of a scan with `offset` and `limit` that has taken `taken`
/// rows and skipped `skipped`, for a key that is or is not one of the table's.
pub open spec fn page_step(taken: nat, skipped: nat, offset: nat, limit: nat, in_table: bool) -> ScanStep {
    if taken >= limit {
        ScanStep::Stop
    } else if !in_table {
        if taken > 0 || skipped > 0 {
            ScanStep::Stop
        } else {
            ScanStep::Pass
        }
    } else if skipped < offset {
        ScanStep::Skip
    } else {
        ScanStep::Take
    }
}

/// What a scan that skips `offset` rows and returns at most `limit` does
/// with the next key: stop once `limit` rows are taken or the table's keys
/// are passed, skip the first `offset` rows without reading them, take the
/// rest.
pub fn offset_limit_step(taken: usize, skipped: usize, offset: usize, limit: usize, in_table: bool) -> (s: ScanStep)
    ensures
        s == page_step(taken as nat, skipped as nat, offset as nat, limit as nat, in_table),
{
    if taken >= limit {
        ScanStep::Stop
    } else if !in_table {
        if taken > 0 || skipped > 0 {
            ScanStep::Stop
        } else {
            ScanStep::Pass
        }
    } else if skipped < offset {
        ScanStep::Skip
    } else {
        ScanStep::Take
    }
}

/// The positions of the keys a scan takes, from position `i` on, with the
/// counts it has so far; `keys[j]` says whether key `j` is one of the table's.
pub open spec fn page_run(keys: Seq<bool>, i: int, taken: nat, skipped: nat, offset: nat, limit: nat) -> Seq<int>
    decreases keys.len() - i,
{
    if i < 0 || i >= keys.len() {
        Seq::empty()
    } else {
        match page_step(taken, skipped, offset, limit, keys[i]) {
            ScanStep::Stop => Seq::empty(),
            ScanStep::Pass => page_run(keys, i + 1, taken, skipped, offset, limit),
            ScanStep::Skip => page_run(keys, i + 1, taken, skipped + 1, offset, limit),
            ScanStep::Take => seq![i] + page_run(keys, i + 1, taken + 1, skipped, offset, limit),
        }
    }
}

/// The positions from `max(from, offset)` up to `min(n, offset + limit)`.
pub open spec fn page_window(from: int, n: int, offset: int, limit: int) -> Seq<int> {
    let lo = if from < offset { offset } else { from };
    let hi = if n < offset + limit { n } else { offset + limit };
    Seq::new(if hi > lo { (hi - lo) as nat } else { 0 }, |j: int| lo + j)
}

proof fn lemma_page_run_outside(keys: Seq<bool>, i: int, taken: nat, skipped: nat, offset: nat, limit: nat)
    requires
        0 <= i,
        forall|j: int| i <= j < keys.len() ==> !keys[j],
    ensures
        page_run(keys, i, taken, skipped, offset, limit) == Seq::<int>::empty(),
    decreases keys.len() - i,
{
    if i < keys.len() && page_step(taken, skipped, offset, limit, keys[i]) == ScanStep::Pass {
        lemma_page_run_outside(keys, i + 1, taken, skipped, offset, limit);
    }
}

proof fn lemma_page_run_window(keys: Seq<bool>, n: int, i: int, offset: nat, limit: nat)
    requires
        0 <= i <= n <= keys.len(),
        forall|j: int| 0 <= j < n ==> keys[j],
        forall|j: int| n <= j < keys.len() ==> !keys[j],
        i <= offset + limit,
    ensures
        ({
            let skipped: nat = if i < offset { i as nat } else { offset };
            let taken: nat = (i - skipped) as nat;
            page_run(keys, i, taken, skipped, offset, limit) =~= page_window(i, n, offset as int, limit as int)
        }),
    decreases n - i,
{
    let skipped: nat = if i < offset { i as nat } else { offset };
    let taken: nat = (i - skipped) as nat;
    if i == n {
        lemma_page_run_outside(keys, i, taken, skipped, offset, limit);
    } else if taken >= limit {
    } else if skipped < offset {
        lemma_page_run_window(keys, n, i + 1, offset, limit);
    } else {
        lemma_page_run_window(keys, n, i + 1, offset, limit);
        let w = page_window(i, n, offset as int, limit as int);
        let w1 = page_window(i + 1, n, offset as int, limit as int);
        assert(w =~= seq![i] + w1);
    }
}

/// Over a table whose keys come first, a scan with `offset` and `limit`
/// skips `offset` rows, then takes the next `limit` rows (fewer where the
/// table ends first).
pub proof fn law_offset_limit_window(keys: Seq<bool>, n: int, offset: nat, limit: nat)
    requires
        0 <= n <= keys.len(),
        forall|j: int| 0 <= j < n ==> keys[j],
        forall|j: int| n <= j < keys.len() ==> !keys[j],
    ensures
        page_run(keys, 0, 0, 0, offset, limit) == page_window(0, n, offset as int, limit as int),
{
    lemma_page_run_window(keys, n, 0, offset, limit);
}


/// The row batches a bulk load writes, as (first row, end) positions: a
/// batch is written each time `batch_size` rows have gathered (each row
/// alone when `batch_size` is 0), and the rows left at the end form a last,
/// shorter batch.
pub open spec fn bulk_batches(n: nat, batch_size: nat) -> Seq<(int, int)> {
    let b: int = if batch_size == 0 { 1 } else { batch_size as int };
    let count: int = (n as int + b - 1) / b;
    Seq::new(count as nat, |i: int| (i * b, if (i + 1) * b < n { (i + 1) * b } else { n as int }))
}

/// The batches a bulk load of `n` rows writes with the given batch size.
pub fn bulk_load_batches(n: usize, batch_size: usize) -> (r: Vec<(usize, usize)>)
    ensures
        r@.len() == bulk_batches(n as nat, batch_size as nat).len(),
        forall|i: int| 0 <= i < r@.len() ==> (#[trigger] r@[i]).0 as int == bulk_batches(n as nat, batch_size as nat)[i].0
            && r@[i].1 as int == bulk_batches(n as nat, batch_size as nat)[i].1,
{
    let b: usize = if batch_size == 0 { 1 } else { batch_size };
    let ghost bs = bulk_batches(n as nat, batch_size as nat);
    let mut r: Vec<(usize, usize)> = Vec::new();
    let mut start: usize = 0;
    let ghost count: int = (n as int + b - 1) / (b as int);
    proof {
        assert(bs.len() == count) by (nonlinear_arith)
            requires
                count == (n as int + b - 1) / (b as int),
                b >= 1,
                bs.len() == (if count >= 0 { count } else { 0 }),
        {
            assert(count >= 0);
        }
        assert(r@.len() == 0);
        assert(r@.len() * b == 0) by (nonlinear_arith)
            requires
                r@.len() == 0,
        {
        }
        if n > 0 {
            assert(count >= 1) by (nonlinear_arith)
                requires
                    count == (n as int + b - 1) / (b as int),
                    b >= 1,
                    n >= 1,
            {
            }
        }
    }
    while start < n
        invariant
            b >= 1,
            b == if batch_size == 0 { 1 } else { batch_size },
            bs == bulk_batches(n as nat, batch_size as nat),
            count == (n as int + b - 1) / (b as int),
            bs.len() == count,
            start as int == r@.len() * b || (start == n && r@.len() == count),
            start <= n,
            r@.len() <= count,
            start < n ==> r@.len() < count,
            forall|i: int| 0 <= i < r@.len() ==> (#[trigger] r@[i]).0 as int == bs[i].0 && r@[i].1 as int == bs[i].1,
        decreases n - start,
    {
        let ghost k = r@.len() as int;
        let end: usize = if n - start > b { start + b } else { n };
        proof {
            assert(start as int == k * b);
            assert(bs[k] == (k * b, if (k + 1) * b < n { (k + 1) * b } else { n as int })) by {
                assert(0 <= k < bs.len());
            }
            assert((k + 1) * b == k * b + b) by (nonlinear_arith);
        }
        r.push((start, end));
        proof {
            if end < n {
                assert(k + 1 < count) by (nonlinear_arith)
                    requires
                        count == (n as int + b - 1) / (b as int),
                        (k + 1) * b < n,
                        b >= 1,
                        k >= 0,
                {
                    assert((k + 1) * b + b - 1 <= n + b - 1);
                    assert((k + 2) * b <= n + b);
                }
            } else {
                assert(k + 1 == count) by (nonlinear_arith)
                    requires
                        count == (n as int + b - 1) / (b as int),
                        k * b < n,
                        n <= (k + 1) * b,
                        b >= 1,
                        k >= 0,
                {
                }
            }
        }
        start = end;
    }
    proof {
        if r@.len() != count {
            let k = r@.len() as int;
            assert(count == k) by (nonlinear_arith)
                requires
                    count == (n as int + b - 1) / (b as int),
                    n as int == k * b,
                    b >= 1,
                    k >= 0,
            {
                assert(n as int + b - 1 == k * b + (b - 1));
            }
        }
    }
    r
}

/// The row counter after a bulk load whose largest row id is `max_row_id`:
/// the row after it, unless the counter is already past it.
pub open spec fn counter_after_load(current: Option<u64>, max_row_id: u64) -> u64 {
    match current {
        Some(c) => if max_row_id >= c { (max_row_id + 1) as u64 } else { c },
        None => (max_row_id + 1) as u64,
    }
}

/// The row counter of a table after a bulk load: the row after the largest
/// loaded id, unless the counter (`current`, if the table has one) is past it.
pub fn row_counter_after_load(current: Option<u64>, max_row_id: u64) -> (r: u64)
    requires
        max_row_id < u64::MAX,
    ensures
        r == counter_after_load(current, max_row_id),
{
    match current {
        Some(c) => if max_row_id >= c { max_row_id + 1 } else { c },
        None => max_row_id + 1,
    }
}

/// The largest row id among the loaded rows, 0 for none.
pub open spec fn max_row_id_of(ids: Seq<u64>) -> u64
    decreases ids.len(),
{
    if ids.len() == 0 {
        0
    } else {
        let m = max_row_id_of(ids.drop_last());
        if ids.last() > m { ids.last() } else { m }
    }
}

/// What a bulk load of the rows records: the row count, the bytes written
/// and the largest row id (0 for none).
pub fn bulk_load_tally(rows: &[(u64, Vec<u8>)]) -> (r: (u64, usize, u64))
    requires
        rows@.len() <= u64::MAX,
        bulk_bytes(rows@) <= usize::MAX,
    ensures
        r.0 == rows@.len(),
        r.1 as int == bulk_bytes(rows@),
        r.2 == max_row_id_of(rows@.map_values(|e: (u64, Vec<u8>)| e.0)),
{
    let ghost ids = rows@.map_values(|e: (u64, Vec<u8>)| e.0);
    let mut count: u64 = 0;
    let mut bytes: usize = 0;
    let mut max_id: u64 = 0;
    let mut i: usize = 0;
    while i < rows.len()
        invariant
            i <= rows@.len(),
            rows@.len() <= u64::MAX,
            bulk_bytes(rows@) <= usize::MAX,
            ids == rows@.map_values(|e: (u64, Vec<u8>)| e.0),
            count == i,
            bytes as int == bulk_bytes(rows@.take(i as int)),
            max_id == max_row_id_of(ids.take(i as int)),
        decreases rows@.len() - i,
    {
        let (id, data) = (rows[i].0, &rows[i].1);
        proof {
            assert(ids.take(i + 1).drop_last() =~= ids.take(i as int));
            assert(ids.take(i + 1).last() == id);
            assert(rows@.take(i + 1).drop_last() =~= rows@.take(i as int));
            assert(rows@.take(i + 1).last() == rows@[i as int]);
            lemma_bulk_bytes_prefix(rows@, i + 1);
        }
        bytes = bytes + data.len();
        if id > max_id {
            max_id = id;
        }
        count = count + 1;
        i = i + 1;
    }
    proof {
        assert(ids.take(i as int) =~= ids);
        assert(rows@.take(i as int) =~= rows@);
    }
    (count, bytes, max_id)
}

/// A prefix of the rows holds no more bytes than all of them.
proof fn lemma_bulk_bytes_prefix(rows: Seq<(u64, Vec<u8>)>, k: int)
    requires
        0 <= k <= rows.len(),
    ensures
        bulk_bytes(rows.take(k)) <= bulk_bytes(rows),
    decreases rows.len(),
{
    if k < rows.len() {
        lemma_bulk_bytes_prefix(rows.drop_last(), k);
        assert(rows.drop_last().take(k) =~= rows.take(k));
    } else {
        assert(rows.take(k) =~= rows);
    }
}

/// The bytes of all the rows' data.
pub open spec fn bulk_bytes(rows: Seq<(u64, Vec<u8>)>) -> int
    decreases rows.len(),
{
    if rows.len() == 0 {
        0
    } else {
        bulk_bytes(rows.drop_last()) + rows.last().1@.len()
    }
}

} // verus!
