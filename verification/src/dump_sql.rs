//! The SQL text form of a dump: per table a `CREATE TABLE` statement and an
//! `INSERT` statement with every row, values written as SQL literals.
use vstd::prelude::*;
use crate::value::{Value, ValueView};
use crate::text::{decimal, decimal_spec};

verus! {

/// The decimal text of a signed number.
pub open spec fn signed_decimal(v: int) -> Seq<char> {
    if v < 0 {
        "-"@ + decimal_spec((-v) as nat)
    } else {
        decimal_spec(v as nat)
    }
}

/// The text with each `'` doubled.
pub open spec fn sql_escape(s: Seq<char>) -> Seq<char>
    decreases s.len(),
{
    if s.len() == 0 {
        Seq::empty()
    } else {
        sql_escape(s.drop_last()) + if s.last() == '\'' { "''"@ } else { seq![s.last()] }
    }
}

/// A SQL string literal of the text.
pub open spec fn quoted(s: Seq<char>) -> Seq<char> {
    "'"@ + sql_escape(s) + "'"@
}

/// The bytes as a list: their decimal texts joined by `, `.
pub open spec fn byte_list(b: Seq<u8>) -> Seq<char>
    decreases b.len(),
{
    if b.len() == 0 {
        Seq::empty()
    } else if b.len() == 1 {
        decimal_spec(b[0] as nat)
    } else {
        byte_list(b.drop_last()) + ", "@ + decimal_spec(b.last() as nat)
    }
}

/// `chrono`'s display text of the UTC time `micros` microseconds after the
/// Unix epoch, when `chrono` can represent that time.
pub uninterp spec fn utc_display(micros: i64) -> Option<Seq<char>>;

/// `DateTime::<Utc>::from_timestamp_micros` of `chrono`, then its `to_string`.
#[verifier::external_body]
fn utc_display_text(micros: i64) -> (r: Option<String>)
    ensures
        match r {
            Some(s) => utc_display(micros) == Some(s@),
            None => utc_display(micros) is None,
        },
{
    match chrono::DateTime::from_timestamp_micros(micros) {
        Some(d) => Some(d.to_string()),
        None => None,
    }
}

/// The SQL literal of a value: `NULL`, `TRUE`/`FALSE`, numbers in decimal,
/// text quoted with `'` doubled, a timestamp as its quoted UTC time, and any
/// other value as its quoted debug form.
pub open spec fn sql_value_text(v: ValueView) -> Seq<char> {
    match v {
        ValueView::Null => "NULL"@,
        ValueView::Boolean(b) => if b { "TRUE"@ } else { "FALSE"@ },
        ValueView::Int2(i) => signed_decimal(i as int),
        ValueView::Int4(i) => signed_decimal(i as int),
        ValueView::Int8(i) => signed_decimal(i as int),
        ValueView::String(s) => quoted(s),
        ValueView::Timestamp(t) => match utc_display(t) {
            Some(d) => "'"@ + d + "'"@,
            None => "'"@ + signed_decimal(t as int) + "'"@,
        },
        ValueView::Bytes(b) => "'Bytes(["@ + byte_list(b) + "])'"@,
        ValueView::DictRef(id) => "'DictRef { dict_id: "@ + decimal_spec(id as nat) + " }'"@,
        ValueView::CasRef(h) => "'CasRef { hash: ["@ + byte_list(h) + "] }'"@,
        ValueView::ColumnarRef => "'ColumnarRef'"@,
    }
}

/// The decimal text of a signed number.
fn signed_text(v: i64) -> (r: String)
    ensures
        r@ == signed_decimal(v as int),
{
    if v < 0 {
        let a: u64 = if v == i64::MIN {
            9223372036854775808u64
        } else {
            (-v) as u64
        };
        String::from_str("-").concat(decimal(a).as_str())
    } else {
        decimal(v as u64)
    }
}

/// The text as a SQL string literal.
fn quote(t: &str) -> (r: String)
    ensures
        r@ == quoted(t@),
{
    let n = t.unicode_len();
    let mut out = String::from_str("'");
    proof {
        reveal_strlit("'");
        reveal_strlit("''");
        assert(t@.subrange(0, 0) =~= Seq::<char>::empty());
        assert(out@ =~= "'"@ + sql_escape(t@.subrange(0, 0)));
    }
    let mut i: usize = 0;
    while i < n
        invariant
            n == t@.len(),
            i <= n,
            out@ == "'"@ + sql_escape(t@.subrange(0, i as int)),
        decreases n - i,
    {
        let c = t.get_char(i);
        let ghost before = out@;
        proof {
            assert(t@.subrange(0, i + 1).drop_last() =~= t@.subrange(0, i as int));
            assert(t@.subrange(0, i + 1).last() == c);
        }
        if c == '\'' {
            out = out.concat("''");
            proof {
                assert(out@ =~= "'"@ + sql_escape(t@.subrange(0, i + 1)));
            }
        } else {
            out = out.concat(t.substring_char(i, i + 1));
            proof {
                assert(t@.subrange(i as int, i + 1) =~= seq![c]);
                assert(out@ =~= "'"@ + sql_escape(t@.subrange(0, i + 1)));
            }
        }
        i = i + 1;
    }
    proof {
        assert(t@.subrange(0, n as int) =~= t@);
    }
    out.concat("'")
}

/// The bytes as a list of decimal numbers.
fn byte_list_text(b: &[u8]) -> (r: String)
    ensures
        r@ == byte_list(b@),
{
    let mut out = String::new();
    let mut i: usize = 0;
    proof {
        assert(b@.subrange(0, 0) =~= Seq::<u8>::empty());
    }
    while i < b.len()
        invariant
            i <= b@.len(),
            out@ == byte_list(b@.subrange(0, i as int)),
        decreases b@.len() - i,
    {
        proof {
            assert(b@.subrange(0, i + 1).drop_last() =~= b@.subrange(0, i as int));
            reveal_strlit(", ");
        }
        if i == 0 {
            out = decimal(b[0] as u64);
            proof {
                assert(b@.subrange(0, 1).len() == 1);
            }
        } else {
            out = out.concat(", ").concat(decimal(b[i] as u64).as_str());
        }
        i = i + 1;
    }
    proof {
        assert(b@.subrange(0, b@.len() as int) =~= b@);
    }
    out
}

/// The SQL literal of a value.
pub fn format_value_for_sql(value: &Value) -> (r: String)
    ensures
        r@ == sql_value_text(value@),
{
    match value {
        Value::Null => String::from_str("NULL"),
        Value::Boolean(b) => if *b {
            String::from_str("TRUE")
        } else {
            String::from_str("FALSE")
        },
        Value::Int2(i) => signed_text(*i as i64),
        Value::Int4(i) => signed_text(*i as i64),
        Value::Int8(i) => signed_text(*i),
        Value::String(s) => quote(s.as_str()),
        Value::Timestamp(t) => match utc_display_text(*t) {
            Some(d) => String::from_str("'").concat(d.as_str()).concat("'"),
            None => String::from_str("'").concat(signed_text(*t).as_str()).concat("'"),
        },
        Value::Bytes(b) => String::from_str("'Bytes([").concat(byte_list_text(b.as_slice()).as_str()).concat("])'"),
        Value::DictRef { dict_id } => String::from_str("'DictRef { dict_id: ").concat(decimal(*dict_id as u64).as_str()).concat(
            " }'",
        ),
        Value::CasRef { hash } => String::from_str("'CasRef { hash: [").concat(byte_list_text(hash.as_slice()).as_str()).concat(
            "] }'",
        ),
        Value::ColumnarRef => String::from_str("'ColumnarRef'"),
    }
}

/// A column of a table as the SQL dump writes it.
#[derive(Debug, Clone)]
pub struct SqlColumn {
    /// Column name
    pub name: String,
    /// SQL type name
    pub sql_type: String,
    /// Part of the primary key
    pub primary_key: bool,
    /// Accepts NULL
    pub nullable: bool,
}

/// The line of a column in `CREATE TABLE`; `last` says whether it is the last one.
pub open spec fn column_line(c: SqlColumn, last: bool) -> Seq<char> {
    "  "@ + c.name@ + " "@ + c.sql_type@ + (if c.primary_key { " PRIMARY KEY"@ } else { ""@ }) + (if !c.nullable {
        " NOT NULL"@
    } else {
        ""@
    }) + (if last { ""@ } else { ","@ }) + "\n"@
}

/// The lines of the first `n` columns.
pub open spec fn column_lines(cols: Seq<SqlColumn>, n: int) -> Seq<char>
    decreases n,
{
    if n <= 0 {
        Seq::empty()
    } else {
        column_lines(cols, n - 1) + column_line(cols[n - 1], n == cols.len())
    }
}

/// The values of a row joined by `, ` (the first `n`).
pub open spec fn joined_values(vals: Seq<Value>, n: int) -> Seq<char>
    decreases n,
{
    if n <= 0 {
        Seq::empty()
    } else if n == 1 {
        sql_value_text(vals[0]@)
    } else {
        joined_values(vals, n - 1) + ", "@ + sql_value_text(vals[n - 1]@)
    }
}

/// The lines of the first `n` rows of an `INSERT`: `  (values)` then `,`,
/// or `;` after the last row.
pub open spec fn row_lines(rows: Seq<Vec<Value>>, n: int) -> Seq<char>
    decreases n,
{
    if n <= 0 {
        Seq::empty()
    } else {
        row_lines(rows, n - 1) + "  ("@ + joined_values(rows[n - 1]@, rows[n - 1]@.len() as int) + ")"@ + (if n == rows.len() {
            ";"@
        } else {
            ","@
        }) + "\n"@
    }
}

/// The SQL text of a table: a comment, `CREATE TABLE` with the columns,
/// then (when there are rows) an `INSERT` of every row.
pub open spec fn table_sql(table: Seq<char>, cols: Seq<SqlColumn>, rows: Seq<Vec<Value>>) -> Seq<char> {
    "-- Table: "@ + table + "\n"@ + "CREATE TABLE IF NOT EXISTS "@ + table + " (\n"@ + column_lines(cols, cols.len() as int) + ");\n\n"@
        + if rows.len() == 0 {
        Seq::<char>::empty()
    } else {
        "INSERT INTO "@ + table + " VALUES\n"@ + row_lines(rows, rows.len() as int) + "\n\n"@
    }
}

/// The values of a row joined by `, `.
fn join_values(vals: &Vec<Value>) -> (r: String)
    ensures
        r@ == joined_values(vals@, vals@.len() as int),
{
    let mut out = String::new();
    let mut i: usize = 0;
    while i < vals.len()
        invariant
            i <= vals@.len(),
            out@ == joined_values(vals@, i as int),
        decreases vals@.len() - i,
    {
        let t = format_value_for_sql(&vals[i]);
        if i == 0 {
            out = t;
        } else {
            out = out.concat(", ").concat(t.as_str());
        }
        i = i + 1;
    }
    out
}

/// The SQL text of a table's schema and rows.
pub fn table_sql_text(table: &str, columns: &[SqlColumn], rows: &[Vec<Value>]) -> (r: String)
    ensures
        r@ == table_sql(table@, columns@, rows@),
{
    let mut out = String::from_str("-- Table: ").concat(table).concat("\n").concat("CREATE TABLE IF NOT EXISTS ").concat(table).concat(
        " (\n",
    );
    let ghost head = out@;
    let mut i: usize = 0;
    while i < columns.len()
        invariant
            i <= columns@.len(),
            out@ == head + column_lines(columns@, i as int),
        decreases columns@.len() - i,
    {
        let c = &columns[i];
        let line = String::from_str("  ").concat(c.name.as_str()).concat(" ").concat(c.sql_type.as_str()).concat(
            if c.primary_key {
                " PRIMARY KEY"
            } else {
                ""
            },
        ).concat(
            if !c.nullable {
                " NOT NULL"
            } else {
                ""
            },
        ).concat(
            if i + 1 < columns.len() {
                ","
            } else {
                ""
            },
        ).concat("\n");
        let ghost before = out@;
        out = out.concat(line.as_str());
        proof {
            assert(line@ == column_line(columns@[i as int], i + 1 == columns@.len()));
            assert(out@ =~= head + column_lines(columns@, i + 1));
        }
        i = i + 1;
    }
    out = out.concat(");\n\n");
    let ghost mid = out@;
    if rows.len() > 0 {
        out = out.concat("INSERT INTO ").concat(table).concat(" VALUES\n");
        let ghost ins = out@;
        let mut k: usize = 0;
        while k < rows.len()
            invariant
                k <= rows@.len(),
                out@ == ins + row_lines(rows@, k as int),
            decreases rows@.len() - k,
        {
            let vals = join_values(&rows[k]);
            let line = String::from_str("  (").concat(vals.as_str()).concat(")").concat(
                if k + 1 == rows.len() {
                    ";"
                } else {
                    ","
                },
            ).concat("\n");
            out = out.concat(line.as_str());
            proof {
                assert(out@ =~= ins + row_lines(rows@, k + 1));
            }
            k = k + 1;
        }
        out = out.concat("\n\n");
        proof {
            assert(out@ =~= table_sql(table@, columns@, rows@));
        }
    } else {
        proof {
            assert(out@ =~= table_sql(table@, columns@, rows@));
        }
    }
    out
}

} // verus!
