use heliosdb_lite::dump_sql::{format_value_for_sql, table_sql_text, SqlColumn};
use heliosdb_lite::value::Value;

#[test]
fn sql_literals() {
    assert_eq!(format_value_for_sql(&Value::Null), "NULL");
    assert_eq!(format_value_for_sql(&Value::Boolean(true)), "TRUE");
    assert_eq!(format_value_for_sql(&Value::Boolean(false)), "FALSE");
    assert_eq!(format_value_for_sql(&Value::Int2(-5)), "-5");
    assert_eq!(format_value_for_sql(&Value::Int4(42)), "42");
    assert_eq!(format_value_for_sql(&Value::Int8(i64::MIN)), "-9223372036854775808");
    assert_eq!(format_value_for_sql(&Value::String("it's".to_string())), "'it''s'");
    assert_eq!(format_value_for_sql(&Value::String("".to_string())), "''");
    assert_eq!(format_value_for_sql(&Value::Timestamp(0)), "'1970-01-01 00:00:00 UTC'");
    assert_eq!(format_value_for_sql(&Value::Bytes(vec![1, 2])), "'Bytes([1, 2])'");
    assert_eq!(format_value_for_sql(&Value::Bytes(vec![])), "'Bytes([])'");
    assert_eq!(format_value_for_sql(&Value::DictRef { dict_id: 7 }), "'DictRef { dict_id: 7 }'");
    assert_eq!(format_value_for_sql(&Value::ColumnarRef), "'ColumnarRef'");
}

#[test]
fn sql_literal_matches_debug_form() {
    let v = Value::CasRef { hash: [3u8; 32] };
    assert_eq!(format_value_for_sql(&v), format!("'{:?}'", v));
    let b = Value::Bytes(vec![0, 255, 16]);
    assert_eq!(format_value_for_sql(&b), format!("'{:?}'", b));
}

#[test]
fn sql_table_text() {
    let cols = vec![
        SqlColumn { name: "id".to_string(), sql_type: "INT8".to_string(), primary_key: true, nullable: false },
        SqlColumn { name: "name".to_string(), sql_type: "TEXT".to_string(), primary_key: false, nullable: true },
    ];
    let rows = vec![vec![Value::Int8(1), Value::String("a".to_string())], vec![Value::Int8(2), Value::Null]];
    let text = table_sql_text("users", &cols, &rows);
    assert_eq!(
        text,
        "-- Table: users\nCREATE TABLE IF NOT EXISTS users (\n  id INT8 PRIMARY KEY NOT NULL,\n  name TEXT\n);\n\nINSERT INTO users VALUES\n  (1, 'a'),\n  (2, NULL);\n\n\n"
    );
    let empty = table_sql_text("t", &cols[..1], &[]);
    assert_eq!(empty, "-- Table: t\nCREATE TABLE IF NOT EXISTS t (\n  id INT8 PRIMARY KEY NOT NULL\n);\n\n");
}
