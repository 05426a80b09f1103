//! Column values as the storage structures see them.
use vstd::prelude::*;

verus! {

/// A single column value.
#[derive(Debug, Clone, PartialEq, Eq)]
pub enum Value {
    /// SQL NULL
    Null,
    /// Boolean
    Boolean(bool),
    /// 16-bit integer
    Int2(i16),
    /// 32-bit integer
    Int4(i32),
    /// 64-bit integer
    Int8(i64),
    /// Text
    String(String),
    /// Raw bytes
    Bytes(Vec<u8>),
    /// Timestamp, in microseconds since the Unix epoch
    Timestamp(i64),
    /// Reference to an entry of a column dictionary
    DictRef { dict_id: u32 },
    /// Reference to content-addressed storage, by content hash
    CasRef { hash: [u8; 32] },
    /// Marker for a value kept in columnar storage
    ColumnarRef,
}

/// A column value as mathematics sees it: text and bytes as sequences.
pub enum ValueView {
    /// SQL NULL
    Null,
    /// Boolean
    Boolean(bool),
    /// 16-bit integer
    Int2(i16),
    /// 32-bit integer
    Int4(i32),
    /// 64-bit integer
    Int8(i64),
    /// Text
    String(Seq<char>),
    /// Raw bytes
    Bytes(Seq<u8>),
    /// Timestamp, in microseconds since the Unix epoch
    Timestamp(i64),
    /// Reference to an entry of a column dictionary
    DictRef(u32),
    /// Reference to content-addressed storage, by content hash
    CasRef(Seq<u8>),
    /// Marker for a value kept in columnar storage
    ColumnarRef,
}

impl View for Value {
    type V = ValueView;

    open spec fn view(&self) -> ValueView {
        match self {
            Value::Null => ValueView::Null,
            Value::Boolean(b) => ValueView::Boolean(*b),
            Value::Int2(i) => ValueView::Int2(*i),
            Value::Int4(i) => ValueView::Int4(*i),
            Value::Int8(i) => ValueView::Int8(*i),
            Value::String(s) => ValueView::String(s@),
            Value::Bytes(b) => ValueView::Bytes(b@),
            Value::Timestamp(t) => ValueView::Timestamp(*t),
            Value::DictRef { dict_id } => ValueView::DictRef(*dict_id),
            Value::CasRef { hash } => ValueView::CasRef(hash@),
            Value::ColumnarRef => ValueView::ColumnarRef,
        }
    }
}

impl Value {
    /// A copy of the value.
    pub fn duplicate(&self) -> (r: Value)
        ensures
            r@ == self@,
    {
        match self {
            Value::Null => Value::Null,
            Value::Boolean(b) => Value::Boolean(*b),
            Value::Int2(i) => Value::Int2(*i),
            Value::Int4(i) => Value::Int4(*i),
            Value::Int8(i) => Value::Int8(*i),
            Value::String(s) => Value::String(s.clone()),
            Value::Bytes(b) => Value::Bytes(crate::art_node::bytes_to_vec(b.as_slice())),
            Value::Timestamp(t) => Value::Timestamp(*t),
            Value::DictRef { dict_id } => Value::DictRef { dict_id: *dict_id },
            Value::CasRef { hash } => Value::CasRef { hash: *hash },
            Value::ColumnarRef => Value::ColumnarRef,
        }
    }

    /// Do the two values hold the same thing?
    pub fn same_as(&self, other: &Value) -> (r: bool)
        ensures
            r == (self@ == other@),
    {
        match (self, other) {
            (Value::Null, Value::Null) => true,
            (Value::Boolean(a), Value::Boolean(b)) => *a == *b,
            (Value::Int2(a), Value::Int2(b)) => *a == *b,
            (Value::Int4(a), Value::Int4(b)) => *a == *b,
            (Value::Int8(a), Value::Int8(b)) => *a == *b,
            (Value::String(a), Value::String(b)) => crate::text::str_eq(a.as_str(), b.as_str()),
            (Value::Bytes(a), Value::Bytes(b)) => crate::text::same_bytes(a.as_slice(), b.as_slice()),
            (Value::Timestamp(a), Value::Timestamp(b)) => *a == *b,
            (Value::DictRef { dict_id: a }, Value::DictRef { dict_id: b }) => *a == *b,
            (Value::CasRef { hash: a }, Value::CasRef { hash: b }) => crate::text::same_bytes(a.as_slice(), b.as_slice()),
            (Value::ColumnarRef, Value::ColumnarRef) => true,
            _ => false,
        }
    }

    /// Is this the NULL value?
    pub fn is_null(&self) -> (r: bool)
        ensures
            r == (*self is Null),
    {
        match self {
            Value::Null => true,
            _ => false,
        }
    }
}


/// The column types that the storage layer tells apart.
#[derive(Debug, Clone, Copy, PartialEq, Eq, Structural)]
pub enum DataType {
    /// Boolean
    Boolean,
    /// 16-bit integer
    Int2,
    /// 32-bit integer
    Int4,
    /// 64-bit integer
    Int8,
    /// Text
    Text,
    /// Raw bytes
    Bytea,
    /// Timestamp
    Timestamp,
}

} // verus!
