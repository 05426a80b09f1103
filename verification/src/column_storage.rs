//! Per-column storage modes: which values of a row are kept inline and
//! which are replaced by a reference into the column dictionary, the
//! content-addressed store or the column store, on insert, on read and when
//! a column's mode changes.
use vstd::prelude::*;
use crate::value::{Value, ValueView};
use crate::content_addr::{payload_of, CAS_MIN_SIZE};

verus! {

/// How the values of a column are stored.
#[derive(Debug, Clone, Copy, PartialEq, Eq, Structural)]
pub enum ColumnStorageMode {
    /// Inline in the row
    Default,
    /// Text values replaced by an id of the column's dictionary
    Dictionary,
    /// Large text and byte values kept once, by content hash
    ContentAddressed,
    /// Values kept in column batches, the row holding a marker
    Columnar,
}

/// Where the value a row holds for a column is to be found.
#[derive(Debug, Clone, Copy, PartialEq, Eq)]
pub enum StoredSource {
    /// The row holds the value itself
    Inline,
    /// The entry of the column's dictionary with this id
    Dictionary(u32),
    /// The content stored under this hash
    ContentStore([u8; 32]),
    /// The column batch slot of the row
    ColumnStore,
}

/// What storing a value of a column does with it.
#[derive(Debug, Clone, Copy, PartialEq, Eq, Structural)]
pub enum StoreAction {
    /// Keep it in the row as it is
    Keep,
    /// Replace it by its dictionary id
    DictionaryEncode,
    /// Store the content and keep its hash reference
    ContentStore,
    /// Store it in the column batch and keep the columnar marker
    ColumnStore,
}

/// The view of a source: hashes as sequences.
pub enum SourceView {
    /// In the row
    Inline,
    /// Dictionary entry
    Dictionary(u32),
    /// Content by hash
    ContentStore(Seq<u8>),
    /// Column batch slot
    ColumnStore,
}

/// Where a row's value for a column in the given mode is found: a
/// reference of the mode's kind is looked up in its store, anything else is
/// the value itself.
pub open spec fn read_source_spec(mode: ColumnStorageMode, v: ValueView) -> SourceView {
    match (mode, v) {
        (ColumnStorageMode::Dictionary, ValueView::DictRef(id)) => SourceView::Dictionary(id),
        (ColumnStorageMode::ContentAddressed, ValueView::CasRef(h)) => SourceView::ContentStore(h),
        (ColumnStorageMode::Columnar, ValueView::ColumnarRef) => SourceView::ColumnStore,
        _ => SourceView::Inline,
    }
}

/// The view of a source.
pub open spec fn source_view(s: StoredSource) -> SourceView {
    match s {
        StoredSource::Inline => SourceView::Inline,
        StoredSource::Dictionary(id) => SourceView::Dictionary(id),
        StoredSource::ContentStore(h) => SourceView::ContentStore(h@),
        StoredSource::ColumnStore => SourceView::ColumnStore,
    }
}

/// Where the value a row holds for a column in the given mode is found.
pub fn read_source(mode: ColumnStorageMode, v: &Value) -> (r: StoredSource)
    ensures
        source_view(r) == read_source_spec(mode, v@),
{
    match (mode, v) {
        (ColumnStorageMode::Dictionary, Value::DictRef { dict_id }) => StoredSource::Dictionary(*dict_id),
        (ColumnStorageMode::ContentAddressed, Value::CasRef { hash }) => StoredSource::ContentStore(*hash),
        (ColumnStorageMode::Columnar, Value::ColumnarRef) => StoredSource::ColumnStore,
        _ => StoredSource::Inline,
    }
}

/// What an insert does with a value of a column in the given mode: text is
/// dictionary-encoded, text and bytes of at least `CAS_MIN_SIZE` bytes go to
/// the content store, every value of a columnar column goes to the column
/// store; anything else stays in the row.
pub open spec fn insert_action_spec(mode: ColumnStorageMode, v: ValueView) -> StoreAction {
    match mode {
        ColumnStorageMode::Dictionary => if v is String {
            StoreAction::DictionaryEncode
        } else {
            StoreAction::Keep
        },
        ColumnStorageMode::ContentAddressed => match payload_of(v) {
            Some(p) => if p.len() >= CAS_MIN_SIZE {
                StoreAction::ContentStore
            } else {
                StoreAction::Keep
            },
            None => StoreAction::Keep,
        },
        ColumnStorageMode::Columnar => StoreAction::ColumnStore,
        ColumnStorageMode::Default => StoreAction::Keep,
    }
}

/// What an insert does with a value of a column in the given mode.
pub fn insert_action(mode: ColumnStorageMode, v: &Value) -> (r: StoreAction)
    ensures
        r == insert_action_spec(mode, v@),
{
    match mode {
        ColumnStorageMode::Dictionary => match v {
            Value::String(_) => StoreAction::DictionaryEncode,
            _ => StoreAction::Keep,
        },
        ColumnStorageMode::ContentAddressed => match v {
            Value::String(s) => if s.as_str().as_bytes().len() >= CAS_MIN_SIZE {
                StoreAction::ContentStore
            } else {
                StoreAction::Keep
            },
            Value::Bytes(b) => if b.len() >= CAS_MIN_SIZE {
                StoreAction::ContentStore
            } else {
                StoreAction::Keep
            },
            _ => StoreAction::Keep,
        },
        ColumnStorageMode::Columnar => StoreAction::ColumnStore,
        ColumnStorageMode::Default => StoreAction::Keep,
    }
}

/// What a change of a column's storage mode does with each decoded value
/// in the new mode: as an insert does, except that every text and byte
/// value goes to the content store, whatever its size.
pub open spec fn migration_action_spec(mode: ColumnStorageMode, v: ValueView) -> StoreAction {
    match mode {
        ColumnStorageMode::ContentAddressed => if payload_of(v) is Some {
            StoreAction::ContentStore
        } else {
            StoreAction::Keep
        },
        _ => insert_action_spec(mode, v),
    }
}

/// What a change of a column's storage mode does with a decoded value in
/// the new mode.
pub fn migration_action(mode: ColumnStorageMode, v: &Value) -> (r: StoreAction)
    ensures
        r == migration_action_spec(mode, v@),
{
    match mode {
        ColumnStorageMode::ContentAddressed => match v {
            Value::String(_) => StoreAction::ContentStore,
            Value::Bytes(_) => StoreAction::ContentStore,
            _ => StoreAction::Keep,
        },
        _ => insert_action(mode, v),
    }
}

/// Does a change of storage mode drop the row's slot in the column store?
/// Only when the column leaves columnar storage.
pub fn migration_clears_columnar(old_mode: ColumnStorageMode, new_mode: ColumnStorageMode) -> (r: bool)
    ensures
        r == (old_mode == ColumnStorageMode::Columnar && new_mode != ColumnStorageMode::Columnar),
{
    match (old_mode, new_mode) {
        (ColumnStorageMode::Columnar, ColumnStorageMode::Columnar) => false,
        (ColumnStorageMode::Columnar, _) => true,
        _ => false,
    }
}

/// The reference a row keeps after a store action: the dictionary id, the
/// content hash or the columnar marker; the value itself when kept.
pub open spec fn kept_in_row(a: StoreAction, v: ValueView, dict_id: u32, hash: Seq<u8>) -> ValueView {
    match a {
        StoreAction::Keep => v,
        StoreAction::DictionaryEncode => ValueView::DictRef(dict_id),
        StoreAction::ContentStore => ValueView::CasRef(hash),
        StoreAction::ColumnStore => ValueView::ColumnarRef,
    }
}

/// Is the value itself a reference into one of the stores?
pub open spec fn is_reference(v: ValueView) -> bool {
    v is DictRef || v is CasRef || v is ColumnarRef
}

/// A stored value is read back from where it was put: what an insert (or a
/// change of mode) keeps in the row for a value that is not itself a
/// reference leads a read in the same mode to the store the value went to,
/// or to the row when it stayed there.
pub proof fn law_store_then_read(mode: ColumnStorageMode, v: ValueView, dict_id: u32, hash: Seq<u8>, migrating: bool)
    requires
        !is_reference(v),
    ensures
        ({
            let a = if migrating { migration_action_spec(mode, v) } else { insert_action_spec(mode, v) };
            let kept = kept_in_row(a, v, dict_id, hash);
            read_source_spec(mode, kept) == match a {
                StoreAction::Keep => SourceView::Inline,
                StoreAction::DictionaryEncode => SourceView::Dictionary(dict_id),
                StoreAction::ContentStore => SourceView::ContentStore(hash),
                StoreAction::ColumnStore => SourceView::ColumnStore,
            }
        }),
{
}

} // verus!
