use heliosdb_lite::column_storage::{
    insert_action, migration_action, migration_clears_columnar, read_source, ColumnStorageMode, StoreAction, StoredSource,
};
use heliosdb_lite::value::Value;

#[test]
fn insert_actions_by_mode() {
    let short = Value::String("abc".to_string());
    let long = Value::String("x".repeat(1024));
    assert_eq!(insert_action(ColumnStorageMode::Dictionary, &short), StoreAction::DictionaryEncode);
    assert_eq!(insert_action(ColumnStorageMode::Dictionary, &Value::Int8(1)), StoreAction::Keep);
    assert_eq!(insert_action(ColumnStorageMode::ContentAddressed, &short), StoreAction::Keep);
    assert_eq!(insert_action(ColumnStorageMode::ContentAddressed, &long), StoreAction::ContentStore);
    assert_eq!(insert_action(ColumnStorageMode::ContentAddressed, &Value::Bytes(vec![0; 1023])), StoreAction::Keep);
    assert_eq!(insert_action(ColumnStorageMode::ContentAddressed, &Value::Bytes(vec![0; 1024])), StoreAction::ContentStore);
    assert_eq!(insert_action(ColumnStorageMode::Columnar, &Value::Null), StoreAction::ColumnStore);
    assert_eq!(insert_action(ColumnStorageMode::Default, &long), StoreAction::Keep);
}

#[test]
fn migration_stores_all_content() {
    let short = Value::String("abc".to_string());
    assert_eq!(migration_action(ColumnStorageMode::ContentAddressed, &short), StoreAction::ContentStore);
    assert_eq!(migration_action(ColumnStorageMode::ContentAddressed, &Value::Int4(3)), StoreAction::Keep);
    assert_eq!(migration_action(ColumnStorageMode::Dictionary, &short), StoreAction::DictionaryEncode);
    assert!(migration_clears_columnar(ColumnStorageMode::Columnar, ColumnStorageMode::Default));
    assert!(!migration_clears_columnar(ColumnStorageMode::Columnar, ColumnStorageMode::Columnar));
    assert!(!migration_clears_columnar(ColumnStorageMode::Dictionary, ColumnStorageMode::Columnar));
}

#[test]
fn reads_follow_references_of_the_mode() {
    assert_eq!(read_source(ColumnStorageMode::Dictionary, &Value::DictRef { dict_id: 4 }), StoredSource::Dictionary(4));
    assert_eq!(read_source(ColumnStorageMode::Default, &Value::DictRef { dict_id: 4 }), StoredSource::Inline);
    assert_eq!(read_source(ColumnStorageMode::ContentAddressed, &Value::CasRef { hash: [7; 32] }), StoredSource::ContentStore([7; 32]));
    assert_eq!(read_source(ColumnStorageMode::Columnar, &Value::ColumnarRef), StoredSource::ColumnStore);
    assert_eq!(read_source(ColumnStorageMode::Columnar, &Value::Int8(2)), StoredSource::Inline);
}
