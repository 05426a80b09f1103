use heliosdb_lite::gin_index::{GinIndex, Json};

fn s(x: &str) -> Json {
    Json::Str(x.to_string())
}

fn n(x: &str) -> Json {
    Json::Number(x.to_string())
}

fn obj(members: Vec<(&str, Json)>) -> Json {
    Json::Object(members.into_iter().map(|(k, v)| (k.to_string(), v)).collect())
}

fn index() -> GinIndex {
    GinIndex::new("test_idx".to_string(), "test_table".to_string(), "data".to_string())
}

#[test]
fn test_gin_index_creation() {
    let index = index();

    assert_eq!(index.name, "test_idx");
    assert_eq!(index.total_keys, 0);
    assert_eq!(index.indexed_rows, 0);
}

#[test]
fn test_gin_index_insert() {
    let mut index = index();

    let json = obj(vec![("name", s("Alice")), ("age", n("30")), ("tags", Json::Array(vec![s("rust"), s("database")]))]);

    index.insert(1, &json).expect("Failed to insert");

    assert_eq!(index.indexed_rows, 1);
    assert!(index.total_keys >= 3);
}

#[test]
fn test_gin_index_key_search() {
    let mut index = index();

    let json1 = obj(vec![("name", s("Alice")), ("city", s("NYC"))]);
    let json2 = obj(vec![("name", s("Bob")), ("country", s("USA"))]);

    index.insert(1, &json1).unwrap();
    index.insert(2, &json2).unwrap();

    let results = index.search_key("name").unwrap();
    assert_eq!(results.len(), 2);

    let results = index.search_key("city").unwrap();
    assert_eq!(results.len(), 1);
    assert_eq!(results[0], 1);
}

#[test]
fn test_gin_index_any_key_search() {
    let mut index = index();

    let json1 = obj(vec![("name", s("Alice")), ("city", s("NYC"))]);
    let json2 = obj(vec![("name", s("Bob")), ("country", s("USA"))]);

    index.insert(1, &json1).unwrap();
    index.insert(2, &json2).unwrap();

    let keys = vec!["city".to_string(), "country".to_string()];
    let results = index.search_any_key(&keys).unwrap();
    assert_eq!(results.len(), 2);
}

#[test]
fn test_gin_index_all_keys_search() {
    let mut index = index();

    let json1 = obj(vec![("name", s("Alice")), ("city", s("NYC")), ("age", n("30"))]);
    let json2 = obj(vec![("name", s("Bob")), ("country", s("USA"))]);

    index.insert(1, &json1).unwrap();
    index.insert(2, &json2).unwrap();

    let keys = vec!["name".to_string(), "city".to_string()];
    let results = index.search_all_keys(&keys).unwrap();
    assert_eq!(results.len(), 1);
    assert_eq!(results[0], 1);
}

#[test]
fn test_gin_index_delete() {
    let mut index = index();

    let json = obj(vec![("name", s("Alice")), ("age", n("30"))]);

    index.insert(1, &json).unwrap();
    assert_eq!(index.indexed_rows, 1);

    index.delete(1, &json).unwrap();
    assert_eq!(index.indexed_rows, 0);
    assert_eq!(index.total_keys, 0);
}

#[test]
fn test_gin_index_nested_json() {
    let mut index = index();

    let json = obj(vec![("user", obj(vec![("name", s("Alice")), ("address", obj(vec![("city", s("NYC"))]))]))]);

    index.insert(1, &json).unwrap();

    assert!(index.search_key("user").is_some());
    assert!(index.search_key("name").is_some());
    assert!(index.search_key("address").is_some());
    assert!(index.search_key("city").is_some());
}

#[test]
fn gin_paths_and_values() {
    let mut index = index();
    let json = obj(vec![("a", obj(vec![("b", Json::Array(vec![n("1"), Json::Bool(true), Json::Null]))]))]);
    index.insert(7, &json).unwrap();
    assert_eq!(index.search_path("a"), Some(vec![7]));
    assert_eq!(index.search_path("a.b"), Some(vec![7]));
    assert_eq!(index.search_path("a.b[0]"), Some(vec![7]));
    assert_eq!(index.search_path("a.b[2]"), Some(vec![7]));
    assert_eq!(index.search_path("a.b[3]"), None);
    assert_eq!(index.search_path("b"), None);
    assert_eq!(index.search_value(&n("1")), Some(vec![7]));
    assert_eq!(index.search_value(&Json::Bool(true)), Some(vec![7]));
    assert_eq!(index.search_value(&Json::Null), Some(vec![7]));
    assert_eq!(index.search_value(&Json::Bool(false)), None);
    assert_eq!(index.search_value(&Json::Array(vec![])), None);
    assert_eq!(index.total_paths, 5);
    assert_eq!(index.statistics().total_values, 3);
}

#[test]
fn gin_string_values_use_json_text() {
    let mut index = index();
    index.insert(3, &Json::Array(vec![s("x\"y"), s("plain")])).unwrap();
    assert_eq!(index.search_path("[0]"), Some(vec![3]));
    assert_eq!(index.search_path("[1]"), Some(vec![3]));
    assert_eq!(index.search_value(&s("x\"y")), Some(vec![3]));
    assert_eq!(index.search_value(&s("plain")), Some(vec![3]));
    assert_eq!(index.total_keys, 0);
}

#[test]
fn gin_delete_keeps_other_rows() {
    let mut index = index();
    let a = obj(vec![("k", n("1"))]);
    let b = obj(vec![("k", n("2")), ("only_b", Json::Null)]);
    index.insert(1, &a).unwrap();
    index.insert(2, &b).unwrap();
    index.delete(2, &b).unwrap();
    assert_eq!(index.search_key("k"), Some(vec![1]));
    assert_eq!(index.search_key("only_b"), None);
    assert_eq!(index.total_keys, 1);
    assert_eq!(index.indexed_rows, 1);
    assert_eq!(index.search_any_key(&["nope".to_string()]), None);
    assert_eq!(index.search_all_keys(&[]), None);
    assert_eq!(index.search_all_keys(&["k".to_string(), "missing".to_string()]), None);
    let stats = index.statistics();
    assert_eq!(stats.name, "test_idx");
    assert_eq!(stats.total_keys, 1);
    assert_eq!(stats.indexed_rows, 1);
}

#[test]
fn gin_delete_on_empty_saturates() {
    let mut index = index();
    index.delete(1, &Json::Null).unwrap();
    assert_eq!(index.indexed_rows, 0);
}
