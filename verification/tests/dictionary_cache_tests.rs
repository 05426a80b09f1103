use heliosdb_lite::dictionary::{ColumnDictionary, DictionaryManager};

#[test]
fn cache_encodes_after_install() {
    let mut m = DictionaryManager::new();
    assert!(!m.is_cached("users", "city"));
    assert_eq!(m.encode("users", "city", "Paris"), None);
    assert_eq!(m.decode("users", "city", 0), None);
    m.install("users", "city", ColumnDictionary::new());
    assert!(m.is_cached("users", "city"));
    assert_eq!(m.encode("users", "city", "Paris"), Some(0));
    assert_eq!(m.encode("users", "city", "Rome"), Some(1));
    assert_eq!(m.encode("users", "city", "Paris"), Some(0));
    assert_eq!(m.decode("users", "city", 1), Some(Ok("Rome".to_string())));
    assert_eq!(m.decode("users", "city", 7), Some(Err("Invalid dict_id 7 for users.city".to_string())));
    let s = m.stats("users", "city").unwrap();
    assert_eq!(s.unique_values, 2);
    assert!(s.dirty);
}

#[test]
fn cache_tracks_unsaved_dictionaries() {
    let mut m = DictionaryManager::default();
    let mut loaded = ColumnDictionary::new();
    loaded.encode("a");
    m.install("t", "c1", loaded);
    m.install("t", "c2", ColumnDictionary::new());
    // an existing value changes nothing
    assert_eq!(m.encode("t", "c1", "a"), Some(0));
    assert!(!m.needs_save("t", "c1"));
    assert!(m.dirty_columns().is_empty());
    m.encode("t", "c2", "x");
    assert!(m.needs_save("t", "c2"));
    assert_eq!(m.dirty_columns(), vec![("t".to_string(), "c2".to_string())]);
    m.mark_saved("t", "c2");
    assert!(!m.needs_save("t", "c2"));
    // a second install keeps the cached dictionary
    m.install("t", "c2", ColumnDictionary::new());
    assert_eq!(m.stats("t", "c2").unwrap().unique_values, 1);
    m.drop_dictionary("t", "c2");
    assert!(!m.is_cached("t", "c2"));
    assert!(m.is_cached("t", "c1"));
    m.clear_cache();
    assert!(!m.is_cached("t", "c1"));
    assert_eq!(DictionaryManager::dict_key("t", "c1"), b"dict:t:c1".to_vec());
}
