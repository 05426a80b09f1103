use heliosdb_lite::art_index::{AdaptiveRadixTree, ArtIndexError, ArtIndexType};

fn tree(name: &str, table: &str, column: &str, kind: ArtIndexType) -> AdaptiveRadixTree {
    AdaptiveRadixTree::new(name, table, vec![column.to_string()], kind)
}

#[test]
fn test_basic_insert_get() {
    let mut tree = tree("test_idx", "test_table", "id", ArtIndexType::Manual);

    tree.insert(b"hello", 1).unwrap();
    tree.insert(b"world", 2).unwrap();
    tree.insert(b"helios", 3).unwrap();

    assert_eq!(tree.get(b"hello"), Some(1));
    assert_eq!(tree.get(b"world"), Some(2));
    assert_eq!(tree.get(b"helios"), Some(3));
    assert_eq!(tree.get(b"notfound"), None);
}

#[test]
fn test_primary_key_uniqueness() {
    let mut tree = tree("pk_idx", "users", "id", ArtIndexType::PrimaryKey);

    tree.insert(b"user1", 1).unwrap();

    let result = tree.insert(b"user1", 2);
    assert!(matches!(result, Err(ArtIndexError::DuplicateKey(_))));
}

#[test]
fn test_unique_constraint() {
    let mut tree = tree("email_idx", "users", "email", ArtIndexType::Unique);

    tree.insert(b"alice@example.com", 1).unwrap();

    let result = tree.insert(b"alice@example.com", 2);
    assert!(matches!(result, Err(ArtIndexError::DuplicateKey(_))));

    tree.insert(b"bob@example.com", 2).unwrap();
}

#[test]
fn test_remove() {
    let mut tree = tree("test_idx", "test_table", "id", ArtIndexType::Manual);

    tree.insert(b"key1", 1).unwrap();
    tree.insert(b"key2", 2).unwrap();
    tree.insert(b"key3", 3).unwrap();

    assert_eq!(tree.len(), 3);

    let removed = tree.remove(b"key2").unwrap();
    assert_eq!(removed, Some(2));
    assert_eq!(tree.len(), 2);
    assert_eq!(tree.get(b"key2"), None);

    let removed = tree.remove(b"notfound").unwrap();
    assert_eq!(removed, None);
}

#[test]
fn test_iteration() {
    let mut tree = tree("test_idx", "test_table", "id", ArtIndexType::Manual);

    tree.insert(b"c", 3).unwrap();
    tree.insert(b"a", 1).unwrap();
    tree.insert(b"b", 2).unwrap();

    let mut results: Vec<_> = tree.iter().collect();
    results.sort_by_key(|(k, _)| k.clone());

    assert_eq!(results.len(), 3);
    assert_eq!(results[0], (b"a".to_vec(), 1));
    assert_eq!(results[1], (b"b".to_vec(), 2));
    assert_eq!(results[2], (b"c".to_vec(), 3));
}

#[test]
fn test_prefix_scan() {
    let mut tree = tree("test_idx", "test_table", "path", ArtIndexType::Manual);

    tree.insert(b"/users/alice", 1).unwrap();
    tree.insert(b"/users/bob", 2).unwrap();
    tree.insert(b"/posts/1", 3).unwrap();
    tree.insert(b"/posts/2", 4).unwrap();

    let users: Vec<_> = tree.prefix_scan(b"/users/").collect();
    assert_eq!(users.len(), 2);

    let posts: Vec<_> = tree.prefix_scan(b"/posts/").collect();
    assert_eq!(posts.len(), 2);
}

#[test]
fn test_range_scan() {
    let mut tree = tree("test_idx", "test_table", "id", ArtIndexType::Manual);

    tree.insert(b"a", 1).unwrap();
    tree.insert(b"b", 2).unwrap();
    tree.insert(b"c", 3).unwrap();
    tree.insert(b"d", 4).unwrap();
    tree.insert(b"e", 5).unwrap();

    let range: Vec<_> = tree.range(b"b", b"e").collect();
    assert_eq!(range.len(), 3);
}

#[test]
fn test_many_keys() {
    let mut tree = tree("test_idx", "test_table", "id", ArtIndexType::Manual);

    for i in 0..1000u64 {
        let key = format!("key_{:06}", i);
        tree.insert(key.as_bytes(), i).unwrap();
    }

    assert_eq!(tree.len(), 1000);

    for i in 0..1000u64 {
        let key = format!("key_{:06}", i);
        assert_eq!(tree.get(key.as_bytes()), Some(i));
    }
}

#[test]
fn test_node_growth() {
    let mut tree = tree("test_idx", "test_table", "id", ArtIndexType::Manual);

    for i in 0..100u8 {
        let key = [i];
        tree.insert(&key, i as u64).unwrap();
    }

    assert_eq!(tree.len(), 100);
    assert!(tree.stats().node256_count > 0 || tree.stats().node48_count > 0);
}

#[test]
fn test_prefix_key() {
    let mut tree = tree("test_idx", "test_table", "path", ArtIndexType::Manual);

    tree.insert(b"/users/admin", 1).unwrap();
    tree.insert(b"/users", 2).unwrap();
    tree.insert(b"/", 3).unwrap();

    assert_eq!(tree.get(b"/users/admin"), Some(1));
    assert_eq!(tree.get(b"/users"), Some(2));
    assert_eq!(tree.get(b"/"), Some(3));
    assert_eq!(tree.len(), 3);

    let items: Vec<_> = tree.iter().collect();
    assert_eq!(items.len(), 3);

    assert_eq!(tree.remove(b"/users").unwrap(), Some(2));
    assert_eq!(tree.get(b"/users"), None);
    assert_eq!(tree.get(b"/users/admin"), Some(1));
}

#[test]
fn test_prefix_key_reverse_order() {
    let mut tree = tree("test_idx", "test_table", "path", ArtIndexType::Manual);

    tree.insert(b"/api", 1).unwrap();
    tree.insert(b"/api/v1", 2).unwrap();
    tree.insert(b"/api/v1/users", 3).unwrap();

    assert_eq!(tree.get(b"/api"), Some(1));
    assert_eq!(tree.get(b"/api/v1"), Some(2));
    assert_eq!(tree.get(b"/api/v1/users"), Some(3));
    assert_eq!(tree.len(), 3);
}

#[test]
fn art_get_after_remove_and_reinsert() {
    let mut tree = tree("idx", "t", "id", ArtIndexType::Manual);
    tree.insert(b"k", 7).unwrap();
    assert_eq!(tree.remove(b"k").unwrap(), Some(7));
    assert_eq!(tree.get(b"k"), None);
    assert!(tree.is_empty());
    tree.insert(b"k", 8).unwrap();
    assert_eq!(tree.get(b"k"), Some(8));
    assert!(tree.contains(b"k"));
}

#[test]
fn art_manual_insert_same_key_twice() {
    let mut tree = tree("idx", "t", "id", ArtIndexType::Manual);
    tree.insert(b"dup", 1).unwrap();
    tree.insert(b"dup", 2).unwrap();
    assert_eq!(tree.len(), 1);
    assert!(tree.get(b"dup").is_some());
}

#[test]
fn art_iteration_is_sorted() {
    let mut tree = tree("idx", "t", "id", ArtIndexType::Manual);
    for k in [b"delta".as_ref(), b"alpha", b"charlie", b"bravo", b"al"] {
        tree.insert(k, k.len() as u64).unwrap();
    }
    let keys: Vec<Vec<u8>> = tree.iter().collect().into_iter().map(|(k, _)| k).collect();
    let mut sorted = keys.clone();
    sorted.sort();
    assert_eq!(keys, sorted);
    assert_eq!(keys.len(), 5);
}

#[test]
fn art_range_is_half_open() {
    let mut tree = tree("idx", "t", "id", ArtIndexType::Manual);
    for (i, k) in [b"a", b"b", b"c"].iter().enumerate() {
        tree.insert(*k, i as u64).unwrap();
    }
    let r: Vec<_> = tree.range(b"a", b"c").collect();
    assert_eq!(r, vec![(b"a".to_vec(), 0), (b"b".to_vec(), 1)]);
    let empty: Vec<_> = tree.range(b"c", b"a").collect();
    assert!(empty.is_empty());
}

#[test]
fn art_clear_and_stats() {
    let mut tree = tree("idx", "t", "id", ArtIndexType::Manual);
    tree.insert(b"x", 1).unwrap();
    tree.insert(b"y", 2).unwrap();
    assert_eq!(tree.stats().key_count, 2);
    tree.clear();
    assert_eq!(tree.len(), 0);
    assert_eq!(tree.get(b"x"), None);
    assert_eq!(tree.stats().total_nodes(), 0);
    assert_eq!(tree.stats().leaf_count, 0);
}

#[test]
fn wide_tree_root_is_node256() {
    let mut t = tree("w", "t", "c", ArtIndexType::Manual);
    for i in 0..49u8 {
        t.insert(&[i], i as u64).unwrap();
    }
    assert_eq!(t.len(), 49);
    assert!(t.stats().node256_count > 0);
    t.remove(&[0]).unwrap();
    assert_eq!(t.len(), 48);
}

#[test]
fn art_error_messages() {
    assert_eq!(ArtIndexError::DuplicateKey("k".to_string()).message(), "Duplicate key: k");
    assert_eq!(ArtIndexError::KeyNotFound.message(), "Key not found");
    assert_eq!(ArtIndexError::IndexNotFound("i".to_string()).message(), "Index 'i' not found");
    assert_eq!(ArtIndexType::PrimaryKey.to_display_string(), "PRIMARY KEY");
}
