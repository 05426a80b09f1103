use heliosdb_lite::branch::{
    branch_read_keys, build_parent_chain, check_merge, record_drop, record_merge, BranchMetadata, BranchOptions, BranchState, BranchStats, check_drop, decode_branch_data_key, encode_branch_data_key, find_merge_base, gc_action_on_drop, gc_due_branches,
    gc_eligible, plan_merge, BranchError, BranchGcConfig, BranchGcMode, BranchRegistry, GcAction, KeyVersions,
    MergeStrategy,
};

#[test]
fn test_branch_key_encoding() {
    let key = encode_branch_data_key(1, "users:123", 100);
    let (branch_id, user_key) = decode_branch_data_key(&key).unwrap();

    assert_eq!(branch_id, 1);
    assert_eq!(user_key, "users:123");
}

#[test]
fn test_gc_config_default() {
    let config = BranchGcConfig::default();
    assert_eq!(config.min_retention_seconds, 300);
    assert!(config.auto_gc_enabled);
    assert_eq!(config.gc_mode, BranchGcMode::Deferred);
}

#[test]
fn branch_key_roundtrip_and_rejects_short_keys() {
    for (id, k) in [(0u64, ""), (u64::MAX, "a:b:c"), (42, "héllo")] {
        let key = encode_branch_data_key(id, k, 0);
        assert_eq!(decode_branch_data_key(&key), Some((id, k.to_string())));
    }
    assert_eq!(decode_branch_data_key(b"short"), None);
    assert_eq!(decode_branch_data_key(b"xxxxxxxxxxxxxxxxxx"), None);
}

#[test]
fn branch_drop_decisions() {
    assert!(matches!(check_drop("dev", false, true, false, 0), Ok(false)));
    match check_drop("dev", false, false, false, 0) {
        Err(BranchError::Storage(m)) => assert_eq!(m, "Branch 'dev' not found"),
        other => panic!("unexpected {:?}", other),
    }
    match check_drop("main", true, false, true, 0) {
        Err(BranchError::Storage(m)) => assert_eq!(m, "Cannot drop main branch"),
        other => panic!("unexpected {:?}", other),
    }
    match check_drop("dev", true, false, false, 2) {
        Err(BranchError::Storage(m)) => assert_eq!(m, "Cannot drop branch 'dev': has 2 child branch(es)"),
        other => panic!("unexpected {:?}", other),
    }
    assert!(matches!(check_drop("dev", true, false, false, 0), Ok(true)));
    assert_eq!(BranchError::Merge("x".to_string()).message(), "Branch merge error: x");
}

#[test]
fn branch_gc_actions() {
    let mut config = BranchGcConfig::default();
    assert_eq!(gc_action_on_drop(&config, 50), GcAction::Queue { dropped_at: 50 });
    config.gc_mode = BranchGcMode::Immediate;
    assert_eq!(gc_action_on_drop(&config, 50), GcAction::CollectNow);
    config.auto_gc_enabled = false;
    assert_eq!(gc_action_on_drop(&config, 50), GcAction::Skip);

    assert!(gc_eligible(400, 100, 300));
    assert!(!gc_eligible(399, 100, 300));
    assert!(!gc_eligible(10, 100, 1));
    let due = gc_due_branches(&vec![(1, 0), (2, 350), (3, 100)], 400, 300);
    assert_eq!(due, vec![1, 3]);
}

#[test]
fn branch_merge_base() {
    let source = vec![(1u64, 10u64), (0, 5)];
    let target = vec![(2u64, 7u64), (0, 5)];
    assert_eq!(find_merge_base(&source, &target, 12, 9), 5);
    assert_eq!(find_merge_base(&vec![], &vec![], 12, 9), 9);
    assert_eq!(find_merge_base(&vec![(0, 3)], &vec![(0, 4)], 2, 8), 2);
}

fn kv(key: &str, in_target: bool, base: Option<&[u8]>, source: Option<&[u8]>, target: Option<&[u8]>) -> KeyVersions {
    KeyVersions {
        key: key.to_string(),
        in_target,
        base: base.map(|b| b.to_vec()),
        source: source.map(|b| b.to_vec()),
        target: target.map(|b| b.to_vec()),
    }
}

#[test]
fn branch_merge_plans() {
    let entries = vec![
        kv("new", false, None, Some(b"n"), None),
        kv("conflict", true, Some(b"b"), Some(b"s"), Some(b"t")),
        kv("source_changed", true, Some(b"b"), Some(b"s"), Some(b"b")),
        kv("unchanged", true, Some(b"b"), Some(b"b"), Some(b"t")),
    ];
    let auto = plan_merge(&entries, MergeStrategy::Auto);
    assert!(auto.completed);
    assert_eq!(auto.conflicts.len(), 1);
    assert_eq!(auto.conflicts[0].key, "conflict");
    assert_eq!(auto.copy_keys, vec!["new", "conflict", "source_changed"]);

    let ours = plan_merge(&entries, MergeStrategy::Ours);
    assert!(ours.completed);
    assert_eq!(ours.copy_keys, vec!["new", "source_changed"]);

    let manual = plan_merge(&entries, MergeStrategy::Manual);
    assert!(!manual.completed);
    assert!(manual.copy_keys.is_empty());

    let clean = plan_merge(&vec![kv("a", false, None, Some(b"x"), None)], MergeStrategy::Manual);
    assert!(clean.completed);
    assert_eq!(clean.copy_keys, vec!["a"]);
}

#[test]
fn branch_registry_ids_and_names() {
    let mut reg = BranchRegistry::new();
    let id = reg.next_id();
    let id2 = reg.next_id();
    assert_eq!(id2, id + 1);
    reg.add_branch(id, "dev".to_string());
    assert!(reg.contains(id));
    assert_eq!(reg.get_name(id), Some("dev"));
    reg.remove_branch(id);
    assert!(!reg.contains(id));
    assert_eq!(reg.get_name(id), None);
}

fn branch_meta(name: &str, branch_id: u64, parent_id: Option<u64>, created_from_snapshot: u64) -> BranchMetadata {
    BranchMetadata {
        name: name.to_string(),
        branch_id,
        parent_id,
        created_at: created_from_snapshot,
        created_from_snapshot,
        state: BranchState::Active,
        merge_base: None,
        options: BranchOptions::default(),
        stats: BranchStats::default(),
    }
}

#[test]
fn test_parent_chain() {
    // Hierarchy: main -> dev -> feature
    let dev_id = 2;
    let feature_id = 3;
    let branches = vec![
        branch_meta("main", 1, None, 0),
        branch_meta("dev", dev_id, Some(1), 100),
        branch_meta("feature", feature_id, Some(dev_id), 200),
    ];

    // Build parent chain for feature
    let chain = build_parent_chain(&branches, feature_id).unwrap();

    assert_eq!(chain.len(), 2); // dev, main
    assert_eq!(chain[0].0, dev_id);
    assert_eq!(chain[1].0, 1); // main
}

#[test]
fn test_find_merge_base() {
    // Two branches created from main at snapshot 100
    let dev_id = 2;
    let staging_id = 3;
    let branches = vec![
        branch_meta("main", 1, None, 0),
        branch_meta("dev", dev_id, Some(1), 100),
        branch_meta("staging", staging_id, Some(1), 100),
    ];
    let dev_chain = build_parent_chain(&branches, dev_id).unwrap();
    let staging_chain = build_parent_chain(&branches, staging_id).unwrap();

    // Find merge base (should be snapshot 100)
    let merge_base = find_merge_base(&dev_chain, &staging_chain, 100, 100);
    assert_eq!(merge_base, 100);
}

#[test]
fn parent_chain_of_unknown_branch_fails() {
    let branches = vec![branch_meta("main", 1, None, 0), branch_meta("orphan", 5, Some(9), 10)];
    assert!(build_parent_chain(&branches, 1).unwrap().is_empty());
    match build_parent_chain(&branches, 5) {
        Err(BranchError::Storage(m)) => assert_eq!(m, "Branch ID 9 not found"),
        other => panic!("unexpected {:?}", other),
    }
    assert!(build_parent_chain(&branches, 7).is_err());
}

#[test]
fn branch_reads_fall_back_to_ancestors() {
    let chain = vec![(2u64, 200u64), (1u64, 100u64)];
    let keys = branch_read_keys(3, b"users:1", &chain);
    assert_eq!(keys.len(), 3);
    assert_eq!(keys[0], encode_branch_data_key(3, "users:1", 0));
    assert_eq!(keys[1], encode_branch_data_key(2, "users:1", 0));
    assert_eq!(keys[2], b"users:1".to_vec());
}

#[test]
fn test_merge_updates_branch_state() {
    // Create and merge feature branch into main
    let mut main = branch_meta("main", 1, None, 0);
    let mut feature = branch_meta("feature", 2, Some(1), 100);
    check_merge("feature", feature.state, "main", main.state).unwrap();
    record_merge(&mut feature, &mut main, 101);

    // Verify feature branch is marked as merged
    match feature.state {
        BranchState::Merged { into_branch, .. } => {
            assert_eq!(into_branch, 1); // main branch ID
        }
        _ => panic!("Expected branch to be in Merged state"),
    }
    assert_eq!(main.merge_base, Some(101));
}

#[test]
fn test_cannot_merge_inactive_branch() {
    // A dropped branch
    let mut temp = branch_meta("temp", 2, Some(1), 100);
    temp.state = BranchState::Dropped { at_timestamp: 5 };
    let main = branch_meta("main", 1, None, 0);

    // Try to merge dropped branch
    let result = check_merge("temp", temp.state, "main", main.state);

    assert!(result.is_err());
}

#[test]
fn merge_refusals_name_the_branch() {
    let merged = BranchState::Merged { into_branch: 1, at_timestamp: 3 };
    match check_merge("a", merged, "b", BranchState::Active) {
        Err(BranchError::Merge(m)) => assert_eq!(m, "Source branch 'a' is not active"),
        other => panic!("unexpected {:?}", other),
    }
    match check_merge("a", BranchState::Active, "b", merged) {
        Err(BranchError::Merge(m)) => assert_eq!(m, "Target branch 'b' is not active"),
        other => panic!("unexpected {:?}", other),
    }
}

#[test]
fn test_drop_branch() {
    // Create and drop branch
    let mut temp = branch_meta("temp", 2, Some(1), 100);
    assert!(matches!(check_drop("temp", true, false, false, 0), Ok(true)));
    record_drop(&mut temp, 7);

    // Verify branch is dropped; its metadata is kept
    assert_eq!(temp.name, "temp");
    assert!(matches!(temp.state, BranchState::Dropped { .. }));
}

#[test]
fn test_cannot_drop_main() {
    let result = check_drop("main", true, false, true, 0);
    assert!(result.is_err());
}

#[test]
fn test_cannot_drop_with_children() {
    // parent has one child branch
    let result = check_drop("parent", true, false, false, 1);
    assert!(result.is_err());
}
