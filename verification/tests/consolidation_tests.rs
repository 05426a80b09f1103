use heliosdb_lite::consolidation::{pick_round, push_history, HISTORY_LIMIT};

fn names(v: &[&str]) -> Vec<String> {
    v.iter().map(|s| s.to_string()).collect()
}

#[test]
fn round_takes_free_tables_up_to_the_limit() {
    let needing = names(&["a", "b", "c", "d"]);
    assert_eq!(pick_round(&needing, 3, &names(&["b"])), names(&["a", "c"]));
    assert_eq!(pick_round(&needing, 10, &names(&[])), needing);
    assert!(pick_round(&needing, 0, &names(&[])).is_empty());
    assert_eq!(pick_round(&names(&["a", "a", "b"]), 3, &names(&[])), names(&["a", "b"]));
}

#[test]
fn history_keeps_the_newest() {
    let mut h: Vec<u32> = Vec::new();
    for i in 0..(HISTORY_LIMIT as u32 + 5) {
        push_history(&mut h, i);
    }
    assert_eq!(h.len(), HISTORY_LIMIT);
    assert_eq!(h[0], 5);
    assert_eq!(*h.last().unwrap(), HISTORY_LIMIT as u32 + 4);
}
