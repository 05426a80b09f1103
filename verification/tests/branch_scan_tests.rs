use heliosdb_lite::branch_scan::{branch_aware_data_key, branch_scan_rows, delete_marker_key, scan_chain, RowSource};

fn src(row_id: u64, layer: Option<usize>, index: usize) -> RowSource {
    RowSource { row_id, layer, index }
}

#[test]
fn branch_scan_layers_and_deletes() {
    // main has rows 3, 1, 2; the parent branch rewrites 2 and adds 4 and
    // deletes 3; the child rewrites 4
    let main = [3u64, 1, 2];
    let rows = vec![vec![2u64, 4], vec![4u64]];
    let deletes = vec![vec![3u64], vec![]];
    let r = branch_scan_rows(&main, &rows, &deletes);
    assert_eq!(r, vec![src(1, None, 1), src(2, Some(0), 0), src(4, Some(1), 0)]);
}

#[test]
fn branch_scan_delete_hides_later_writes() {
    // a row deleted by the parent stays hidden even where the child writes it
    let main = [1u64, 5];
    let rows = vec![vec![], vec![5u64]];
    let deletes = vec![vec![5u64], vec![]];
    let r = branch_scan_rows(&main, &rows, &deletes);
    assert_eq!(r, vec![src(1, None, 0)]);
}

#[test]
fn branch_scan_of_main_only() {
    let r = branch_scan_rows(&[9u64, 7, 9], &vec![], &vec![]);
    assert_eq!(r, vec![src(7, None, 1), src(9, None, 2)]);
}

#[test]
fn scan_chain_runs_root_first() {
    // feature (3) -> dev (2) -> main (1)
    assert_eq!(scan_chain(&vec![(2, 200), (1, 100)], 3), vec![1, 2, 3]);
    assert_eq!(scan_chain(&vec![(0, 5)], 4), vec![4]);
    assert_eq!(scan_chain(&vec![], 1), vec![1]);
}

#[test]
fn branch_row_keys() {
    assert_eq!(branch_aware_data_key(Some(3), "users", 42), b"bdata:3:users:42".to_vec());
    assert_eq!(branch_aware_data_key(None, "users", 42), b"data:users:42".to_vec());
    assert_eq!(delete_marker_key(3, "users", 7), b"bdel:3:users:7".to_vec());
}
