use analyzer::cfg::{extract_cfg, BlockData};

fn block(is_cleanup: bool, statement_count: usize, successors: Vec<usize>) -> BlockData {
    BlockData { is_cleanup, statement_count, successors }
}

#[test]
fn cleanup_blocks_are_dropped_and_edges_deduplicated() {
    // 0 -> 1, 0 -> 2 (cleanup), 1 -> 3, 1 -> 3 again, 2 -> 3, 3 -> 1
    let body = vec![
        block(false, 2, vec![1, 2]),
        block(false, 1, vec![3, 3]),
        block(true, 5, vec![3]),
        block(false, 4, vec![1]),
    ];
    let cfg = extract_cfg(&body);
    assert_eq!(cfg.blocks, 3);
    assert_eq!(cfg.stmt_count, 7);
    assert_eq!(cfg.edges, vec![(0, 1), (1, 2), (2, 1)]);
}

#[test]
fn empty_body() {
    let cfg = extract_cfg(&Vec::new());
    assert_eq!(cfg.blocks, 0);
    assert_eq!(cfg.stmt_count, 0);
    assert!(cfg.edges.is_empty());
}

#[test]
fn self_jump_is_kept() {
    let body = vec![block(true, 9, vec![1]), block(false, 0, vec![1, 1])];
    let cfg = extract_cfg(&body);
    assert_eq!(cfg.blocks, 1);
    assert_eq!(cfg.stmt_count, 0);
    assert_eq!(cfg.edges, vec![(0, 0)]);
}
