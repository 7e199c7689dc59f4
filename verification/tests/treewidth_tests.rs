use analyzer::graph::Graph;
use analyzer::treewidth::{self, native, scan, Solver};

fn g(n: usize, edges: &[(usize, usize)]) -> Graph {
    Graph::from_edges(n, edges)
}

/// Both elimination drivers, and the crate-level entry points.
fn both(graph: &Graph) -> u32 {
    let heap = native::compute(graph);
    let scanned = scan::compute(graph);
    assert_eq!(heap, scanned);
    assert_eq!(treewidth::compute(graph), heap);
    assert_eq!(Solver::Native.compute(graph), scanned);
    heap
}

#[test]
fn native_empty_and_trivial() {
    assert_eq!(both(&g(0, &[])), 0);
    assert_eq!(both(&g(1, &[])), 0);
    assert_eq!(both(&g(5, &[])), 0);
}

#[test]
fn native_path_tw1() {
    assert_eq!(both(&g(4, &[(0, 1), (1, 2), (2, 3)])), 1);
}

#[test]
fn native_tree_tw1() {
    assert_eq!(both(&g(5, &[(0, 1), (0, 2), (0, 3), (3, 4)])), 1);
}

#[test]
fn native_cycle_c4_tw2() {
    assert_eq!(both(&g(4, &[(0, 1), (1, 2), (2, 3), (3, 0)])), 2);
}

#[test]
fn native_complete_k4_tw3() {
    assert_eq!(
        both(&g(4, &[(0, 1), (0, 2), (0, 3), (1, 2), (1, 3), (2, 3)])),
        3
    );
}

#[test]
fn reference_graphs() {
    assert_eq!(both(&g(6, &[(0, 1), (1, 2), (2, 0), (2, 3), (3, 4), (4, 5)])), 2);
    assert_eq!(both(&g(6, &[(0, 1), (1, 2), (2, 3), (3, 4), (4, 5), (5, 0)])), 2);
    assert_eq!(both(&g(5, &[(0, 1), (0, 2), (0, 3), (0, 4), (1, 2), (2, 3)])), 2);
}

#[test]
fn forests_have_width_one() {
    // A star, a path and an isolated vertex side by side.
    let forest = g(10, &[(0, 1), (0, 2), (0, 3), (4, 5), (5, 6), (6, 7), (7, 8)]);
    assert_eq!(both(&forest), 1);
    // A caterpillar: a spine with legs.
    let caterpillar = g(9, &[(0, 1), (1, 2), (2, 3), (0, 4), (1, 5), (1, 6), (2, 7), (3, 8)]);
    assert_eq!(both(&caterpillar), 1);
}

#[test]
fn complete_graphs_have_width_n_minus_one() {
    for n in 1..8usize {
        let mut edges = Vec::new();
        for u in 0..n {
            for v in (u + 1)..n {
                edges.push((v, u));
            }
        }
        assert_eq!(both(&g(n, &edges)) as usize, n - 1);
    }
}

#[test]
fn cycles_have_width_two() {
    for n in 3..9usize {
        let edges: Vec<(usize, usize)> = (0..n).map(|u| (u, (u + 1) % n)).collect();
        assert_eq!(both(&g(n, &edges)), 2);
    }
    // Two cycles and a path side by side.
    let mixed = g(11, &[(0, 1), (1, 2), (2, 0), (3, 4), (4, 5), (5, 6), (6, 3), (7, 8), (8, 9), (9, 10)]);
    assert_eq!(both(&mixed), 2);
}

#[test]
fn result_depends_only_on_edges() {
    let edges = [(0, 1), (1, 2), (2, 3), (3, 0), (0, 2), (3, 4), (4, 5), (5, 6), (6, 4), (1, 5)];
    let base = g(7, &edges);
    // Reordered, reversed, repeated, with self-loops and out-of-range ends.
    let mut shuffled: Vec<(usize, usize)> = edges.iter().rev().map(|&(u, v)| (v, u)).collect();
    shuffled.push((2, 2));
    shuffled.push((1, 9));
    shuffled.push((0, 1));
    let other = g(7, &shuffled);
    assert_eq!(native::compute(&base), native::compute(&other));
    assert_eq!(scan::compute(&base), scan::compute(&other));
}

#[test]
fn zero_exactly_without_edges() {
    // Isolated vertices around one edge still give width 1.
    assert_eq!(both(&g(6, &[(2, 4)])), 1);
    // Self-loops and out-of-range ends leave no edge.
    assert_eq!(both(&g(3, &[(1, 1), (0, 5)])), 0);
}

#[test]
fn width_below_vertex_count() {
    // The complete graph on five vertices reaches the bound n - 1.
    let mut edges = Vec::new();
    for u in 0..5 {
        for v in (u + 1)..5 {
            edges.push((u, v));
        }
    }
    assert_eq!(both(&g(5, &edges)), 4);
}

#[test]
fn grid_three_by_three() {
    let mut edges = Vec::new();
    for r in 0..3 {
        for c in 0..3 {
            let v = r * 3 + c;
            if c < 2 {
                edges.push((v, v + 1));
            }
            if r < 2 {
                edges.push((v, v + 3));
            }
        }
    }
    assert_eq!(both(&g(9, &edges)), 3);
}

/// Cross-checks the heuristics against the FlowCutter oracle. A build
/// without the oracle must report it unavailable on every graph instead.
#[test]
fn matches_flowcutter_oracle_on_reference_graphs() {
    let available = treewidth::ensure_oracle_available().is_ok();
    let graphs = [
        g(4, &[(0, 1), (1, 2), (2, 3)]),
        g(4, &[(0, 1), (1, 2), (2, 3), (3, 0)]),
        g(5, &[(0, 1), (0, 2), (0, 3), (3, 4)]),
        g(6, &[(0, 1), (1, 2), (2, 0), (2, 3), (3, 4), (4, 5)]),
        g(6, &[(0, 1), (1, 2), (2, 3), (3, 4), (4, 5), (5, 0)]),
        g(5, &[(0, 1), (0, 2), (0, 3), (0, 4), (1, 2), (2, 3)]),
    ];

    for graph in graphs {
        let native = native::compute(&graph);
        match treewidth::compute_oracle(&graph) {
            Ok(oracle) => {
                assert!(available, "oracle should succeed only when it is available");
                assert_eq!(native, oracle);
            }
            Err(treewidth::TwError::OracleUnavailable(_)) => assert!(!available, "oracle should succeed"),
            Err(_) => panic!("oracle should succeed"),
        }
    }
}
