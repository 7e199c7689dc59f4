use analyzer::graph::Graph;

#[test]
fn self_loops_ignored() {
    let g = Graph::from_edges(3, &[(0, 0), (0, 1), (1, 2)]);
    assert_eq!(g.edge_count(), 2);
}

#[test]
fn duplicate_edges_ignored() {
    let g = Graph::from_edges(3, &[(0, 1), (0, 1), (1, 2)]);
    assert_eq!(g.edge_count(), 2);
}

#[test]
fn reversed_duplicate_and_out_of_range_edges_ignored() {
    let g = Graph::from_edges(3, &[(0, 1), (1, 0), (2, 7), (9, 1), (2, 1)]);
    assert_eq!(g.edge_count(), 2);
    assert_eq!(g.adj[0], vec![1]);
    assert_eq!(g.adj[1], vec![0, 2]);
    assert_eq!(g.adj[2], vec![1]);
}

#[test]
fn new_graph_has_no_edges() {
    let g = Graph::new(4);
    assert_eq!(g.n, 4);
    assert_eq!(g.adj.len(), 4);
    assert_eq!(g.edge_count(), 0);
}

#[test]
fn edges_are_listed_at_both_ends() {
    let g = Graph::from_edges(4, &[(3, 0), (1, 2)]);
    assert_eq!(g.adj[0], vec![3]);
    assert_eq!(g.adj[3], vec![0]);
    assert_eq!(g.adj[1], vec![2]);
    assert_eq!(g.adj[2], vec![1]);
    assert_eq!(g.edge_count(), 2);
}

#[test]
fn neighbours_listed_in_order_of_first_mention() {
    let g = Graph::from_edges(4, &[(2, 1), (1, 3), (0, 1), (3, 1)]);
    assert_eq!(g.adj[1], vec![2, 3, 0]);
    assert_eq!(g.adj[3], vec![1]);
    assert_eq!(g.edge_count(), 3);
}
