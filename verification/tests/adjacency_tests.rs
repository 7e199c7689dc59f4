use analyzer::graph::Graph;
use analyzer::treewidth::adjacency::{
    contract, degree_key, fill_count, shortcut_key, sorted_adj, sorted_contains, sorted_union,
};

#[test]
fn union_merges_and_excludes() {
    assert_eq!(sorted_union(&vec![1, 3, 5], &vec![2, 3, 6], 6, 1), vec![2, 3, 5]);
    assert_eq!(sorted_union(&vec![], &vec![4], 0, 0), vec![4]);
    assert_eq!(sorted_union(&vec![7], &vec![], 7, 7), Vec::<usize>::new());
}

#[test]
fn binary_search_finds_members() {
    let list = vec![0, 2, 4, 8, 16];
    for x in 0..20 {
        assert_eq!(sorted_contains(&list, x), list.contains(&x));
    }
    assert!(!sorted_contains(&vec![], 3));
}

#[test]
fn adjacency_is_sorted() {
    let g = Graph::from_edges(4, &[(0, 3), (0, 1), (2, 0)]);
    assert_eq!(g.adj[0], vec![3, 1, 2]);
    let adj = sorted_adj(&g);
    assert_eq!(adj[0], vec![1, 2, 3]);
    assert_eq!(adj[3], vec![0]);
}

#[test]
fn fill_in_of_a_star_centre() {
    let g = Graph::from_edges(4, &[(0, 1), (0, 2), (0, 3), (1, 2)]);
    let adj = sorted_adj(&g);
    // Neighbours 1, 2, 3 of vertex 0: only 1-2 is an edge, so 1-3 and 2-3 are missing.
    assert_eq!(fill_count(0, &adj), 2);
    assert_eq!(shortcut_key(0, &adj), 203);
    assert_eq!(degree_key(0, &adj), 3);
    assert_eq!(fill_count(3, &adj), 0);
}

#[test]
fn contracting_joins_the_neighbours() {
    let g = Graph::from_edges(4, &[(0, 1), (1, 2), (1, 3), (2, 3)]);
    let mut adj = sorted_adj(&g);
    let nb = contract(&mut adj, 1);
    assert_eq!(nb, vec![0, 2, 3]);
    assert_eq!(adj[1], Vec::<usize>::new());
    assert_eq!(adj[0], vec![2, 3]);
    assert_eq!(adj[2], vec![0, 3]);
    assert_eq!(adj[3], vec![0, 2]);
}

#[test]
fn merging_is_symmetric() {
    let a = vec![0, 2, 5, 7, 9];
    let b = vec![1, 2, 3, 7, 11];
    let ab = sorted_union(&a, &b, 3, 9);
    assert_eq!(ab, vec![0, 1, 2, 5, 7, 11]);
    assert_eq!(sorted_union(&b, &a, 9, 3), ab);
    assert_eq!(sorted_union(&b, &a, 3, 9), ab);
}
