use graphs::dfs::Graph;
use graphs::error::GraphError;
use std::collections::HashSet;

#[test]
fn test_dfs() {
    let mut g = Graph::new(4);
    g.add_edge(0, 1).unwrap();
    g.add_edge(0, 2).unwrap();
    g.add_edge(1, 2).unwrap();
    g.add_edge(2, 0).unwrap();
    g.add_edge(2, 3).unwrap();
    g.add_edge(3, 3).unwrap();

    let mut visited = HashSet::new();
    let x = g.d_fs(2, &mut visited).unwrap();
    let expected = vec![2, 0, 1, 3];
    assert_eq!(x, expected);
    assert!(visited.contains(&0));
    assert!(visited.contains(&1));
    assert!(visited.contains(&2));
    assert!(visited.contains(&3));
    assert_eq!(visited.len(), 4);
}

#[test]
fn test_dfs1() {
    let mut g = Graph::new(5);
    g.add_edge(0, 1).unwrap();
    g.add_edge(0, 2).unwrap();
    g.add_edge(1, 3).unwrap();
    g.add_edge(2, 4).unwrap();

    let mut visited = HashSet::new();
    let x = g.d_fs(0, &mut visited).unwrap();
    let expected = vec![0, 1, 3, 2, 4];
    assert_eq!(x, expected);
    assert!(visited.contains(&0));
    assert!(visited.contains(&1));
    assert!(visited.contains(&2));
    assert!(visited.contains(&3));
    assert!(visited.contains(&4));
    assert_eq!(visited.len(), 5);
}

#[test]
fn dfs_new_graph_has_empty_lists() {
    let g = Graph::new(3);
    assert_eq!(g.vertices, 3);
    assert_eq!(g.edges, vec![Vec::<usize>::new(), Vec::new(), Vec::new()]);
}

#[test]
fn dfs_add_edge_is_directed_and_keeps_order() {
    let mut g = Graph::new(3);
    g.add_edge(0, 2).unwrap();
    g.add_edge(0, 1).unwrap();
    g.add_edge(0, 2).unwrap();
    g.add_edge(1, 1).unwrap();
    assert_eq!(g.edges, vec![vec![2, 1, 2], vec![1], vec![]]);
}

#[test]
fn dfs_add_edge_rejects_unknown_vertex() {
    let mut g = Graph::new(2);
    assert_eq!(g.add_edge(0, 2), Err(GraphError::InvalidVertexIndex));
    assert_eq!(g.add_edge(2, 0), Err(GraphError::InvalidVertexIndex));
    assert_eq!(g.edges, vec![Vec::<usize>::new(), Vec::new()]);
}

#[test]
fn dfs_rejects_unknown_start() {
    let mut g = Graph::new(2);
    g.add_edge(0, 1).unwrap();
    let mut visited = HashSet::new();
    assert_eq!(g.d_fs(2, &mut visited), Err(GraphError::InvalidVertexIndex));
    assert!(visited.is_empty());
    let empty = Graph::new(0);
    assert_eq!(empty.d_fs(0, &mut visited), Err(GraphError::InvalidVertexIndex));
}

#[test]
fn dfs_rejects_malformed_graph() {
    let g = Graph { edges: vec![vec![5]], vertices: 1 };
    let mut visited = HashSet::new();
    assert_eq!(g.d_fs(0, &mut visited), Err(GraphError::InvalidVertexIndex));
    let h = Graph { edges: vec![vec![]], vertices: 2 };
    assert_eq!(h.d_fs(0, &mut visited), Err(GraphError::InvalidVertexIndex));
}

#[test]
fn dfs_leaves_out_what_is_not_reached() {
    let mut g = Graph::new(4);
    g.add_edge(0, 1).unwrap();
    g.add_edge(2, 3).unwrap();
    let mut visited = HashSet::new();
    assert_eq!(g.d_fs(0, &mut visited), Ok(vec![0, 1]));
    assert!(!visited.contains(&2));
}

#[test]
fn dfs_skips_what_was_visited_before() {
    let mut g = Graph::new(4);
    g.add_edge(0, 1).unwrap();
    g.add_edge(0, 2).unwrap();
    g.add_edge(1, 3).unwrap();
    let mut visited = HashSet::new();
    visited.insert(1);
    visited.insert(0);
    visited.insert(9);
    assert_eq!(g.d_fs(0, &mut visited), Ok(vec![0, 2]));
    assert_eq!(visited.len(), 4);
}

#[test]
fn dfs_follows_insertion_order_not_vertex_order() {
    let mut g = Graph::new(4);
    g.add_edge(0, 3).unwrap();
    g.add_edge(0, 1).unwrap();
    g.add_edge(3, 2).unwrap();
    g.add_edge(1, 2).unwrap();
    let mut visited = HashSet::new();
    assert_eq!(g.d_fs(0, &mut visited), Ok(vec![0, 3, 2, 1]));
}

#[test]
fn dfs_repeated_runs_agree() {
    let mut g = Graph::new(4);
    g.add_edge(0, 1).unwrap();
    g.add_edge(0, 2).unwrap();
    g.add_edge(2, 3).unwrap();
    g.add_edge(3, 0).unwrap();
    let a = g.d_fs(0, &mut HashSet::new());
    let b = g.d_fs(0, &mut HashSet::new());
    assert_eq!(a, b);
    assert_eq!(a, Ok(vec![0, 1, 2, 3]));
}

#[test]
fn dfs_long_path_does_not_exhaust_the_stack() {
    let n = 200_000usize;
    let mut g = Graph::new(n);
    for v in 0..n - 1 {
        g.add_edge(v, v + 1).unwrap();
    }
    let order = g.d_fs(0, &mut HashSet::new()).unwrap();
    assert_eq!(order.len(), n);
    assert_eq!(order[n - 1], n - 1);
}

#[test]
fn dfs_add_edges_adds_each_pair_both_ways() {
    let g = graphs::dfs::add_edges(3, &vec![(0, 1), (2, 1)]).unwrap();
    assert_eq!(g.vertices, 3);
    assert_eq!(g.edges, vec![vec![1], vec![0, 2], vec![1]]);
}

#[test]
fn dfs_add_edges_rejects_unknown_vertex() {
    assert!(matches!(
        graphs::dfs::add_edges(2, &vec![(0, 1), (2, 1)]),
        Err(GraphError::InvalidVertexIndex)
    ));
}

#[test]
fn dfs_from_pairs() {
    let pairs = vec![(0, 1), (0, 2), (0, 3), (2, 1), (2, 4)];
    assert_eq!(graphs::dfs::dfs(5, &pairs, 0), Ok(vec![0, 1, 2, 4, 3]));
    assert_eq!(graphs::dfs::dfs(5, &pairs, 5), Err(GraphError::InvalidVertexIndex));
    assert_eq!(graphs::dfs::dfs(4, &pairs, 0), Err(GraphError::InvalidVertexIndex));
    assert_eq!(graphs::dfs::dfs(5, &pairs, 3), graphs::dfs::dfs(5, &pairs, 3));
}

#[test]
fn dfs_listing_the_start_again_explores_from_it() {
    // the start counts as not visited even if the set holds it
    let mut g = Graph::new(3);
    g.add_edge(0, 1).unwrap();
    g.add_edge(1, 0).unwrap();
    g.add_edge(1, 2).unwrap();
    let mut visited = HashSet::new();
    visited.insert(1);
    assert_eq!(g.d_fs(1, &mut visited), Ok(vec![1, 0, 2]));
}
