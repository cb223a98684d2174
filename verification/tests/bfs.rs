use graphs::bfs::Graph;
use graphs::error::GraphError;

/// Adds the edge between `u` and `v` once each way.
fn add_both(g: &mut Graph, u: usize, v: usize) {
    g.add_edge(u, v).unwrap();
    g.add_edge(v, u).unwrap();
}

#[test]
fn test_new_graph() {
    let g = Graph::new(5);
    assert_eq!(g.vertices, 5);
    assert_eq!(g.edges.len(), 5);
}

#[test]
fn test_add_edge() {
    let mut g = Graph::new(5);
    add_both(&mut g, 0, 1);
    add_both(&mut g, 0, 2);
    add_both(&mut g, 1, 3);
    add_both(&mut g, 2, 4);
    let visited = g.b_fs(0).unwrap();

    let expected = vec![0, 1, 2, 3, 4];
    assert_eq!(visited, expected);
    assert!(visited.contains(&0));
    assert!(visited.contains(&1));
    assert!(visited.contains(&2));
    assert!(visited.contains(&3));
    assert!(visited.contains(&4));
    assert_eq!(visited.len(), 5);
}

#[test]
fn test_bfs() {
    let mut g = Graph::new(5);

    add_both(&mut g, 0, 1);
    add_both(&mut g, 0, 2);
    add_both(&mut g, 1, 2);
    add_both(&mut g, 2, 0);
    add_both(&mut g, 2, 3);
    add_both(&mut g, 3, 3);

    let visited = g.b_fs(2).unwrap();

    let expected = vec![2, 0, 1, 3];
    assert_eq!(visited, expected);
    assert!(visited.contains(&0));
    assert!(visited.contains(&1));
    assert!(visited.contains(&2));
    assert!(visited.contains(&3));
    assert_eq!(visited.len(), 4);
}

#[test]
fn bfs_add_edge_is_directed_and_keeps_order() {
    let mut g = Graph::new(3);
    g.add_edge(0, 2).unwrap();
    g.add_edge(0, 1).unwrap();
    g.add_edge(1, 1).unwrap();
    assert_eq!(g.edges, vec![vec![2, 1], vec![1], vec![]]);
    assert_eq!(g.vertices, 3);
}

#[test]
fn bfs_add_edge_keeps_parallel_edges_and_stores_a_self_loop_once() {
    let mut g = Graph::new(2);
    g.add_edge(0, 1).unwrap();
    g.add_edge(0, 1).unwrap();
    g.add_edge(1, 1).unwrap();
    assert_eq!(g.edges, vec![vec![1, 1], vec![1]]);
}

#[test]
fn bfs_does_not_go_against_an_edge() {
    let mut g = Graph::new(3);
    g.add_edge(0, 1).unwrap();
    g.add_edge(2, 1).unwrap();
    assert_eq!(g.b_fs(0), Ok(vec![0, 1]));
    assert_eq!(g.b_fs(1), Ok(vec![1]));
    assert_eq!(g.b_fs(2), Ok(vec![2, 1]));
}

#[test]
fn bfs_add_edge_rejects_unknown_vertex() {
    let mut g = Graph::new(2);
    assert_eq!(g.add_edge(0, 2), Err(GraphError::InvalidVertexIndex));
    assert_eq!(g.add_edge(7, 1), Err(GraphError::InvalidVertexIndex));
    assert_eq!(g.edges, vec![Vec::<usize>::new(), Vec::new()]);
    assert_eq!(g.vertices, 2);
}

#[test]
fn bfs_rejects_unknown_start() {
    let mut g = Graph::new(2);
    g.add_edge(0, 1).unwrap();
    assert_eq!(g.b_fs(2), Err(GraphError::InvalidVertexIndex));
    assert_eq!(Graph::new(0).b_fs(0), Err(GraphError::InvalidVertexIndex));
}

#[test]
fn bfs_rejects_malformed_graph() {
    let g = Graph { edges: vec![vec![3], vec![]], vertices: 2 };
    assert_eq!(g.b_fs(0), Err(GraphError::InvalidVertexIndex));
    let h = Graph { edges: vec![vec![]], vertices: 3 };
    assert_eq!(h.b_fs(0), Err(GraphError::InvalidVertexIndex));
}

#[test]
fn bfs_single_vertex() {
    assert_eq!(Graph::new(1).b_fs(0), Ok(vec![0]));
}

#[test]
fn bfs_visits_level_by_level() {
    // 0 - 1 - 3 - 5, 0 - 2 - 4 - 5: distances 0, 1, 1, 2, 2, 3
    let mut g = Graph::new(7);
    g.add_edge(0, 2).unwrap();
    g.add_edge(0, 1).unwrap();
    g.add_edge(1, 3).unwrap();
    g.add_edge(2, 4).unwrap();
    g.add_edge(4, 5).unwrap();
    g.add_edge(3, 5).unwrap();
    let order = g.b_fs(0).unwrap();
    assert_eq!(order, vec![0, 2, 1, 4, 3, 5]);
    let distance = [0, 1, 1, 2, 2, 3];
    for w in order.windows(2) {
        assert!(distance[w[0]] <= distance[w[1]]);
    }
    assert!(!order.contains(&6));
}

#[test]
fn bfs_follows_insertion_order_not_vertex_order() {
    let mut g = Graph::new(4);
    g.add_edge(0, 3).unwrap();
    g.add_edge(0, 1).unwrap();
    g.add_edge(0, 2).unwrap();
    assert_eq!(g.b_fs(0), Ok(vec![0, 3, 1, 2]));
}

#[test]
fn bfs_repeated_runs_agree() {
    let build = || {
        let mut g = Graph::new(5);
        g.add_edge(0, 4).unwrap();
        g.add_edge(4, 1).unwrap();
        g.add_edge(0, 3).unwrap();
        g.add_edge(3, 2).unwrap();
        g
    };
    let g = build();
    let a = g.b_fs(0);
    assert_eq!(a, g.b_fs(0));
    assert_eq!(a, build().b_fs(0));
    assert_eq!(a, Ok(vec![0, 4, 3, 1, 2]));
}

#[test]
fn bfs_add_edges_adds_each_pair_both_ways() {
    let g = graphs::bfs::add_edges(3, &vec![(0, 1), (2, 1)]).unwrap();
    assert_eq!(g.vertices, 3);
    assert_eq!(g.edges, vec![vec![1], vec![0, 2], vec![1]]);
}

#[test]
fn bfs_add_edges_rejects_unknown_vertex() {
    assert!(matches!(
        graphs::bfs::add_edges(2, &vec![(0, 1), (1, 2)]),
        Err(GraphError::InvalidVertexIndex)
    ));
    assert!(matches!(
        graphs::bfs::add_edges(0, &vec![(0, 0)]),
        Err(GraphError::InvalidVertexIndex)
    ));
}

#[test]
fn bfs_from_pairs() {
    let pairs = vec![(0, 1), (0, 2), (0, 3), (2, 1), (2, 4)];
    assert_eq!(graphs::bfs::bfs(5, &pairs, 0), Ok(vec![0, 1, 2, 3, 4]));
    assert_eq!(graphs::bfs::bfs(5, &pairs, 4), Ok(vec![4, 2, 0, 1, 3]));
    assert_eq!(graphs::bfs::bfs(5, &pairs, 5), Err(GraphError::InvalidVertexIndex));
    assert_eq!(graphs::bfs::bfs(4, &pairs, 0), Err(GraphError::InvalidVertexIndex));
    assert_eq!(graphs::bfs::bfs(5, &pairs, 0), graphs::bfs::bfs(5, &pairs, 0));
}
