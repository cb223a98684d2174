use graphs::dijkstras::Graph;
use graphs::error::GraphError;
use graphs::frontier::{Frontier, Node};

/// Adds the edge of weight `w` between `u` and `v` once each way.
fn add_both(g: &mut Graph, u: usize, v: usize, w: i32) {
    g.add_edge(u, v, w).unwrap();
    g.add_edge(v, u, w).unwrap();
}

#[test]
fn test_dijkstra() {
    let mut g = Graph::new(5);
    add_both(&mut g, 0, 1, 10);
    add_both(&mut g, 0, 2, 5);
    add_both(&mut g, 1, 3, 1);
    add_both(&mut g, 2, 1, 3);
    add_both(&mut g, 2, 3, 8);
    add_both(&mut g, 2, 4, 2);
    add_both(&mut g, 3, 4, 4);
    let dist = g.dijkstra(0).unwrap();
    assert_eq!(dist, vec![0, 8, 5, 9, 7]);
}

#[test]
fn test_empty_graph() {
    let g = Graph::new(0);
    assert_eq!(g.dijkstra(0), Err(GraphError::InvalidVertexIndex));
}

#[test]
fn test_single_vertex() {
    let g = Graph::new(1);
    let dist = g.dijkstra(0).unwrap();
    assert_eq!(dist, vec![0]);
}

#[test]
fn test_disconnected_graph() {
    let mut g = Graph::new(5);
    add_both(&mut g, 0, 1, 10);
    add_both(&mut g, 0, 2, 5);
    add_both(&mut g, 3, 4, 4);
    let dist = g.dijkstra(0).unwrap();
    assert_eq!(dist, vec![0, 10, 5, i32::max_value(), i32::max_value()]);
}

#[test]
fn dijkstra_rejects_unknown_source() {
    let mut g = Graph::new(3);
    g.add_edge(0, 1, 1).unwrap();
    assert_eq!(g.dijkstra(3), Err(GraphError::InvalidVertexIndex));
    assert_eq!(g.dijkstra(usize::MAX), Err(GraphError::InvalidVertexIndex));
}

#[test]
fn dijkstra_add_edge_rejects_unknown_vertex() {
    let mut g = Graph::new(3);
    assert_eq!(g.add_edge(0, 3, 1), Err(GraphError::InvalidVertexIndex));
    assert_eq!(g.add_edge(3, 0, 1), Err(GraphError::InvalidVertexIndex));
    assert_eq!(g.vertices(), 3);
    // nothing was added: every other vertex is still out of reach
    assert_eq!(g.dijkstra(0), Ok(vec![0, i32::MAX, i32::MAX]));
}

#[test]
fn dijkstra_edges_are_directed() {
    let mut g = Graph::new(3);
    g.add_edge(2, 1, 4).unwrap();
    g.add_edge(1, 0, 6).unwrap();
    assert_eq!(g.dijkstra(0), Ok(vec![0, i32::MAX, i32::MAX]));
    assert_eq!(g.dijkstra(1), Ok(vec![6, 0, i32::MAX]));
    assert_eq!(g.dijkstra(2), Ok(vec![10, 4, 0]));
}

#[test]
fn dijkstra_one_way_edge_is_not_walked_back() {
    let mut g = Graph::new(2);
    g.add_edge(0, 1, 5).unwrap();
    assert_eq!(g.dijkstra(0), Ok(vec![0, 5]));
    assert_eq!(g.dijkstra(1), Ok(vec![i32::MAX, 0]));
}

#[test]
fn dijkstra_edges_added_both_ways_are_walked_both_ways() {
    let mut g = Graph::new(3);
    add_both(&mut g, 2, 1, 4);
    add_both(&mut g, 1, 0, 6);
    assert_eq!(g.dijkstra(0), Ok(vec![0, 6, 10]));
    assert_eq!(g.dijkstra(2), Ok(vec![10, 4, 0]));
}

#[test]
fn dijkstra_parallel_edges_and_self_loops() {
    let mut g = Graph::new(2);
    g.add_edge(0, 1, 9).unwrap();
    g.add_edge(0, 1, 2).unwrap();
    g.add_edge(0, 1, 5).unwrap();
    g.add_edge(1, 1, 1).unwrap();
    g.add_edge(0, 0, 0).unwrap();
    assert_eq!(g.dijkstra(0), Ok(vec![0, 2]));
}

#[test]
fn dijkstra_zero_weights() {
    let mut g = Graph::new(4);
    g.add_edge(0, 1, 0).unwrap();
    g.add_edge(1, 2, 0).unwrap();
    g.add_edge(2, 3, 7).unwrap();
    assert_eq!(g.dijkstra(0), Ok(vec![0, 0, 0, 7]));
}

#[test]
fn dijkstra_distance_as_large_as_the_sentinel_counts_as_unreached() {
    let mut g = Graph::new(4);
    g.add_edge(0, 1, i32::MAX - 1).unwrap();
    g.add_edge(1, 2, 1).unwrap();
    g.add_edge(2, 3, 1).unwrap();
    assert_eq!(g.dijkstra(0), Ok(vec![0, i32::MAX - 1, i32::MAX, i32::MAX]));
}

#[test]
fn dijkstra_stale_entries_are_skipped() {
    // vertex 3 is put into the frontier three times, each time nearer
    let mut g = Graph::new(5);
    g.add_edge(0, 3, 10).unwrap();
    g.add_edge(0, 1, 1).unwrap();
    g.add_edge(1, 3, 7).unwrap();
    g.add_edge(1, 2, 1).unwrap();
    g.add_edge(2, 3, 1).unwrap();
    g.add_edge(3, 4, 1).unwrap();
    assert_eq!(g.dijkstra(0), Ok(vec![0, 1, 2, 3, 4]));
}

#[test]
fn dijkstra_reports_overflow_under_negative_weights() {
    let mut g = Graph::new(3);
    g.add_edge(0, 1, i32::MIN).unwrap();
    g.add_edge(1, 2, -1).unwrap();
    assert_eq!(g.dijkstra(0), Err(GraphError::DistanceOverflow));
}

#[test]
fn dijkstra_same_graph_same_result() {
    let build = || {
        let mut g = Graph::new(4);
        g.add_edge(0, 1, 3).unwrap();
        g.add_edge(0, 2, 3).unwrap();
        g.add_edge(1, 3, 3).unwrap();
        g.add_edge(2, 3, 3).unwrap();
        g
    };
    assert_eq!(build().dijkstra(0), build().dijkstra(0));
    assert_eq!(build().dijkstra(0), Ok(vec![0, 3, 3, 6]));
}

#[test]
fn frontier_hands_out_nearest_first() {
    let mut f = Frontier::new();
    assert!(f.is_empty());
    assert_eq!(f.pop(), None);
    let dists = [5, 3, 9, 3, -2, 7, 0, 9, 1];
    for (v, d) in dists.iter().enumerate() {
        f.push(Node { vertex: v, dist: *d });
    }
    assert_eq!(f.len(), 9);
    let mut out = Vec::new();
    while let Some(node) = f.pop() {
        assert_eq!(dists[node.vertex], node.dist);
        out.push(node.dist);
    }
    assert_eq!(out, vec![-2, 0, 1, 3, 3, 5, 7, 9, 9]);
    assert!(f.is_empty());
}

#[test]
fn dijkstras_from_edges() {
    let edges = vec![(0, 1, 10), (0, 2, 5), (3, 4, 4)];
    assert_eq!(
        graphs::dijkstras::dijkstras(5, 0, &edges),
        Ok(vec![0, 10, 5, i32::MAX, i32::MAX])
    );
    assert_eq!(
        graphs::dijkstras::dijkstras(5, 4, &edges),
        Ok(vec![i32::MAX, i32::MAX, i32::MAX, 4, 0])
    );
    assert_eq!(
        graphs::dijkstras::dijkstras(5, 5, &edges),
        Err(GraphError::InvalidVertexIndex)
    );
    assert_eq!(
        graphs::dijkstras::dijkstras(4, 0, &edges),
        Err(GraphError::InvalidVertexIndex)
    );
    assert_eq!(
        graphs::dijkstras::dijkstras(5, 0, &edges),
        graphs::dijkstras::dijkstras(5, 0, &edges)
    );
}

#[test]
fn frontier_breaks_ties_by_vertex() {
    let mut f = Frontier::new();
    for v in [4usize, 1, 3, 0, 2] {
        f.push(Node { vertex: v, dist: 7 });
    }
    f.push(Node { vertex: 9, dist: 6 });
    let mut out = Vec::new();
    while let Some(node) = f.pop() {
        out.push((node.dist, node.vertex));
    }
    assert_eq!(out, vec![(6, 9), (7, 0), (7, 1), (7, 2), (7, 3), (7, 4)]);
}

#[test]
fn sooner_is_nearer_or_as_near_and_lesser() {
    use_sooner(Node { vertex: 5, dist: 1 }, Node { vertex: 0, dist: 2 }, true);
    use_sooner(Node { vertex: 0, dist: 2 }, Node { vertex: 5, dist: 1 }, false);
    use_sooner(Node { vertex: 1, dist: 2 }, Node { vertex: 2, dist: 2 }, true);
    use_sooner(Node { vertex: 2, dist: 2 }, Node { vertex: 1, dist: 2 }, false);
    use_sooner(Node { vertex: 2, dist: 2 }, Node { vertex: 2, dist: 2 }, false);
}

fn use_sooner(a: Node, b: Node, expected: bool) {
    assert_eq!(graphs::frontier::sooner(a, b), expected);
}

#[test]
fn dijkstra_with_a_negative_weight_still_ends() {
    // nothing is promised of the distances here, but the run is the same
    // every time
    let build = || {
        let mut g = Graph::new(3);
        g.add_edge(0, 1, 4).unwrap();
        g.add_edge(1, 2, -2).unwrap();
        g.add_edge(0, 2, 3).unwrap();
        g
    };
    let first = build().dijkstra(0);
    assert!(first.is_ok());
    assert_eq!(first, build().dijkstra(0));
}

#[test]
fn infinity_is_the_greatest_distance() {
    assert_eq!(graphs::weighted::INFINITY, i32::MAX);
}
