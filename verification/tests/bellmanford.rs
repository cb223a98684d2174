use graphs::bellmanford::Graph;
use graphs::error::GraphError;

#[test]
fn test_bellman_ford() {
    let mut g = Graph::new(5);
    g.add_edge(0, 1, 5).unwrap();
    g.add_edge(0, 2, 3).unwrap();
    g.add_edge(1, 2, 2).unwrap();
    g.add_edge(1, 3, 6).unwrap();
    g.add_edge(2, 3, 7).unwrap();
    g.add_edge(3, 4, 1).unwrap();

    let dist = g.bellman_ford(0).unwrap();
    assert_eq!(dist, vec![0, 5, 3, 10, 11]);
}

#[test]
fn test_bellman_ford_edge() {
    let mut g = Graph::new(5);
    g.add_edge(0, 1, -1).unwrap();
    g.add_edge(0, 2, 4).unwrap();
    g.add_edge(1, 2, 3).unwrap();
    g.add_edge(1, 3, 2).unwrap();
    g.add_edge(1, 4, 2).unwrap();
    g.add_edge(3, 2, 5).unwrap();
    g.add_edge(3, 1, 1).unwrap();
    g.add_edge(4, 3, -3).unwrap();

    let dist = g.bellman_ford(0).unwrap();
    assert_eq!(dist, vec![0, -1, 2, -2, 1]);
}

#[test]
fn test_negative_cycle() {
    let mut g = Graph::new(3);
    g.add_edge(0, 1, 1).unwrap();
    g.add_edge(1, 2, -5).unwrap();
    g.add_edge(2, 0, 2).unwrap();

    assert_eq!(g.bellman_ford(0), Err(GraphError::NegativeWeightCycle));
    assert_eq!(
        GraphError::NegativeWeightCycle.message(),
        "Negative weight cycle detected"
    );
}

#[test]
fn bellman_ford_rejects_unknown_source() {
    let mut g = Graph::new(2);
    g.add_edge(0, 1, 1).unwrap();
    assert_eq!(g.bellman_ford(2), Err(GraphError::InvalidVertexIndex));
    assert_eq!(Graph::new(0).bellman_ford(0), Err(GraphError::InvalidVertexIndex));
}

#[test]
fn bellman_ford_add_edge_rejects_unknown_vertex() {
    let mut g = Graph::new(2);
    assert_eq!(g.add_edge(0, 2, 1), Err(GraphError::InvalidVertexIndex));
    assert_eq!(g.add_edge(2, 0, 1), Err(GraphError::InvalidVertexIndex));
    assert_eq!(g.vertices(), 2);
    assert_eq!(g.bellman_ford(0), Ok(vec![0, i32::MAX]));
}

#[test]
fn bellman_ford_edges_are_directed() {
    let mut g = Graph::new(3);
    g.add_edge(1, 0, 4).unwrap();
    g.add_edge(1, 2, 4).unwrap();
    assert_eq!(g.bellman_ford(0), Ok(vec![0, i32::MAX, i32::MAX]));
    assert_eq!(g.bellman_ford(1), Ok(vec![4, 0, 4]));
}

#[test]
fn bellman_ford_single_vertex() {
    assert_eq!(Graph::new(1).bellman_ford(0), Ok(vec![0]));
}

#[test]
fn bellman_ford_negative_cycle_out_of_reach_is_no_error() {
    let mut g = Graph::new(4);
    g.add_edge(0, 1, 2).unwrap();
    g.add_edge(2, 3, -4).unwrap();
    g.add_edge(3, 2, 1).unwrap();
    assert_eq!(g.bellman_ford(0), Ok(vec![0, 2, i32::MAX, i32::MAX]));
    assert_eq!(g.bellman_ford(2), Err(GraphError::NegativeWeightCycle));
}

#[test]
fn bellman_ford_negative_self_loop() {
    let mut g = Graph::new(2);
    g.add_edge(0, 1, 1).unwrap();
    g.add_edge(1, 1, -1).unwrap();
    assert_eq!(g.bellman_ford(0), Err(GraphError::NegativeWeightCycle));
}

#[test]
fn bellman_ford_unreached_start_is_not_relaxed() {
    // the sentinel plus a negative weight must not count as a distance
    let mut g = Graph::new(3);
    g.add_edge(1, 2, -7).unwrap();
    g.add_edge(1, 0, i32::MIN).unwrap();
    assert_eq!(g.bellman_ford(0), Ok(vec![0, i32::MAX, i32::MAX]));
}

#[test]
fn bellman_ford_reports_overflow() {
    let mut g = Graph::new(3);
    g.add_edge(0, 1, i32::MIN).unwrap();
    g.add_edge(1, 2, -1).unwrap();
    assert_eq!(g.bellman_ford(0), Err(GraphError::DistanceOverflow));
}

#[test]
fn bellman_ford_least_distance_is_kept() {
    let mut g = Graph::new(3);
    g.add_edge(0, 1, i32::MIN + 1).unwrap();
    g.add_edge(1, 2, -1).unwrap();
    assert_eq!(g.bellman_ford(0), Ok(vec![0, i32::MIN + 1, i32::MIN]));
}

#[test]
fn bellman_ford_order_of_edges_does_not_change_distances() {
    let mut a = Graph::new(4);
    a.add_edge(2, 3, 1).unwrap();
    a.add_edge(1, 2, 1).unwrap();
    a.add_edge(0, 1, 1).unwrap();
    let mut b = Graph::new(4);
    b.add_edge(0, 1, 1).unwrap();
    b.add_edge(1, 2, 1).unwrap();
    b.add_edge(2, 3, 1).unwrap();
    assert_eq!(a.bellman_ford(0), Ok(vec![0, 1, 2, 3]));
    assert_eq!(a.bellman_ford(0), b.bellman_ford(0));
}

#[test]
fn error_messages_differ() {
    let all = [
        GraphError::InvalidVertexIndex,
        GraphError::NegativeWeightCycle,
        GraphError::DistanceOverflow,
    ];
    for a in all.iter() {
        for b in all.iter() {
            assert_eq!(a == b, a.message() == b.message());
        }
    }
}

#[test]
fn bellmanford_from_edges() {
    let edges = vec![
        (0, 1, -1),
        (0, 2, 4),
        (1, 2, 3),
        (3, 2, 5),
        (3, 1, 1),
        (1, 3, 2),
        (1, 4, 2),
        (4, 3, -3),
    ];
    assert_eq!(
        graphs::bellmanford::bellmanford(5, 0, &edges),
        Ok(vec![0, -1, 2, -2, 1])
    );
    assert_eq!(
        graphs::bellmanford::bellmanford(5, 5, &edges),
        Err(GraphError::InvalidVertexIndex)
    );
    assert_eq!(
        graphs::bellmanford::bellmanford(4, 0, &edges),
        Err(GraphError::InvalidVertexIndex)
    );
    assert_eq!(
        graphs::bellmanford::bellmanford(3, 0, &vec![(0, 1, 1), (1, 2, -5), (2, 0, 2)]),
        Err(GraphError::NegativeWeightCycle)
    );
    assert_eq!(
        graphs::bellmanford::bellmanford(5, 0, &edges),
        graphs::bellmanford::bellmanford(5, 0, &edges)
    );
}

#[test]
fn add_weights_keeps_the_edges_in_order() {
    let g = graphs::bellmanford::add_weights(3, &vec![(2, 1, 1), (0, 2, 1)]).unwrap();
    assert_eq!(g.vertices(), 3);
    assert_eq!(g.bellman_ford(0), Ok(vec![0, 2, 1]));
    assert!(matches!(
        graphs::bellmanford::add_weights(2, &vec![(0, 1, 1), (1, 2, 1)]),
        Err(GraphError::InvalidVertexIndex)
    ));
}

#[test]
fn bellman_ford_agrees_with_dijkstra_without_negative_weights() {
    let edges = vec![
        (0, 1, 10),
        (0, 2, 5),
        (1, 3, 1),
        (2, 1, 3),
        (2, 3, 8),
        (2, 4, 2),
        (3, 4, 4),
    ];
    let mut both_ways = Vec::new();
    for &(u, v, w) in edges.iter() {
        both_ways.push((u, v, w));
        both_ways.push((v, u, w));
    }
    for source in 0..6 {
        assert_eq!(
            graphs::bellmanford::bellmanford(6, source, &both_ways),
            graphs::dijkstras::dijkstras(6, source, &edges)
        );
    }
}
