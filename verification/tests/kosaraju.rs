use graphs::error::GraphError;
use graphs::kosaraju::kosaraju_algorithm;
use graphs::reach::check_adjacency;
use graphs::traverse::explore;

#[test]
fn test_kosaraju_algorithm1() {
    let adj_list = vec![
        vec![1],
        vec![2],
        vec![3, 4],
        vec![0],
        vec![5],
        vec![6],
        vec![4, 7],
        vec![],
    ];

    let expected_result = vec![vec![0, 1, 2, 3], vec![4, 5, 6], vec![7]];

    let result = kosaraju_algorithm(&adj_list);

    assert_eq!(result, Ok(expected_result));
}

#[test]
fn test_kosaraju_algorithm2() {
    let adj_list = vec![vec![2, 3], vec![0], vec![1], vec![4], vec![]];

    let expected_result = vec![vec![0, 1, 2], vec![3], vec![4]];

    let result = kosaraju_algorithm(&adj_list);

    assert_eq!(result, Ok(expected_result));
}

#[test]
fn test_kosaraju_algorithm3() {
    let adj_list = vec![
        vec![1],
        vec![2],
        vec![0, 3],
        vec![4],
        vec![3],
        vec![],
        vec![7],
        vec![5, 6],
    ];

    let expected_result = vec![vec![0, 1, 2], vec![3, 4], vec![5], vec![6, 7]];

    let result = kosaraju_algorithm(&adj_list);

    assert_eq!(result, Ok(expected_result));
}

#[test]
fn kosaraju_empty_graph_has_no_components() {
    let adj_list: Vec<Vec<usize>> = Vec::new();
    assert_eq!(kosaraju_algorithm(&adj_list), Ok(Vec::new()));
}

#[test]
fn kosaraju_isolated_vertices_are_singletons() {
    let adj_list: Vec<Vec<usize>> = vec![vec![], vec![], vec![]];
    assert_eq!(kosaraju_algorithm(&adj_list), Ok(vec![vec![0], vec![1], vec![2]]));
}

#[test]
fn kosaraju_self_loops_and_parallel_edges() {
    let adj_list: Vec<Vec<usize>> = vec![vec![0, 1, 1], vec![1, 0], vec![2, 0]];
    assert_eq!(kosaraju_algorithm(&adj_list), Ok(vec![vec![0, 1], vec![2]]));
}

#[test]
fn kosaraju_components_come_by_smallest_vertex() {
    // 3 -> 0 -> 3 is one component, found last by the second pass.
    let adj_list: Vec<Vec<usize>> = vec![vec![3], vec![2], vec![1], vec![0], vec![0]];
    assert_eq!(
        kosaraju_algorithm(&adj_list),
        Ok(vec![vec![0, 3], vec![1, 2], vec![4]])
    );
}

#[test]
fn kosaraju_rejects_unknown_neighbour() {
    let adj_list: Vec<Vec<usize>> = vec![vec![1], vec![2]];
    assert_eq!(
        kosaraju_algorithm(&adj_list),
        Err(GraphError::InvalidVertexIndex)
    );
}

#[test]
fn kosaraju_same_graph_same_result() {
    let build = || vec![vec![1usize], vec![2], vec![0, 3], vec![4], vec![3]];
    assert_eq!(kosaraju_algorithm(&build()), kosaraju_algorithm(&build()));
}

#[test]
fn kosaraju_long_path_does_not_exhaust_the_stack() {
    let n = 200_000usize;
    let mut adj_list: Vec<Vec<usize>> = Vec::new();
    for v in 0..n {
        adj_list.push(vec![(v + 1) % n]);
    }
    let result = kosaraju_algorithm(&adj_list).unwrap();
    assert_eq!(result.len(), 1);
    assert_eq!(result[0].len(), n);
    assert_eq!(result[0][n - 1], n - 1);
}

#[test]
fn explore_lists_at_arrival_or_at_completion() {
    let adj: Vec<Vec<usize>> = vec![vec![2, 1], vec![3], vec![3], vec![]];
    let mut visited = vec![false; 4];
    let mut out = Vec::new();
    explore(&adj, 0, &mut visited, &mut out, false);
    assert_eq!(out, vec![0, 2, 3, 1]);
    assert_eq!(visited, vec![true; 4]);
    let mut visited = vec![false, false, false, true];
    let mut out = vec![9];
    explore(&adj, 0, &mut visited, &mut out, true);
    assert_eq!(out, vec![9, 2, 1, 0]);
}

#[test]
fn check_adjacency_tells_valid_from_invalid() {
    assert!(check_adjacency(&vec![vec![1, 0], vec![]]));
    assert!(check_adjacency(&Vec::new()));
    assert!(!check_adjacency(&vec![vec![1, 2], vec![]]));
    assert!(!check_adjacency(&vec![vec![0], vec![usize::MAX]]));
}
