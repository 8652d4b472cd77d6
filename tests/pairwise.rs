use untanglers::aggregation::aggregate_pairwise_matrix;
use untanglers::crossings::count_index_crossings;
use untanglers::layers::add_matrix;
use untanglers::mapping::{count_crossings, map_edges, swap_edges, validate_layers};
use untanglers::error::OptimizerError;
use untanglers::optimizer::reduce_crossings;
use untanglers::pairwise::get_pairwise_matrix;

fn flatten(matrix: &[Vec<i64>]) -> Vec<f64> {
    matrix.iter().flat_map(|row| row.iter().map(|v| *v as f64)).collect()
}

fn rows(flat: &[f64], n: usize) -> Vec<Vec<i64>> {
    (0..n).map(|a| (0..n).map(|b| flat[a * n + b] as i64).collect()).collect()
}

fn never(_step: usize, _delta: i64) -> bool {
    false
}

fn brute_force(edges: &[(usize, usize, usize)]) -> u64 {
    let mut total = 0u64;
    for e1 in edges {
        for e2 in edges {
            if e1.0 < e2.0 && e1.1 > e2.1 {
                total += (e1.2 * e2.2) as u64;
            }
        }
    }
    total
}

#[test]
fn test_aggregation() {
    let pairwise_matrix: Vec<f64> = vec![0., 0., 3., 0., 0., 0., 6., 0., -3., -6., 0., 0., 0., 0., 0., 0.];
    let borders = vec![1, 2, 3];
    let aggregated_matrix = aggregate_pairwise_matrix(&rows(&pairwise_matrix, 4), &borders);
    let expected_matrix: Vec<f64> = vec![0., 9., 0., -9., 0., 0., 0., 0., 0.];
    assert_eq!(flatten(&aggregated_matrix), expected_matrix);
}

#[test]
fn test_add_matrix() {
    let mat1 = vec![0., 1., 0., 0., -1., 0., 3., 4., 0., -3., 0., 2., 0., -4., -2., 0.];
    let mat2 = vec![0., -1., 1., 0., 1., 0., 0., 2., -1., 0., 0., 1., 0., -2., -1., 0.];
    let result = vec![0., 0., 1., 0., 0., 0., 3., 6., -1., -3., 0., 3., 0., -6., -3., 0.];

    assert_eq!(flatten(&add_matrix(&rows(&mat1, 4), &rows(&mat2, 4), 4)), result);
}

#[test]
fn reducer_test_simple_graph() {
    let nodes_left: Vec<u8> = vec![0, 1, 2, 10];
    let nodes_right: Vec<u8> = vec![3, 4, 5];
    let edges: Vec<(u8, u8, usize)> = vec![(0, 5, 1), (1, 5, 2), (2, 4, 3)];
    let mapped_edges = map_edges(&nodes_left, &nodes_right, &edges).unwrap();

    // Test counting left side
    let expected_left: Vec<f64> = vec![0., 0., 3., 0., 0., 0., 6., 0., -3., -6., 0., 0., 0., 0., 0., 0.];
    assert_eq!(
        flatten(&get_pairwise_matrix(nodes_left.len(), nodes_right.len(), &mapped_edges)),
        expected_left
    );
    assert_eq!(count_crossings(&nodes_left, &nodes_right, &edges), 9);

    let (new_nodes, expected_count) = reduce_crossings(&nodes_left, &nodes_right, &edges, 10, &never, &None);
    let actual_count = count_crossings(&new_nodes, &nodes_right, &edges) as i64;
    assert_eq!(expected_count, actual_count);
    assert_eq!(actual_count, 0);

    // Test counting right side
    let inv_edges = swap_edges(&edges);
    let inv_mapped_edges = map_edges(&nodes_right, &nodes_left, &inv_edges).unwrap();
    let expected_right: Vec<f64> = vec![0.0, 0.0, 0.0, 0.0, 0.0, 9.0, 0.0, -9.0, 0.0];
    assert_eq!(
        flatten(&get_pairwise_matrix(nodes_right.len(), nodes_left.len(), &inv_mapped_edges)),
        expected_right
    );
    assert_eq!(count_crossings(&nodes_right, &nodes_left, &inv_edges), 9);

    let (new_nodes, expected_count) = reduce_crossings(&nodes_right, &nodes_left, &inv_edges, 10, &never, &None);
    let actual_count = count_crossings(&nodes_left, &new_nodes, &edges) as i64;
    assert_eq!(expected_count, actual_count);
    assert_eq!(actual_count, 0);
}

#[test]
fn counter_matches_brute_force() {
    let edges: Vec<(usize, usize, usize)> = vec![
        (0, 3, 2),
        (0, 1, 1),
        (1, 0, 4),
        (1, 4, 1),
        (2, 2, 3),
        (3, 0, 1),
        (3, 3, 5),
        (4, 1, 2),
    ];
    let counted = count_index_crossings(5, 5, &edges);
    assert_eq!(counted, brute_force(&edges));
    assert_eq!(counted, 55);
}

#[test]
fn counter_of_no_edges_is_zero() {
    assert_eq!(count_index_crossings(3, 3, &vec![]), 0);
}

#[test]
fn pairwise_matrix_is_antisymmetric() {
    let edges: Vec<(usize, usize, usize)> = vec![(0, 3, 2), (0, 1, 1), (1, 0, 4), (2, 2, 3), (3, 0, 1), (3, 3, 5)];
    let matrix = get_pairwise_matrix(4, 4, &edges);
    for a in 0..4 {
        assert_eq!(matrix[a][a], 0);
        for b in 0..4 {
            assert_eq!(matrix[a][b], -matrix[b][a]);
        }
    }
}

#[test]
fn swapping_neighbours_changes_count_by_pair_contribution() {
    let edges: Vec<(usize, usize, usize)> = vec![(0, 3, 2), (0, 1, 1), (1, 0, 4), (1, 4, 1), (2, 2, 3), (3, 0, 1), (3, 3, 5)];
    let matrix = get_pairwise_matrix(4, 5, &edges);
    let before = count_index_crossings(4, 5, &edges) as i64;
    for j in 0..3 {
        let swapped: Vec<(usize, usize, usize)> = edges
            .iter()
            .map(|&(i, k, w)| (if i == j { j + 1 } else if i == j + 1 { j } else { i }, k, w))
            .collect();
        let after = count_index_crossings(4, 5, &swapped) as i64;
        assert_eq!(after - before, -matrix[j][j + 1]);
    }
}

#[test]
fn validate_layers_reports_errors() {
    let nodes: Vec<Vec<&str>> = vec![vec!["a", "b"], vec!["c"]];
    let too_many: Vec<Vec<(&str, &str, usize)>> = vec![vec![], vec![]];
    assert_eq!(
        validate_layers(&nodes, &too_many),
        Err(OptimizerError::EdgeLayerMismatch { edges: 2, layers: 2 })
    );
    let missing_right: Vec<Vec<(&str, &str, usize)>> = vec![vec![("a", "c", 1), ("b", "x", 1)]];
    assert_eq!(
        validate_layers(&nodes, &missing_right),
        Err(OptimizerError::MissingNode { layer_index: 1, edge_index: 1 })
    );
    let missing_left: Vec<Vec<(&str, &str, usize)>> = vec![vec![("z", "c", 1)]];
    assert_eq!(
        validate_layers(&nodes, &missing_left),
        Err(OptimizerError::MissingNode { layer_index: 0, edge_index: 0 })
    );
    let fine: Vec<Vec<(&str, &str, usize)>> = vec![vec![("a", "c", 1), ("b", "c", 2)]];
    assert_eq!(validate_layers(&nodes, &fine), Ok(()));
}

#[test]
fn map_edges_gives_positions() {
    let left = vec!["x", "y", "z"];
    let right = vec!["p", "q"];
    let edges = vec![("z", "p", 4), ("x", "q", 1)];
    assert_eq!(map_edges(&left, &right, &edges), Some(vec![(2, 0, 4), (0, 1, 1)]));
    assert_eq!(map_edges(&left, &right, &vec![("w", "p", 1)]), None);
    assert_eq!(swap_edges(&edges), vec![("p", "z", 4), ("q", "x", 1)]);
}

#[test]
fn aggregation_clamps_nothing_on_small_values() {
    let fine: Vec<Vec<i64>> = vec![vec![0, 2, -1], vec![-2, 0, 5], vec![1, -5, 0]];
    // One group of two nodes and one of one node.
    let coarse = aggregate_pairwise_matrix(&fine, &vec![1, 2]);
    assert_eq!(coarse, vec![vec![0, 4], vec![-4, 0]]);
}

#[test]
fn swapping_neighbour_groups_changes_count_by_aggregated_entry() {
    // Groups of ranks [0, 2), [2, 3), [3, 5) on the swappable side.
    let edges: Vec<(usize, usize, usize)> = vec![(0, 3, 2), (0, 1, 1), (1, 0, 4), (1, 4, 1), (2, 2, 3), (3, 0, 1), (3, 3, 5), (4, 1, 2)];
    let matrix = get_pairwise_matrix(5, 5, &edges);
    let aggregated = aggregate_pairwise_matrix(&matrix, &vec![1, 2, 4]);
    let before = count_index_crossings(5, 5, &edges) as i64;
    // Exchange the first two groups: ranks 0, 1 move to 1, 2 and rank 2 moves to 0.
    let swapped: Vec<(usize, usize, usize)> = edges
        .iter()
        .map(|&(i, k, w)| (if i < 2 { i + 1 } else if i == 2 { 0 } else { i }, k, w))
        .collect();
    let after = count_index_crossings(5, 5, &swapped) as i64;
    assert_eq!(after - before, -aggregated[0][1]);
    // Exchange the last two groups: rank 2 moves to 4, ranks 3, 4 move to 2, 3.
    let swapped: Vec<(usize, usize, usize)> = edges
        .iter()
        .map(|&(i, k, w)| (if i == 2 { 4 } else if i > 2 { i - 1 } else { i }, k, w))
        .collect();
    let after = count_index_crossings(5, 5, &swapped) as i64;
    assert_eq!(after - before, -aggregated[1][2]);
}

#[test]
fn length_mismatch_reported_before_missing_nodes() {
    let nodes: Vec<Vec<&str>> = vec![vec!["a"], vec!["b"], vec!["c"]];
    let edges: Vec<Vec<(&str, &str, usize)>> = vec![vec![("x", "y", 1)]];
    assert_eq!(
        validate_layers(&nodes, &edges),
        Err(OptimizerError::EdgeLayerMismatch { edges: 1, layers: 3 })
    );
}

#[test]
fn first_missing_node_is_reported() {
    let nodes: Vec<Vec<&str>> = vec![vec!["a", "b"], vec!["c"], vec!["d"]];
    let edges: Vec<Vec<(&str, &str, usize)>> = vec![
        vec![("a", "c", 1), ("b", "z", 1), ("q", "c", 1)],
        vec![("w", "d", 1)],
    ];
    assert_eq!(
        validate_layers(&nodes, &edges),
        Err(OptimizerError::MissingNode { layer_index: 1, edge_index: 1 })
    );
}

#[test]
fn aggregation_of_no_groups_is_empty() {
    let fine: Vec<Vec<i64>> = vec![];
    assert_eq!(aggregate_pairwise_matrix(&fine, &vec![]), Vec::<Vec<i64>>::new());
}
