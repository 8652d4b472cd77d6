use untanglers::error::OptimizerError;
use untanglers::hierarchy::{
    get_borders, group_end_list, reorder_group, reorder_hierarchy, reorder_node_groups,
    validate_hierarchy,
};

#[test]
fn test_reorder_nodes_by_group() {
    let nodes = vec!["A", "B", "C", "D", "E", "F", "G"];
    let group_sizes: Vec<usize> = vec![2, 2, 3];
    let new_order: Vec<usize> = vec![2, 1, 0];

    let new_nodes = reorder_node_groups(&nodes, &group_sizes, &new_order);
    assert_eq!(new_nodes, vec!["E", "F", "G", "C", "D", "A", "B"]);
}

#[test]
fn test_reorder_group_sizes() {
    let parent_groups: Vec<usize> = vec![30, 20, 35, 15];
    let child_groups: Vec<usize> = vec![10, 13, 7, 3, 3, 14, 20, 15, 15];
    let new_order: Vec<usize> = vec![1, 3, 0, 2];
    let new_child_groups = reorder_group(&parent_groups, &child_groups, &new_order);
    assert_eq!(new_child_groups, vec![3, 3, 14, 15, 10, 13, 7, 20, 15]);
}

#[test]
fn test_get_borders() {
    let groups1: Vec<usize> = vec![50, 50];
    let groups2: Vec<usize> = vec![30, 20, 35, 15];
    let groups3: Vec<usize> = vec![10, 13, 7, 3, 3, 14, 20, 15, 15];

    let borders1: Vec<usize> = vec![1, 3];
    let borders2: Vec<usize> = vec![5, 8];
    let borders3: Vec<usize> = vec![2, 5, 7, 8];

    assert_eq!(get_borders(&groups2, &groups1), Some(borders1));
    assert_eq!(get_borders(&groups3, &groups1), Some(borders2));
    assert_eq!(get_borders(&groups3, &groups2), Some(borders3));
}

#[test]
fn test_reorder_hierarchy() {
    let group_layers: Vec<Vec<usize>> = vec![
        vec![10, 13, 7, 3, 3, 14, 20, 15, 15],
        vec![30, 20, 35, 15],
        vec![50, 50],
    ];

    assert!(validate_hierarchy(0, 100, &group_layers).is_ok());

    let new_order: Vec<usize> = vec![1, 0];
    let new_group_layers = reorder_hierarchy(&group_layers, 2, &new_order);
    assert_eq!(
        new_group_layers,
        vec![
            vec![20, 15, 15, 10, 13, 7, 3, 3, 14],
            vec![35, 15, 30, 20],
            vec![50, 50],
        ]
    );

    let new_order: Vec<usize> = vec![1, 3, 0, 2];
    let new_group_layers = reorder_hierarchy(&group_layers, 1, &new_order);
    assert_eq!(
        new_group_layers,
        vec![
            vec![3, 3, 14, 15, 10, 13, 7, 20, 15],
            vec![20, 15, 30, 35],
            vec![50, 50],
        ]
    );
}

#[test]
fn borders_of_the_spec_example() {
    let fine: Vec<usize> = vec![10, 13, 7, 3, 3, 14, 20, 15, 15];
    assert_eq!(get_borders(&fine, &[30, 20, 35, 15]), Some(vec![2, 5, 7, 8]));
    assert_eq!(get_borders(&fine, &[50, 50]), Some(vec![5, 8]));
}

#[test]
fn borders_of_misaligned_levels() {
    // 10 + 13 = 23 skips over 20.
    assert_eq!(get_borders(&[10, 13, 7], &[20, 10]), None);
    // The finer level ends before the coarser one.
    assert_eq!(get_borders(&[10, 10], &[10, 20]), None);
}

#[test]
fn identity_order_keeps_hierarchy() {
    let levels: Vec<Vec<usize>> = vec![
        vec![10, 13, 7, 3, 3, 14, 20, 15, 15],
        vec![30, 20, 35, 15],
        vec![50, 50],
    ];
    assert_eq!(reorder_hierarchy(&levels, 0, &[0, 1, 2, 3, 4, 5, 6, 7, 8]), levels);
    assert_eq!(reorder_hierarchy(&levels, 1, &[0, 1, 2, 3]), levels);
    assert_eq!(reorder_hierarchy(&levels, 2, &[0, 1]), levels);
}

#[test]
fn validate_reports_size_mismatch() {
    let levels: Vec<Vec<usize>> = vec![vec![10, 13, 7], vec![20, 11]];
    assert_eq!(
        validate_hierarchy(4, 30, &levels),
        Err(OptimizerError::HierarchySizeMismatch { layer_index: 4, level_index: 1 })
    );
    assert_eq!(
        validate_hierarchy(2, 31, &levels),
        Err(OptimizerError::HierarchySizeMismatch { layer_index: 2, level_index: 0 })
    );
}

#[test]
fn validate_reports_misalignment() {
    let levels: Vec<Vec<usize>> = vec![vec![10, 13, 7], vec![20, 10]];
    assert_eq!(
        validate_hierarchy(1, 30, &levels),
        Err(OptimizerError::HierarchyMisaligned { layer_index: 1, level_index: 1 })
    );
}

#[test]
fn validate_accepts_empty_hierarchy() {
    let levels: Vec<Vec<usize>> = vec![];
    assert_eq!(validate_hierarchy(0, 12, &levels), Ok(()));
}

#[test]
fn group_ends_mark_last_nodes() {
    assert_eq!(group_end_list(&[2, 2, 3]), Some(vec![1, 3, 6]));
    assert_eq!(group_end_list(&[2, 0, 3]), None);
    assert_eq!(group_end_list(&[]), None);
}
