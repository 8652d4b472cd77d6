use std::collections::{HashMap, HashSet};

use rand::seq::SliceRandom;
use rand::Rng;
use untanglers::error::OptimizerError;
use untanglers::hierarchy_optimizer::HierarchyOptimizer;
use untanglers::optimizer::{reduce_crossings, LayoutOptimizer};
use untanglers::mapping::{count_crossings, swap_edges};
use untanglers::reducer::swap_nodes;

type Hierarchy = Vec<Vec<Vec<usize>>>;
type GraphType = (Vec<Vec<i32>>, Vec<Vec<(i32, i32, usize)>>);

/// Metropolis acceptance on a geometric schedule from `start` to `end` over `steps` runs.
fn metropolis(start: f64, end: f64, steps: usize) -> impl Fn(usize, i64) -> bool {
    move |step: usize, delta: i64| {
        let temperature = if steps > 1 {
            start * (end / start).powf(step as f64 / (steps - 1) as f64)
        } else {
            start
        };
        ((delta as f64 - 1.) / temperature).exp() > rand::random::<f64>()
    }
}

fn generate_edges(rng: &mut impl Rng, n_nodes: i32) -> Vec<(i32, i32, usize)> {
    let mut l = 0;
    let mut r = 0;
    let k = 3;
    let mut edges = Vec::<(i32, i32, usize)>::new();
    while l < n_nodes - k && r < n_nodes - k {
        let dl = rng.random_range(1..k);
        for i in 0..dl {
            edges.push((l + i + 1, r, 1));
        }
        l += dl;

        let dr = rng.random_range(1..k + 1);
        for i in 0..dr {
            edges.push((l, r + i + 1, 1));
        }
        r += dr;
    }

    edges
}

fn generate_graph(n_nodes: i32) -> (Vec<i32>, Vec<i32>, Vec<(i32, i32, usize)>) {
    let mut nodes_left: Vec<i32> = (0..n_nodes).collect();
    let mut nodes_right: Vec<i32> = (0..n_nodes).collect();
    let mut rng = rand::rng();
    let edges = generate_edges(&mut rng, n_nodes);
    nodes_left.shuffle(&mut rng);
    nodes_right.shuffle(&mut rng);
    (nodes_left, nodes_right, edges)
}

fn generate_multipartite_graph(n_layers: i32, n_nodes: i32) -> GraphType {
    let mut nodes: Vec<Vec<i32>> = (0..n_layers).map(|_l| (0..n_nodes).collect()).collect();
    let mut rng = rand::rng();
    let edges: Vec<Vec<(i32, i32, usize)>> = (0..n_layers - 1).map(|_l| generate_edges(&mut rng, n_nodes)).collect();
    (0..n_layers).for_each(|l| nodes[l as usize].shuffle(&mut rng));
    (nodes, edges)
}

fn get_clusters(hierarchy: &Hierarchy, layer_index: usize, nodes: &[Vec<i32>]) -> HashMap<usize, HashSet<i32>> {
    let mut clusters = HashMap::<usize, HashSet<i32>>::new();

    for granularity in 0..hierarchy[layer_index].len() {
        let mut group_start: usize = 0;
        for group_size in &hierarchy[layer_index][granularity] {
            let node_names: HashSet<i32> = (group_start..group_start + group_size).map(|i| nodes[layer_index][i]).collect();
            clusters.insert(*group_size, node_names);
            group_start += group_size;
        }
    }

    clusters
}

#[test]
fn test_cooldown() {
    let n = 200;

    let (nodes, edges) = generate_multipartite_graph(7, n);
    let mut optimizer = LayoutOptimizer::new(nodes, edges).unwrap();
    let start_crossings = optimizer.count_crossings() as i64;
    let end_crossings = optimizer.cooldown(5, 200, 1, &metropolis(1., 0.1, 5));

    println!("Improved from {} to {}", start_crossings, end_crossings);
    assert!(start_crossings > end_crossings);
    assert!(end_crossings > 0);

    let real_crossings = optimizer.count_layer_crossings(1);
    assert_eq!(end_crossings, real_crossings);
}

#[test]
fn layout_optimizer_test_optimize() {
    let n = 200;

    let (nodes, edges) = generate_multipartite_graph(7, n);
    let mut optimizer = LayoutOptimizer::new(nodes, edges).unwrap();
    let start_crossings = optimizer.count_crossings() as i64;
    let end_crossings = optimizer.optimize(5, 200, 20, &metropolis(1., 0.1, 5));

    println!("Improved from {} to {}", start_crossings, end_crossings);
    assert!(start_crossings > end_crossings);
    assert!(end_crossings > 0);
}

#[test]
fn optimizer_test_optimize() {
    let n = 200;

    let (nodes_left, nodes_right, edges) = generate_graph(n);
    let mut optimizer = LayoutOptimizer::new(vec![nodes_left.clone(), nodes_right.clone()], vec![edges.clone()]).unwrap();
    let start_crossings = optimizer.count_crossings() as i64;
    let end_crossings = optimizer.optimize(5, 200, 20, &metropolis(3., 0.01, 5));

    println!("Improved from {} to {}", start_crossings, end_crossings);
    assert!(start_crossings > end_crossings);
    assert!(end_crossings > 0);
}

#[test]
fn test_cooldown_hierarchy() {
    let n = 100;

    let hierarchy: Hierarchy = vec![vec![], vec![
        vec![10, 13, 7, 3, 2, 14, 20, 15, 16],
        vec![30, 19, 35, 16],
        vec![49, 51],
    ], vec![]];

    let (nodes, edges) = generate_multipartite_graph(3, n);
    let clusters = get_clusters(&hierarchy, 1, &nodes);
    let mut optimizer = HierarchyOptimizer::new(nodes, edges, hierarchy).unwrap();
    let mut start_crossings = optimizer.count_crossings() as i64;

    for granularity in vec![
        None,
        Some(0_usize),
        Some(1_usize),
        Some(2_usize),
    ] {
        let end_crossings = optimizer.cooldown(5, 200, 1, granularity, &metropolis(1., 0.1, 5));

        assert_eq!(get_clusters(&optimizer.get_hierarchy(), 1, &optimizer.get_nodes()), clusters);

        assert!(start_crossings >= end_crossings, "{start_crossings} < {end_crossings}");
        println!("Improved from {} to {}", start_crossings, end_crossings);
        assert!(end_crossings > 0);

        let real_crossings = optimizer.count_layer_crossings(1);
        assert_eq!(end_crossings, real_crossings);
        start_crossings = end_crossings;
    }
}

#[test]
fn test_optimize_hierarchy() {
    let n = 100;

    let hierarchy: Hierarchy = vec![vec![], vec![
        vec![10, 13, 7, 3, 2, 14, 20, 15, 16],
        vec![30, 19, 35, 16],
        vec![49, 51],
    ], vec![]];

    let (nodes, edges) = generate_multipartite_graph(3, n);
    let clusters = get_clusters(&hierarchy, 1, &nodes);
    let mut optimizer = HierarchyOptimizer::new(nodes, edges, hierarchy).unwrap();
    let start_crossings = optimizer.count_crossings() as i64;

    let end_crossings = optimizer.optimize(5, 200, 20, &metropolis(1., 0.1, 5));

    assert_eq!(get_clusters(&optimizer.get_hierarchy(), 1, &optimizer.get_nodes()), clusters);

    println!("Improved from {} to {}", start_crossings, end_crossings);
    assert!(start_crossings > end_crossings);
    assert!(end_crossings > 0);
}

#[test]
fn reducer_test_difficult_graph2() {
    let n = 50;
    let temperature = 2.;
    let iterations = 1000;

    let (nodes_left, nodes_right, edges) = generate_graph(n);
    let swapped_edges = swap_edges(&edges);
    let start_crossings = count_crossings(&nodes_left, &nodes_right, &edges) as i64;

    let (new_order, mid_crossings) =
        reduce_crossings(&nodes_left, &nodes_right, &edges, iterations, &metropolis(temperature, temperature, 1), &None);
    let (_, end_crossings) =
        reduce_crossings(&nodes_right, &new_order, &swapped_edges, iterations, &metropolis(temperature, temperature, 1), &None);

    assert!(mid_crossings < start_crossings, "{mid_crossings} !< {start_crossings}");
    assert!(end_crossings < mid_crossings, "{end_crossings} !< {mid_crossings}");
}

#[test]
fn swap_nodes_test_difficult_graph2() {
    let n = 50;
    let temperature = 2.;
    let iterations = 1000;

    let (nodes_left, nodes_right, edges) = generate_graph(n);
    let swapped_edges = swap_edges(&edges);
    let start_crossings = count_crossings(&nodes_left, &nodes_right, &edges) as i64;

    let (new_order, mid_crossings) =
        reduce_crossings(&nodes_left, &nodes_right, &edges, iterations, &metropolis(temperature, temperature, 1), &None);
    let (_, end_crossings) =
        reduce_crossings(&nodes_right, &new_order, &swapped_edges, iterations, &metropolis(temperature, temperature, 1), &None);

    println!("{} -> {} -> {}", start_crossings, mid_crossings, end_crossings);

    assert!(mid_crossings < start_crossings, "{mid_crossings} !< {start_crossings}");
    assert!(end_crossings < mid_crossings, "{end_crossings} !< {mid_crossings}");
}

#[test]
fn crossings_test_simple_graph() {
    let nodes_left: Vec<u8> = vec![0, 1, 2];
    let nodes_right: Vec<u8> = vec![3, 4, 5];
    let edges: Vec<(u8, u8, usize)> = vec![(0, 5, 1), (1, 5, 2), (2, 4, 3)];
    let mut crossings = LayoutOptimizer::new(vec![nodes_left, nodes_right], vec![edges]).unwrap();
    assert_eq!(crossings.count_crossings(), 9);
    crossings.swap_nodes(0, 10, &metropolis(1e-3, 1e-3, 1));
    assert_eq!(crossings.count_crossings(), 0);
    let left = &crossings.get_nodes()[0];
    assert!(left == &vec![2, 0, 1] || left == &vec![2, 1, 0]);
}

#[test]
fn test_difficult_graph() {
    let n = 50;
    let (nodes_left, nodes_right, edges) = generate_graph(n);

    let mut crossings = LayoutOptimizer::new(vec![nodes_left, nodes_right], vec![edges]).unwrap();
    let start_crossings = crossings.count_crossings();
    let mut temp = 10.;
    let delta_t = 0.5;
    let max_iterations = 1000;
    let k = 10;
    for _ in 0..k {
        crossings.swap_nodes(0, max_iterations, &metropolis(temp, temp, 1));
        temp *= delta_t;
    }
    let end_crossings = crossings.count_crossings();
    assert!(end_crossings < start_crossings);
}

#[test]
fn construction_errors() {
    let nodes: Vec<Vec<&str>> = vec![vec!["a", "b"], vec!["c", "d"]];
    let edges: Vec<Vec<(&str, &str, usize)>> = vec![vec![("a", "d", 1), ("b", "c", 1)]];
    assert!(matches!(
        LayoutOptimizer::new(nodes.clone(), vec![]),
        Err(OptimizerError::EdgeLayerMismatch { edges: 0, layers: 2 })
    ));
    assert!(matches!(
        LayoutOptimizer::new(nodes.clone(), vec![vec![("a", "e", 1)]]),
        Err(OptimizerError::MissingNode { layer_index: 1, edge_index: 0 })
    ));
    assert!(matches!(
        HierarchyOptimizer::new(nodes.clone(), edges.clone(), vec![vec![]]),
        Err(OptimizerError::HierarchyMismatch { hierarchy: 1, layers: 2 })
    ));
    assert!(matches!(
        HierarchyOptimizer::new(nodes.clone(), edges.clone(), vec![vec![vec![1, 2]], vec![]]),
        Err(OptimizerError::HierarchySizeMismatch { layer_index: 0, level_index: 0 })
    ));
    let ok = HierarchyOptimizer::new(nodes, edges, vec![vec![vec![1, 1], vec![2]], vec![]]).unwrap();
    assert_eq!(ok.count_crossings(), 1);
}

#[test]
fn three_node_crossing_resolved() {
    let layers = vec![vec![0, 1, 2], vec![3, 4, 5]];
    let edges = vec![vec![(0, 5, 1), (1, 5, 2), (2, 4, 3)]];
    let mut optimizer = LayoutOptimizer::new(layers, edges).unwrap();
    assert_eq!(optimizer.count_crossings(), 9);
    let count = optimizer.swap_nodes(0, 10, &|_step: usize, _delta: i64| false);
    assert_eq!(count, 0);
    assert_eq!(optimizer.get_nodes()[0], vec![2, 0, 1]);
}

#[test]
fn greedy_cooldown_never_increases_count() {
    let (nodes, edges) = generate_multipartite_graph(3, 60);
    let mut optimizer = LayoutOptimizer::new(nodes, edges).unwrap();
    let before = optimizer.count_layer_crossings(1);
    let after = optimizer.cooldown(3, 50, 1, &metropolis(1e-3, 1e-3, 3));
    assert!(after <= before);
    assert_eq!(after, optimizer.count_layer_crossings(1));
}

#[test]
fn reducer_respects_borders() {
    // Every exchange removes crossings, but borders after positions 1 and 3 split the
    // order into [0, 1], [2, 3], [4, 5].
    let n = 6;
    let matrix: Vec<Vec<i64>> = (0..n).map(|a| (0..n).map(|b| if a < b { 1 } else if a > b { -1 } else { 0 }).collect()).collect();
    let (order, _) = swap_nodes(n, &matrix, 10, &|_s: usize, _d: i64| false, 0, 100, (0..n).collect(), &Some(vec![1, 3]));
    assert_eq!(order, vec![1, 0, 3, 2, 5, 4]);
    let (free, count) = swap_nodes(n, &matrix, 10, &|_s: usize, _d: i64| false, 0, 100, (0..n).collect(), &None);
    assert_eq!(free, vec![5, 4, 3, 2, 1, 0]);
    assert_eq!(count, 100 - 15);
}

#[test]
fn reducer_idle_on_nonpositive_count() {
    let matrix: Vec<Vec<i64>> = vec![vec![0, 5], vec![-5, 0]];
    let (order, count) = swap_nodes(2, &matrix, 10, &|_s: usize, _d: i64| true, 0, 0, vec![0, 1], &None);
    assert_eq!(order, vec![0, 1]);
    assert_eq!(count, 0);
}

#[test]
fn group_move_keeps_groups_together() {
    let layers = vec![vec!["x"], vec!["a", "b", "c", "d"], vec!["y"]];
    let edges = vec![
        vec![("x", "d", 1), ("x", "a", 1)],
        vec![("d", "y", 1), ("c", "y", 1)],
    ];
    let hierarchy: Hierarchy = vec![vec![], vec![vec![1, 1, 2], vec![2, 2]], vec![]];
    let mut optimizer = HierarchyOptimizer::new(layers, edges, hierarchy).unwrap();
    optimizer.cooldown(2, 20, 1, Some(1), &|_s: usize, _d: i64| false);
    let nodes = optimizer.get_nodes();
    let hierarchy = optimizer.get_hierarchy();
    let first = &nodes[1][0..2];
    assert!(first == ["a", "b"] || first == ["c", "d"]);
    assert!(hierarchy[1] == vec![vec![1, 1, 2], vec![2, 2]] || hierarchy[1] == vec![vec![2, 1, 1], vec![2, 2]]);
    assert_eq!(optimizer.count_layer_crossings(1), optimizer.count_crossings() as i64);
}

#[test]
fn too_heavy_edges_are_rejected() {
    let layers = vec![vec![0, 1], vec![2, 3]];
    let edges = vec![vec![(0, 2, 0x4000_0000), (1, 3, 0x4000_0000)]];
    assert!(matches!(
        LayoutOptimizer::new(layers, edges),
        Err(OptimizerError::EdgeWeightLimit { limit: 0x7fff_ffff })
    ));
}
