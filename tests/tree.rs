use rand::Rng;
use srtree::{calculate_internal_node_size, ArrayError, Params, SRTree};

fn diagonal(n: i32) -> Vec<Vec<i32>> {
    (0..n).map(|i| vec![i, i]).collect()
}

fn sq(a: &[i32], b: &[i32]) -> u128 {
    a.iter().zip(b).map(|(x, y)| ((*x as i64 - *y as i64) * (*x as i64 - *y as i64)) as u128).sum()
}

#[test]
fn test_with_invalid_min_num_elements() {
    let min_num_of_elements_per_node = 6;
    let max_num_of_elements_per_node = 10;
    let params = Params::new(min_num_of_elements_per_node, max_num_of_elements_per_node);
    assert!(params.is_none())
}

#[test]
fn test_with_valid_params() {
    let min_num_of_elements_per_node = 4;
    let max_num_of_elements_per_node = 10;
    let params = Params::new(min_num_of_elements_per_node, max_num_of_elements_per_node);
    assert!(params.is_some())
}

#[test]
fn params_reject_zero_bounds() {
    assert!(Params::new(0, 10).is_none());
    assert!(Params::new(1, 0).is_none());
    assert!(Params::new(1, 1).is_some());
    assert!(Params::new(5, 10).is_some());
    let d = Params::default_params();
    assert_eq!((d.min_number_of_elements, d.max_number_of_elements), (8, 20));
}

#[test]
fn test_empty_input() {
    let pts: Vec<Vec<i32>> = Vec::new();
    let tree = SRTree::euclidean(&pts);
    assert!(tree.is_err());
    assert!(matches!(tree, Err(ArrayError::Empty)));
}

#[test]
fn srtree_test_dimension_mismatch() {
    let pts = vec![vec![1, 2], vec![3]];
    let tree = SRTree::euclidean(&pts);
    assert!(tree.is_err());
    assert!(matches!(tree, Err(ArrayError::DimensionMismatch)));
}

#[test]
fn test_valid_input() {
    let pts = vec![vec![1, 2]];
    let tree = SRTree::euclidean(&pts);
    assert!(tree.is_ok());
}

#[test]
fn test_large_input() {
    let mut pts = Vec::new();
    for i in 0..1000 {
        pts.push(vec![i, i]);
    }
    let tree = SRTree::euclidean(&pts);
    assert!(tree.is_ok());
}

#[test]
fn test_high_dimension() {
    let dim = 100;
    let mut pts = Vec::new();
    for i in 0..100 {
        let mut pt = Vec::new();
        for _ in 0..dim {
            pt.push(i);
        }
        pts.push(pt);
    }
    let tree = SRTree::euclidean(&pts);
    assert!(tree.is_ok());
}

#[test]
fn bulk_loading_test_internal_node_size() {
    let n = 5000;
    let leaf_size = 21;
    let internal_node_fanout = 9;
    let internal_node_size = calculate_internal_node_size(n, leaf_size, internal_node_fanout);
    assert_eq!(internal_node_size, 1701);
}

#[test]
fn internal_node_size_cases() {
    assert_eq!(calculate_internal_node_size(4, 5, 2), 4);
    assert_eq!(calculate_internal_node_size(9, 5, 2), 4);
    assert_eq!(calculate_internal_node_size(10, 5, 2), 5);
    assert_eq!(calculate_internal_node_size(1000, 20, 8), 160);
    assert_eq!(calculate_internal_node_size(100, 20, 1), 20);
}

#[test]
fn bulk_loading_test_bulk_load() {
    let points = diagonal(10);
    let tree = SRTree::euclidean_with_params(&points, Params::new(2, 5).unwrap())
        .expect("Failed to build SRTree");
    assert_eq!(tree.nodes.len(), 3);
    assert_eq!(tree.nodes[2].children(), &vec![0, 1]);
    assert_eq!(tree.nodes[2].rect.low, vec![0, 0]);
    assert_eq!(tree.nodes[2].rect.high, vec![9, 9]);
    assert_eq!(tree.nodes[1].rect.low, vec![0, 0]);
    assert_eq!(tree.nodes[1].rect.high, vec![4, 4]);
    assert_eq!(tree.nodes[0].rect.low, vec![5, 5]);
    assert_eq!(tree.nodes[0].rect.high, vec![9, 9]);
}

#[test]
fn test_reshape() {
    let pts = vec![vec![1, 1], vec![2, 2], vec![3, 3], vec![4, 4], vec![5, 5]];
    let tree = SRTree::euclidean(&pts).unwrap();
    assert_eq!(tree.nodes[0].rect.low, vec![1, 1]);
    assert_eq!(tree.nodes[0].rect.high, vec![5, 5]);
    assert_eq!(tree.nodes[0].sphere.center.coords, vec![3, 3]);
    assert_eq!((tree.nodes[0].sphere.radius_sq as f64).sqrt(), (4f64 + 4.).sqrt());
}

#[test]
fn test_mean() {
    let points = vec![vec![0, 0], vec![1, 1], vec![2, 2], vec![3, 3], vec![4, 4], vec![5, 5]];
    let tree = SRTree::euclidean(&points).expect("Failed to build SRTree");
    let members = tree.points_of(0).clone();
    // the exact mean is 2.5 on both axes: the totals give it, the mean rounds it down
    let totals = tree.coordinate_totals(&members);
    let n = members.len() as f64;
    let mean: Vec<f64> = totals.iter().map(|s| *s as f64 / n).collect();
    assert_eq!(mean, vec![2.5, 2.5]);
    assert_eq!(tree.calculate_mean(&members), vec![2, 2]);
}

#[test]
fn mean_of_two_points() {
    let points = vec![vec![1, 10], vec![3, 10]];
    let tree = SRTree::euclidean(&points).unwrap();
    assert_eq!(tree.calculate_mean(&[0, 1]), vec![2, 10]);
    assert_eq!(tree.coordinate_totals(&[0, 1]), vec![4, 20]);
    assert_eq!(tree.calculate_points_variance(&[0, 1]), vec![1, 0]);
}

#[test]
fn floor_mean_of_negative_coordinates() {
    let points = vec![vec![-3, 0], vec![-4, 1]];
    let tree = SRTree::euclidean(&points).unwrap();
    assert_eq!(tree.calculate_mean(&[0, 1]), vec![-4, 0]);
}

#[test]
fn test_variance() {
    let points = vec![vec![0, 0], vec![1, 1], vec![2, 2], vec![3, 3], vec![4, 4]];
    let tree = SRTree::euclidean(&points).expect("Failed to build SRTree");
    let variances = tree.calculate_points_variance(&[0, 1, 2, 3, 4]);
    assert_eq!(variances, vec![2, 2]);
}

#[test]
fn test_calculate_variance() {
    let points = vec![vec![1, 2, 3], vec![2, 3, 4], vec![3, 4, 5]];
    let tree = SRTree::euclidean(&points).unwrap();
    // 2/3 on every axis: the scaled value is exact, the variance rounds down
    let scaled = tree.scaled_variances(&[0, 1, 2]);
    let variance = scaled[0] as f64 / 9.0;
    assert!((variance - 2.0 / 3.0).abs() <= 0.00001);
    assert_eq!(tree.calculate_points_variance(&[0, 1, 2]), vec![0, 0, 0]);
}

#[test]
fn query_test_query() {
    let points = diagonal(10);
    let tree = SRTree::euclidean_with_params(&points, Params::new(2, 5).unwrap())
        .expect("Failed to build SRTree");
    let (indices, distances) = tree.query(&[0, 0], 3);
    assert_eq!(indices, vec![0, 1, 2]);
    let distances: Vec<f64> = distances.iter().map(|d| (*d as f64).sqrt()).collect();
    assert_eq!(distances, vec![0.0, 2_f64.sqrt(), 8_f64.sqrt()]);
}

#[test]
fn query_radius_test_query() {
    let points = diagonal(10);
    let tree = SRTree::euclidean_with_params(&points, Params::new(2, 5).unwrap())
        .expect("Failed to build SRTree");
    let mut indices = tree.query_radius(&[0, 0], 8);
    indices.sort();
    assert_eq!(indices, vec![0, 1, 2]);
}

#[test]
fn query_from_far_corner() {
    let points = diagonal(5);
    let tree = SRTree::euclidean(&points).unwrap();
    let (indices, distances) = tree.query(&[8, 8], 3);
    assert_eq!(indices, vec![4, 3, 2]);
    assert_eq!(distances, vec![32, 50, 72]);
}

#[test]
fn query_edge_cases() {
    let points = diagonal(10);
    let tree = SRTree::euclidean_with_params(&points, Params::new(2, 5).unwrap()).unwrap();
    assert_eq!(tree.query(&[0, 0], 0), (vec![], vec![]));
    let (all, _) = tree.query(&[0, 0], 50);
    // equal distances come by index
    let (tied, d) = tree.query(&[5, 4], 2);
    assert_eq!(tied, vec![4, 5]);
    assert_eq!(d, vec![1, 1]);
    assert_eq!(all, (0..10).collect::<Vec<usize>>());
    assert_eq!(tree.query(&[0, 0, 0], 3), (vec![], vec![]));
    assert!(tree.query_radius(&[0], 100).is_empty());
    assert!(tree.query_radius(&[100, 100], 0).is_empty());
    assert_eq!(tree.query_radius(&[3, 3], 0), vec![3]);
}

#[test]
fn query_is_repeatable() {
    let points = diagonal(40);
    let tree = SRTree::euclidean_with_params(&points, Params::new(2, 5).unwrap()).unwrap();
    assert_eq!(tree.query(&[7, 9], 6), tree.query(&[7, 9], 6));
}

#[test]
fn shape_introspection() {
    let points = diagonal(10);
    let tree = SRTree::euclidean_with_params(&points, Params::new(2, 5).unwrap()).unwrap();
    assert_eq!(tree.num_nodes(), 3);
    assert_eq!(tree.num_points(), 10);
    assert_eq!(tree.num_leaves(), 2);
    assert_eq!(tree.height(), 2);
    assert_eq!(tree.children_of(2), Some(&vec![0, 1]));
    assert_eq!(tree.children_of(0), None);
    assert_eq!(tree.points_of(0).len(), 5);
    assert_eq!(tree.nodes[0].parent_index, 2);
    assert_eq!(tree.nodes[2].parent_index, usize::MAX);
    assert_eq!(tree.radius_of(0), 8);
    assert_eq!(tree.compare_nodes(0, 1), Some(std::cmp::Ordering::Equal));
    assert_eq!(tree.compare_nodes(0, 2), Some(std::cmp::Ordering::Less));
    // leaf balls of radius sqrt(8) around (7, 7) and (2, 2): floor(sqrt(50)) - 3 - 3 = 1
    assert_eq!(tree.node_distance_lower_bound(0, 1), 1);
    assert_eq!(tree.node_distance_lower_bound(0, 2), 0);
}

#[test]
fn leaf_points_by_descending_radius() {
    let pts = vec![vec![0, 0], vec![5, 5], vec![1, 1], vec![9, 9], vec![4, 4]];
    let tree = SRTree::euclidean(&pts).unwrap();
    let leaf = tree.points_of(0);
    let radii: Vec<u128> = leaf.iter().map(|i| tree.points[*i].radius_sq).collect();
    for w in radii.windows(2) {
        assert!(w[0] >= w[1]);
    }
    let center = &tree.nodes[0].sphere.center.coords;
    assert_eq!(center, &vec![3, 3]);
    for i in leaf {
        assert_eq!(tree.points[*i].radius_sq, sq(center, &tree.points[*i].coords));
        assert_eq!(tree.points[*i].parent_index, 0);
    }
}

fn random_points(n: usize, scale: i32) -> Vec<Vec<i32>> {
    let mut rng = rand::thread_rng();
    let mut pts = Vec::new();
    for _ in 0..n {
        let mut point_coords = Vec::new();
        for _ in 0..2 {
            point_coords.push(rng.gen_range(0..scale));
        }
        pts.push(point_coords);
    }
    pts
}

#[test]
fn test_query_test_with_random_points() {
    let k = 10;
    let pts = random_points(1000, 1_000_000);
    let bulk_tree = SRTree::euclidean(&pts).expect("Failed to build SRTree");
    let mut points = pts.clone();
    for p in pts.iter() {
        let (bulk_indices, bulk_distances) = bulk_tree.query(p, k);
        assert_eq!(bulk_indices.len(), k);
        points.sort_by_key(|a| sq(a, p));
        for i in 0..k {
            assert_eq!(bulk_distances[i], sq(&points[i], p));
        }
    }
}

#[test]
fn test_bulk_load_test_with_random_points() {
    let k = 10;
    let pts = random_points(1000, 1_000_000);
    let bulk_tree = SRTree::euclidean(&pts).unwrap();
    for p in pts.iter() {
        let (result_bulk, _) = bulk_tree.query(p, k);
        assert_eq!(result_bulk.len(), k);
        let mut order: Vec<usize> = (0..pts.len()).collect();
        order.sort_by_key(|i| (sq(&pts[*i], p), *i));
        for i in 0..k {
            assert_eq!(result_bulk[i], order[i]);
        }
    }
}

#[test]
fn test_query_radius_test_with_random_points() {
    let radius: u128 = 10_000;
    let pts = random_points(1000, 100_000);
    let bulk_tree = SRTree::euclidean(&pts).expect("Failed to build SRTree");
    for p in pts.iter() {
        let mut result = bulk_tree.query_radius(p, radius * radius);
        result.sort();
        let mut brute_force_result = Vec::new();
        for (index, point) in pts.iter().enumerate() {
            if sq(point, p) <= radius * radius {
                brute_force_result.push(index);
            }
        }
        assert_eq!(result, brute_force_result);
    }
}

#[test]
fn coincident_points() {
    let pts: Vec<Vec<i32>> = (0..50).map(|_| vec![3, 3]).collect();
    let tree = SRTree::euclidean(&pts).unwrap();
    assert_eq!(tree.num_points(), 50);
    let (indices, distances) = tree.query(&[0, 0], 5);
    assert_eq!(indices, vec![0, 1, 2, 3, 4]);
    assert_eq!(distances, vec![18; 5]);
    let mut within = tree.query_radius(&[3, 3], 0);
    within.sort();
    assert_eq!(within, (0..50).collect::<Vec<usize>>());
    for n in 0..tree.num_nodes() {
        assert_eq!(tree.radius_of(n), 0);
    }
}

#[test]
fn negative_and_wide_coordinates() {
    let pts = vec![
        vec![i32::MIN, i32::MAX],
        vec![i32::MAX, i32::MIN],
        vec![0, 0],
        vec![-1, 1],
    ];
    let tree = SRTree::euclidean_with_params(&pts, Params::new(1, 2).unwrap()).unwrap();
    let (indices, distances) = tree.query(&[0, 0], 2);
    assert_eq!(indices, vec![2, 3]);
    assert_eq!(distances, vec![0, 2]);
    let (far, _) = tree.query(&[i32::MAX, i32::MIN], 1);
    assert_eq!(far, vec![1]);
    let mut all = tree.query_radius(&[0, 0], u128::MAX);
    all.sort();
    assert_eq!(all, vec![0, 1, 2, 3]);
}

#[test]
fn shallow_tree_hangs_leaves_from_root() {
    let pts: Vec<Vec<i32>> = (0..9).map(|i| vec![i, 0]).collect();
    let tree = SRTree::euclidean_with_params(&pts, Params::new(2, 5).unwrap()).unwrap();
    // 9 points with leaf capacity 5: groups of 4, 4 and 1 under one root
    assert_eq!(tree.num_nodes(), 4);
    assert_eq!(tree.height(), 2);
    for n in 0..tree.num_nodes() {
        if n != tree.root_index {
            assert!(tree.nodes[n].is_leaf());
            assert_eq!(tree.nodes[n].parent_index, tree.root_index);
        }
    }
}

#[test]
fn manhattan_tree_queries() {
    let points = diagonal(5);
    let tree = SRTree::default(&points, srtree::Manhattan::new()).expect("Failed to build SRTree");
    let (indices, distances) = tree.query(&[8, 8], 3);
    assert_eq!(indices, vec![4, 3, 2]);
    assert_eq!(distances, vec![8, 10, 12]);
    let mut within = tree.query_radius(&[0, 0], 4);
    within.sort();
    assert_eq!(within, vec![0, 1, 2]);
}

#[test]
fn manhattan_tree_matches_brute_force() {
    let pts = random_points(600, 10_000);
    let tree = SRTree::new(&pts, Params::new(3, 6).unwrap(), srtree::Manhattan::new()).unwrap();
    let l1 = |a: &[i32], b: &[i32]| -> u128 {
        a.iter().zip(b).map(|(x, y)| (*x as i64 - *y as i64).unsigned_abs() as u128).sum()
    };
    for p in pts.iter().take(100) {
        let (idx, d) = tree.query(p, 7);
        let mut order: Vec<usize> = (0..pts.len()).collect();
        order.sort_by_key(|i| (l1(&pts[*i], p), *i));
        assert_eq!(idx, order[..7].to_vec());
        for i in 0..7 {
            assert_eq!(d[i], l1(&pts[idx[i]], p));
        }
        let mut r = tree.query_radius(p, 500);
        r.sort();
        let brute: Vec<usize> = (0..pts.len()).filter(|i| l1(&pts[*i], p) <= 500).collect();
        assert_eq!(r, brute);
    }
}
