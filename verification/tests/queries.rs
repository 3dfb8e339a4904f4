use knn::{KDTree, KdError};

fn squared(p: &Vec<i64>, q: &Vec<i64>) -> i128 {
    let mut sum: i128 = 0;
    for i in 0..p.len() {
        let d = p[i] as i128 - q[i] as i128;
        sum += d * d;
    }
    sum
}

fn sorted(mut points: Vec<Vec<i64>>) -> Vec<Vec<i64>> {
    points.sort();
    points
}

fn exhaustive_distances(points: &Vec<Vec<i64>>, q: &Vec<i64>, k: usize) -> Vec<i128> {
    let mut all: Vec<i128> = points.iter().map(|p| squared(p, q)).collect();
    all.sort();
    all.truncate(k);
    all
}

fn scatter(n: usize, dim: usize, seed: u64, spread: i64) -> Vec<Vec<i64>> {
    let mut state = seed;
    let mut points = Vec::new();
    for _ in 0..n {
        let mut p = Vec::new();
        for _ in 0..dim {
            state = state.wrapping_mul(6364136223846793005).wrapping_add(1442695040888963407);
            p.push(((state >> 33) as i64) % spread - spread / 2);
        }
        points.push(p);
    }
    points
}

#[test]
fn two_nearest_of_four_on_a_diagonal() {
    let points = vec![vec![0, 0], vec![1, 1], vec![2, 2], vec![3, 3]];
    let tree = KDTree::new(points).unwrap();
    let found = tree.k_nearest(&vec![1, 0], 2).unwrap();
    assert_eq!(sorted(found), vec![vec![0, 0], vec![1, 1]]);
}

#[test]
fn one_point_is_all_there_is() {
    let tree = KDTree::new(vec![vec![5]]).unwrap();
    let found = tree.k_nearest(&vec![100], 3).unwrap();
    assert_eq!(found, vec![vec![5]]);
}

#[test]
fn equal_points_are_both_found() {
    let tree = KDTree::new(vec![vec![0, 0], vec![0, 0]]).unwrap();
    let found = tree.k_nearest(&vec![0, 0], 2).unwrap();
    assert_eq!(found, vec![vec![0, 0], vec![0, 0]]);
}

#[test]
fn single_point_answers_every_query() {
    let tree = KDTree::new(vec![vec![7, -3, 2]]).unwrap();
    for k in 1..5 {
        assert_eq!(tree.k_nearest(&vec![0, 0, 0], k).unwrap(), vec![vec![7, -3, 2]]);
        assert_eq!(tree.k_nearest(&vec![-900, 12, 5], k).unwrap(), vec![vec![7, -3, 2]]);
    }
}

#[test]
fn no_neighbour_asked_none_found() {
    let tree = KDTree::new(vec![vec![1, 2], vec![3, 4], vec![5, 6]]).unwrap();
    assert_eq!(tree.k_nearest(&vec![0, 0], 0).unwrap(), Vec::<Vec<i64>>::new());
}

#[test]
fn asking_for_more_than_there_are_finds_all() {
    let points = vec![vec![4, 1], vec![-2, 7], vec![0, 0], vec![9, 9], vec![4, 1]];
    let tree = KDTree::new(points.clone()).unwrap();
    for k in 5..9 {
        let found = tree.k_nearest(&vec![3, 3], k).unwrap();
        assert_eq!(found.len(), 5);
        assert_eq!(sorted(found), sorted(points.clone()));
    }
}

#[test]
fn tree_stores_exactly_the_points_given() {
    let points = scatter(57, 3, 11, 40);
    let tree = KDTree::new(points.clone()).unwrap();
    let found = tree.k_nearest(&vec![0, 0, 0], points.len()).unwrap();
    assert_eq!(sorted(found), sorted(points));
}

#[test]
fn repeated_points_keep_their_number() {
    let points = vec![vec![1, 1], vec![1, 1], vec![1, 1], vec![2, 2], vec![2, 2], vec![0, 5]];
    let tree = KDTree::new(points).unwrap();
    let found = tree.k_nearest(&vec![1, 1], 6).unwrap();
    assert_eq!(found.iter().filter(|p| **p == vec![1, 1]).count(), 3);
    assert_eq!(found.iter().filter(|p| **p == vec![2, 2]).count(), 2);
    assert_eq!(found.iter().filter(|p| **p == vec![0, 5]).count(), 1);
    let nearest = tree.k_nearest(&vec![1, 1], 3).unwrap();
    assert_eq!(nearest, vec![vec![1, 1], vec![1, 1], vec![1, 1]]);
}

#[test]
fn distances_match_exhaustive_comparison() {
    for seed in 1..9u64 {
        for dim in 1..5usize {
            let n = 1 + (seed as usize * 13 + dim * 7) % 70;
            let points = scatter(n, dim, seed * 31 + dim as u64, 25);
            let queries = scatter(6, dim, seed + 1000, 60);
            let tree = KDTree::new(points.clone()).unwrap();
            for q in queries.iter() {
                for k in [1usize, 2, 3, n / 2 + 1, n, n + 3] {
                    let found = tree.k_nearest(q, k).unwrap();
                    let got: Vec<i128> = found.iter().map(|p| squared(p, q)).collect();
                    assert_eq!(got, exhaustive_distances(&points, q, k));
                }
            }
        }
    }
}

#[test]
fn found_points_come_from_the_tree() {
    let points = scatter(40, 2, 5, 12);
    let tree = KDTree::new(points.clone()).unwrap();
    let found = tree.k_nearest(&vec![1, -1], 10).unwrap();
    let mut left = points;
    for p in found.iter() {
        let at = left.iter().position(|x| x == p).unwrap();
        left.remove(at);
    }
    assert_eq!(left.len(), 30);
}

#[test]
fn result_is_nearest_first() {
    let points = vec![vec![10], vec![-4], vec![3], vec![7], vec![0], vec![6]];
    let tree = KDTree::new(points).unwrap();
    let found = tree.k_nearest(&vec![4], 4).unwrap();
    assert_eq!(found, vec![vec![3], vec![6], vec![7], vec![0]]);
}

#[test]
fn far_side_is_searched_when_it_holds_nearer_points() {
    let points = vec![vec![0, 0], vec![10, 0], vec![11, 50], vec![9, 1], vec![20, 20]];
    let tree = KDTree::new(points).unwrap();
    assert_eq!(tree.k_nearest(&vec![9, 0], 1).unwrap(), vec![vec![9, 1]]);
    assert_eq!(tree.k_nearest(&vec![11, 0], 1).unwrap(), vec![vec![10, 0]]);
    assert_eq!(tree.k_nearest(&vec![11, 0], 2).unwrap(), vec![vec![10, 0], vec![9, 1]]);
}

#[test]
fn many_equal_coordinates_along_one_axis() {
    let mut points = Vec::new();
    for y in 0..30 {
        points.push(vec![7, y]);
    }
    let tree = KDTree::new(points).unwrap();
    let found = tree.k_nearest(&vec![7, 12], 3).unwrap();
    assert_eq!(found[0], vec![7, 12]);
    assert_eq!(sorted(found), vec![vec![7, 11], vec![7, 12], vec![7, 13]]);
}

#[test]
fn extreme_coordinates_do_not_overflow() {
    let points = vec![
        vec![i64::MIN, i64::MIN],
        vec![i64::MAX, i64::MAX],
        vec![0, 0],
        vec![i64::MAX, i64::MIN],
    ];
    let tree = KDTree::new(points).unwrap();
    let found = tree.k_nearest(&vec![i64::MAX, i64::MAX], 4).unwrap();
    assert_eq!(
        found,
        vec![
            vec![i64::MAX, i64::MAX],
            vec![0, 0],
            vec![i64::MAX, i64::MIN],
            vec![i64::MIN, i64::MIN],
        ]
    );
    let found = tree.k_nearest(&vec![i64::MIN, i64::MIN + 1], 1).unwrap();
    assert_eq!(found, vec![vec![i64::MIN, i64::MIN]]);
}

#[test]
fn no_points_are_refused() {
    assert_eq!(KDTree::new(Vec::new()).unwrap_err(), KdError::EmptyInput);
}

#[test]
fn ragged_points_are_refused() {
    let r = KDTree::new(vec![vec![1, 2], vec![3], vec![4, 5]]);
    assert_eq!(r.unwrap_err(), KdError::DimensionMismatch);
    let r = KDTree::new(vec![vec![1], vec![3, 4]]);
    assert_eq!(r.unwrap_err(), KdError::DimensionMismatch);
}

#[test]
fn points_without_coordinates_are_refused() {
    let r = KDTree::new(vec![Vec::new(), Vec::new()]);
    assert_eq!(r.unwrap_err(), KdError::DimensionMismatch);
}

#[test]
fn query_of_another_dimension_is_refused() {
    let tree = KDTree::new(vec![vec![1, 2], vec![3, 4]]).unwrap();
    assert_eq!(tree.k_nearest(&vec![1], 1).unwrap_err(), KdError::DimensionMismatch);
    assert_eq!(tree.k_nearest(&vec![1, 2, 3], 1).unwrap_err(), KdError::DimensionMismatch);
    assert_eq!(tree.k_nearest(&vec![1, 2, 3], 0).unwrap_err(), KdError::DimensionMismatch);
    assert!(tree.k_nearest(&vec![1, 2], 1).is_ok());
}

#[test]
fn sorted_input_is_handled() {
    let points: Vec<Vec<i64>> = (0..200).map(|x| vec![x, 2 * x]).collect();
    let tree = KDTree::new(points).unwrap();
    let found = tree.k_nearest(&vec![100, 200], 3).unwrap();
    assert_eq!(found[0], vec![100, 200]);
    assert_eq!(sorted(found), vec![vec![99, 198], vec![100, 200], vec![101, 202]]);
}
