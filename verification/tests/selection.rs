use knn::select::{copy_point, nth_element, swap_rows};
use knn::tree::is_uniform;

fn column(points: &Vec<Vec<i64>>, axis: usize) -> Vec<i64> {
    points.iter().map(|p| p[axis]).collect()
}

fn in_order(mut points: Vec<Vec<i64>>) -> Vec<Vec<i64>> {
    points.sort();
    points
}

#[test]
fn median_of_five_along_first_axis() {
    let mut points = vec![vec![5, 0], vec![1, 1], vec![4, 2], vec![2, 3], vec![3, 4]];
    let r = nth_element(&mut points, 0, 5, 0, 2);
    assert_eq!(r, vec![3, 4]);
    assert_eq!(points[2], vec![3, 4]);
    let xs = column(&points, 0);
    assert!(xs[0] <= 3 && xs[1] <= 3 && xs[3] >= 3 && xs[4] >= 3);
    assert_eq!(
        in_order(points),
        vec![vec![1, 1], vec![2, 3], vec![3, 4], vec![4, 2], vec![5, 0]]
    );
}

#[test]
fn selection_along_second_axis() {
    let mut points = vec![vec![0, 9], vec![1, 3], vec![2, 7], vec![3, 1]];
    let r = nth_element(&mut points, 0, 4, 1, 0);
    assert_eq!(r, vec![3, 1]);
    assert_eq!(points[0], vec![3, 1]);
    let r = nth_element(&mut points, 0, 4, 1, 3);
    assert_eq!(r, vec![0, 9]);
    assert_eq!(points[3], vec![0, 9]);
}

#[test]
fn every_order_statistic_agrees_with_sorting() {
    let given = vec![
        vec![8], vec![3], vec![3], vec![-1], vec![12], vec![0], vec![3], vec![7], vec![-5],
    ];
    let mut keys = column(&given, 0);
    keys.sort();
    for n in 0..given.len() {
        let mut points = given.clone();
        let r = nth_element(&mut points, 0, 9, 0, n);
        assert_eq!(r[0], keys[n]);
        assert_eq!(points[n], r);
        for i in 0..n {
            assert!(points[i][0] <= r[0]);
        }
        for i in n + 1..9 {
            assert!(points[i][0] >= r[0]);
        }
        assert_eq!(in_order(points), in_order(given.clone()));
    }
}

#[test]
fn selection_leaves_the_rest_alone() {
    let mut points = vec![vec![9], vec![8], vec![7], vec![6], vec![5], vec![4], vec![3]];
    let r = nth_element(&mut points, 2, 6, 0, 3);
    assert_eq!(r, vec![5]);
    assert_eq!(points[0], vec![9]);
    assert_eq!(points[1], vec![8]);
    assert_eq!(points[6], vec![3]);
    assert_eq!(points[3], vec![5]);
    assert_eq!(points[2], vec![4]);
    assert_eq!(in_order(points[2..6].to_vec()), vec![vec![4], vec![5], vec![6], vec![7]]);
}

#[test]
fn range_of_one_is_returned_untouched() {
    let mut points = vec![vec![3, 3], vec![1, 1], vec![2, 2]];
    let r = nth_element(&mut points, 1, 2, 0, 1);
    assert_eq!(r, vec![1, 1]);
    assert_eq!(points, vec![vec![3, 3], vec![1, 1], vec![2, 2]]);
}

#[test]
fn all_equal_coordinates_are_left_in_place() {
    let mut points = vec![vec![4, 0], vec![4, 1], vec![4, 2], vec![4, 3]];
    let r = nth_element(&mut points, 0, 4, 0, 1);
    assert_eq!(r, vec![4, 1]);
    assert_eq!(points, vec![vec![4, 0], vec![4, 1], vec![4, 2], vec![4, 3]]);
}

#[test]
fn rows_are_exchanged() {
    let mut points = vec![vec![1, 2], vec![3, 4], vec![5, 6]];
    swap_rows(&mut points, 0, 2);
    assert_eq!(points, vec![vec![5, 6], vec![3, 4], vec![1, 2]]);
    swap_rows(&mut points, 1, 1);
    assert_eq!(points, vec![vec![5, 6], vec![3, 4], vec![1, 2]]);
}

#[test]
fn a_copy_has_the_same_coordinates() {
    assert_eq!(copy_point(&vec![4, -9, 0]), vec![4, -9, 0]);
    assert_eq!(copy_point(&Vec::new()), Vec::<i64>::new());
}

#[test]
fn uniform_dimension_is_recognised() {
    assert!(is_uniform(&vec![vec![1, 2], vec![3, 4]], 2));
    assert!(!is_uniform(&vec![vec![1, 2], vec![3, 4]], 3));
    assert!(!is_uniform(&vec![vec![1, 2], vec![3]], 2));
    assert!(is_uniform(&Vec::new(), 5));
}
