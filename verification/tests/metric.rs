use hnsw::{Metric, SquaredEuclidean};

#[test]
fn squared_distance_of_a_three_four_triangle() {
    let m = SquaredEuclidean;
    assert_eq!(m.distance(&vec![0, 0], &vec![3, 4]), 25);
    assert_eq!(m.distance(&vec![3, 4], &vec![0, 0]), 25);
}

#[test]
fn a_point_is_at_distance_zero_from_itself() {
    let m = SquaredEuclidean;
    let p = vec![7, -3, 12, i32::MIN, i32::MAX];
    assert_eq!(m.distance(&p, &p), 0);
    assert_eq!(m.distance(&vec![], &vec![]), 0);
}

#[test]
fn negative_coordinates() {
    let m = SquaredEuclidean;
    assert_eq!(m.distance(&vec![-1, -1], &vec![1, 1]), 8);
    assert_eq!(m.distance(&vec![-5], &vec![5]), 100);
}

#[test]
fn only_shared_coordinates_count() {
    let m = SquaredEuclidean;
    assert_eq!(m.distance(&vec![1, 2, 3], &vec![1, 2]), 0);
    assert_eq!(m.distance(&vec![0], &vec![2, 100]), 4);
    assert_eq!(m.distance(&vec![], &vec![2, 100]), 0);
}

#[test]
fn widest_single_gap_fits() {
    let m = SquaredEuclidean;
    // (2^32 - 1)^2
    assert_eq!(m.distance(&vec![i32::MIN], &vec![i32::MAX]), 18446744065119617025);
}

#[test]
fn sum_is_held_at_the_maximum() {
    let m = SquaredEuclidean;
    assert_eq!(
        m.distance(&vec![i32::MIN, i32::MIN], &vec![i32::MAX, i32::MAX]),
        u64::MAX
    );
    assert_eq!(
        m.distance(&vec![i32::MIN, 0, i32::MIN], &vec![i32::MAX, 1, i32::MAX]),
        u64::MAX
    );
}
