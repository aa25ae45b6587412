use hnsw::Neighbor;
use std::cmp::Ordering;

#[test]
fn closer_neighbor_orders_first_whatever_the_identifiers() {
    let a = Neighbor { index: 900, distance: 3 };
    let b = Neighbor { index: 1, distance: 4 };
    assert_eq!(a.compare_distance(&b), Ordering::Less);
    assert_eq!(b.compare_distance(&a), Ordering::Greater);
    assert!(a.closer_than(&b));
    assert!(!b.closer_than(&a));
}

#[test]
fn equal_distances_compare_equal() {
    let a = Neighbor { index: 5, distance: 7 };
    let b = Neighbor { index: 6, distance: 7 };
    assert_eq!(a.compare_distance(&b), Ordering::Equal);
    assert_eq!(b.compare_distance(&a), Ordering::Equal);
    assert!(!a.closer_than(&b));
    assert!(!b.closer_than(&a));
    // they are still different neighbours
    assert_ne!(a, b);
}

#[test]
fn extreme_distances_compare() {
    let near = Neighbor { index: usize::MAX, distance: 0 };
    let far = Neighbor { index: 0, distance: u64::MAX };
    assert_eq!(near.compare_distance(&far), Ordering::Less);
    assert_eq!(far.compare_distance(&far), Ordering::Equal);
}
