use hnsw::{Neighbor, Searcher};

fn n(index: usize, distance: u64) -> Neighbor {
    Neighbor { index, distance }
}

#[test]
fn new_workspace_is_empty() {
    let mut s = Searcher::new();
    assert_eq!(s.best_len(), 0);
    assert_eq!(s.frontier_len(), 0);
    assert_eq!(s.worst(), None);
    assert_eq!(s.pop_closest(), None);
    assert_eq!(s.take_best(5), vec![]);
}

#[test]
fn visit_tells_new_from_known() {
    let mut s = Searcher::new();
    assert!(s.visit(3));
    assert!(!s.visit(3));
    assert!(s.visit(4));
    assert!(!s.visit(3));
    assert!(!s.visit(4));
}

#[test]
fn offer_keeps_while_there_is_room() {
    let mut s = Searcher::new();
    assert!(s.visit(10));
    assert!(s.offer(n(10, 50), 3));
    assert!(s.visit(11));
    assert!(s.offer(n(11, 70), 3));
    assert!(s.visit(12));
    assert!(s.offer(n(12, 60), 3));
    assert_eq!(s.best_len(), 3);
    assert_eq!(s.frontier_len(), 3);
    assert_eq!(s.worst(), Some(n(11, 70)));
}

#[test]
fn full_beam_takes_only_strictly_closer() {
    let mut s = Searcher::new();
    for (id, d) in [(0usize, 50u64), (1, 70), (2, 60)] {
        assert!(s.visit(id));
        assert!(s.offer(n(id, d), 3));
    }
    // as far as the worst: refused
    assert!(s.visit(3));
    assert!(!s.offer(n(3, 70), 3));
    assert_eq!(s.best_len(), 3);
    assert_eq!(s.frontier_len(), 3);
    assert_eq!(s.worst(), Some(n(1, 70)));
    // farther: refused
    assert!(s.visit(4));
    assert!(!s.offer(n(4, 71), 3));
    // closer: taken, and the worst leaves
    assert!(s.visit(5));
    assert!(s.offer(n(5, 69), 3));
    assert_eq!(s.best_len(), 3);
    assert_eq!(s.frontier_len(), 4);
    assert_eq!(s.worst(), Some(n(5, 69)));
    assert_eq!(s.take_best(3), vec![n(0, 50), n(2, 60), n(5, 69)]);
}

#[test]
fn equal_distances_are_all_kept_in_arrival_order() {
    let mut s = Searcher::new();
    for (id, d) in [(9usize, 5u64), (3, 5), (7, 5), (1, 4)] {
        assert!(s.visit(id));
        assert!(s.offer(n(id, d), 10));
    }
    assert_eq!(s.best_len(), 4);
    assert_eq!(s.take_best(10), vec![n(1, 4), n(9, 5), n(3, 5), n(7, 5)]);
}

#[test]
fn latest_of_equal_worst_leaves_first() {
    let mut s = Searcher::new();
    for (id, d) in [(9usize, 5u64), (3, 5)] {
        assert!(s.visit(id));
        assert!(s.offer(n(id, d), 2));
    }
    assert!(s.visit(1));
    assert!(s.offer(n(1, 4), 2));
    assert_eq!(s.take_best(2), vec![n(1, 4), n(9, 5)]);
}

#[test]
fn pop_closest_takes_the_earliest_of_the_closest() {
    let mut s = Searcher::new();
    for (id, d) in [(0usize, 8u64), (1, 3), (2, 9), (3, 3), (4, 5)] {
        assert!(s.visit(id));
        assert!(s.offer(n(id, d), 10));
    }
    assert_eq!(s.pop_closest(), Some(n(1, 3)));
    assert_eq!(s.pop_closest(), Some(n(3, 3)));
    assert_eq!(s.pop_closest(), Some(n(4, 5)));
    assert_eq!(s.pop_closest(), Some(n(0, 8)));
    assert_eq!(s.pop_closest(), Some(n(2, 9)));
    assert_eq!(s.pop_closest(), None);
    // the best results are untouched by the frontier
    assert_eq!(s.best_len(), 5);
}

#[test]
fn take_best_leaves_the_rest() {
    let mut s = Searcher::new();
    for (id, d) in [(0usize, 8u64), (1, 3), (2, 9), (3, 1)] {
        assert!(s.visit(id));
        assert!(s.offer(n(id, d), 10));
    }
    assert_eq!(s.take_best(0), vec![]);
    assert_eq!(s.best_len(), 4);
    assert_eq!(s.take_best(2), vec![n(3, 1), n(1, 3)]);
    assert_eq!(s.best_len(), 2);
    assert_eq!(s.worst(), Some(n(2, 9)));
    assert_eq!(s.take_best(7), vec![n(0, 8), n(2, 9)]);
    assert_eq!(s.best_len(), 0);
}

#[test]
fn clear_empties_everything() {
    let mut s = Searcher::new();
    for (id, d) in [(0usize, 8u64), (1, 3), (2, 9)] {
        assert!(s.visit(id));
        assert!(s.offer(n(id, d), 10));
    }
    s.clear();
    assert_eq!(s.best_len(), 0);
    assert_eq!(s.frontier_len(), 0);
    assert_eq!(s.worst(), None);
    // identifiers count as new again
    assert!(s.visit(0));
    assert!(s.visit(1));
    assert!(s.offer(n(1, 3), 1));
    assert_eq!(s.take_best(1), vec![n(1, 3)]);
}

#[test]
fn beam_of_width_one_keeps_the_single_closest() {
    let mut s = Searcher::new();
    assert!(s.visit(0));
    assert!(s.offer(n(0, 100), 1));
    assert!(s.visit(1));
    assert!(!s.offer(n(1, 100), 1));
    assert!(s.visit(2));
    assert!(s.offer(n(2, 99), 1));
    assert!(s.visit(3));
    assert!(s.offer(n(3, 0), 1));
    assert_eq!(s.best_len(), 1);
    assert_eq!(s.take_best(4), vec![n(3, 0)]);
}

#[test]
fn default_workspace_is_empty() {
    let mut s = Searcher::default();
    assert_eq!(s.best_len(), 0);
    assert_eq!(s.frontier_len(), 0);
    assert_eq!(s.worst(), None);
    assert!(s.visit(0));
}
