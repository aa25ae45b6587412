use hnsw::level::{draw, height, INITIAL_STATE, MAX_DEGREE, MAX_DEGREE_ZERO, MAX_HEIGHT};
use hnsw::{Hnsw, Metric, Neighbor, Params, Searcher, SquaredEuclidean};

type Index = Hnsw<Vec<i32>, SquaredEuclidean>;

fn n(index: usize, distance: u64) -> Neighbor {
    Neighbor { index, distance }
}

/// Points on a pseudo-random walk through the plane, from a small generator
/// of their own.
fn cloud(count: usize, seed: u64, spread: i32) -> Vec<Vec<i32>> {
    let mut s = seed;
    let mut out = Vec::new();
    for _ in 0..count {
        s = s.wrapping_mul(6364136223846793005).wrapping_add(1442695040888963407);
        let x = ((s >> 33) % (2 * spread as u64 + 1)) as i32 - spread;
        s = s.wrapping_mul(6364136223846793005).wrapping_add(1442695040888963407);
        let y = ((s >> 33) % (2 * spread as u64 + 1)) as i32 - spread;
        out.push(vec![x, y]);
    }
    out
}

fn build(points: &[Vec<i32>], params: Params) -> Index {
    let mut g = Hnsw::new_params(SquaredEuclidean, params);
    let mut s = Searcher::new();
    for (i, p) in points.iter().enumerate() {
        assert_eq!(g.insert(p.clone(), &mut s), i);
    }
    g
}

/// Checks everything the index promises of its own shape.
fn assert_shape(g: &Index) {
    let count = g.len();
    if count == 0 {
        return;
    }
    let entry = g.entry_point();
    assert!(entry < count);
    let top = g.layers_of(entry);
    for i in 0..count {
        let layers = g.layers_of(i);
        assert!(layers >= 1 && layers <= MAX_HEIGHT + 1);
        assert!(layers <= top);
        if i < entry {
            assert!(layers < top);
        }
        for l in 0..layers {
            let list = g.neighbors(i, l);
            let cap = if l == 0 { MAX_DEGREE_ZERO } else { MAX_DEGREE };
            assert!(list.len() <= cap, "node {} layer {} has {} edges", i, l, list.len());
            for (j, e) in list.iter().enumerate() {
                assert!(e.index < count);
                assert_ne!(e.index, i);
                assert!(l < g.layers_of(e.index));
                assert_eq!(e.distance, g.distance_between(i, e.index));
                if j > 0 {
                    assert!(list[j - 1].distance <= e.distance);
                }
                for f in &list[..j] {
                    assert_ne!(f.index, e.index);
                }
            }
        }
    }
}

fn brute(points: &[Vec<i32>], q: &Vec<i32>, k: usize) -> Vec<u64> {
    let m = SquaredEuclidean;
    let mut d: Vec<u64> = points.iter().map(|p| m.distance(q, p)).collect();
    d.sort();
    d.truncate(k);
    d
}

#[test]
fn empty_index_answers_with_nothing() {
    let g: Index = Hnsw::new(SquaredEuclidean);
    let mut s = Searcher::new();
    assert_eq!(g.len(), 0);
    assert!(g.is_empty());
    assert_eq!(g.search(&vec![1, 2], 1, 10, &mut s), vec![]);
    assert_eq!(g.search(&vec![1, 2], 5, 0, &mut s), vec![]);
    assert_eq!(g.search(&vec![1, 2], 0, 0, &mut s), vec![]);
}

#[test]
fn single_point_is_its_own_nearest_neighbor() {
    let mut g: Index = Hnsw::new(SquaredEuclidean);
    let mut s = Searcher::new();
    assert_eq!(g.insert(vec![4, -4], &mut s), 0);
    assert_eq!(g.len(), 1);
    assert!(!g.is_empty());
    assert_eq!(g.entry_point(), 0);
    assert_eq!(g.feature(0), &vec![4, -4]);
    assert_eq!(g.search(&vec![4, -4], 1, 1, &mut s), vec![n(0, 0)]);
    assert_eq!(g.search(&vec![4, -4], 3, 10, &mut s), vec![n(0, 0)]);
    assert_eq!(g.search(&vec![0, 0], 1, 1, &mut s), vec![n(0, 32)]);
    assert_shape(&g);
}

#[test]
fn asking_for_no_results_gives_none() {
    let g = build(&cloud(30, 1, 100), Params::new());
    let mut s = Searcher::new();
    assert_eq!(g.search(&vec![0, 0], 0, 10, &mut s), vec![]);
    assert_eq!(g.search(&vec![0, 0], 0, 0, &mut s), vec![]);
}

#[test]
fn four_points_in_the_plane() {
    let points = vec![vec![0, 0], vec![1, 0], vec![0, 1], vec![10, 10]];
    let g = build(&points, Params::new());
    let mut s = Searcher::new();
    assert_eq!(g.len(), 4);
    assert_eq!(g.search(&vec![0, 0], 1, 10, &mut s), vec![n(0, 0)]);
    assert_eq!(
        g.search(&vec![0, 0], 3, 10, &mut s),
        vec![n(0, 0), n(1, 1), n(2, 1)]
    );
    assert_eq!(
        g.search(&vec![0, 0], 4, 10, &mut s),
        vec![n(0, 0), n(1, 1), n(2, 1), n(3, 200)]
    );
    assert_eq!(g.search(&vec![9, 9], 1, 10, &mut s), vec![n(3, 2)]);
    assert_shape(&g);
}

#[test]
fn later_points_link_to_the_one_that_hides_the_others() {
    let points = vec![vec![0, 0], vec![3, 0], vec![0, 5], vec![-7, -7]];
    let g = build(&points, Params::new());
    // seen from each later point, the first lies in front of all the others
    assert_eq!(g.neighbors(0, 0), &vec![n(1, 9), n(2, 25), n(3, 98)]);
    assert_eq!(g.neighbors(1, 0), &vec![n(0, 9)]);
    assert_eq!(g.neighbors(2, 0), &vec![n(0, 25)]);
    assert_eq!(g.neighbors(3, 0), &vec![n(0, 98)]);
    assert_shape(&g);
}

/// The origin of a space of `dims` dimensions, followed by one point on each
/// axis, ten units out.
fn star(dims: usize) -> Vec<Vec<i32>> {
    let mut points = vec![vec![0; dims]];
    for i in 0..dims {
        let mut p = vec![0; dims];
        p[i] = 10;
        points.push(p);
    }
    points
}

#[test]
fn full_list_is_cut_back_to_the_degree_bound() {
    let points = star(30);
    let mut g: Index = Hnsw::new(SquaredEuclidean);
    let mut s = Searcher::new();
    for (i, p) in points.iter().enumerate() {
        assert_eq!(g.insert(p.clone(), &mut s), i);
        let hub = g.neighbors(0, 0);
        // every point on an axis is linked to the origin, which keeps the
        // first twenty-four of them
        let expect: Vec<Neighbor> = (1..=i.min(MAX_DEGREE_ZERO)).map(|j| n(j, 100)).collect();
        assert_eq!(hub, &expect);
        if i > 0 {
            assert_eq!(g.neighbors(i, 0), &vec![n(0, 100)]);
        }
    }
    assert_shape(&g);
}

#[test]
fn a_point_that_no_edge_leads_to_is_not_found() {
    let points = star(30);
    let g = build(&points, Params::new());
    // the origin dropped its edge to the twenty-fifth point on an axis, which
    // lies in the lowest layer only
    assert_eq!(g.layers_of(25), 1);
    for i in 0..g.len() {
        for l in 0..g.layers_of(i) {
            assert!(g.neighbors(i, l).iter().all(|e| e.index != 25));
        }
    }
    assert_ne!(g.entry_point(), 25);
    let mut s = Searcher::new();
    for ef in [1usize, 10, 100, 400] {
        let found = g.search(&points[25], 1, ef, &mut s);
        assert_eq!(found.len(), 1);
        assert_ne!(found[0].index, 25);
        assert!(found[0].distance > 0);
    }
    // a point it kept is found
    for ef in [1usize, 10, 100, 400] {
        assert_eq!(g.search(&points[24], 1, ef, &mut s), vec![n(24, 0)]);
    }
}

#[test]
fn selection_rule_skips_a_candidate_behind_a_chosen_one() {
    // three points on a line: from the third, the second hides the first
    let points = vec![vec![0, 0], vec![10, 0], vec![20, 0]];
    let g = build(&points, Params::new());
    assert_eq!(g.neighbors(2, 0), &vec![n(1, 100)]);
    assert_eq!(g.neighbors(1, 0), &vec![n(0, 100), n(2, 100)]);
    assert_eq!(g.neighbors(0, 0), &vec![n(1, 100)]);
    let mut s = Searcher::new();
    assert_eq!(
        g.search(&vec![21, 0], 3, 3, &mut s),
        vec![n(2, 1), n(1, 121), n(0, 441)]
    );
    assert_shape(&g);
}

#[test]
fn select_picks_by_the_rule() {
    let points = vec![vec![0, 0], vec![10, 0], vec![20, 0], vec![0, 10], vec![11, 0]];
    let g = build(&points, Params::new());
    // candidates as seen from (21, 0): 2 at 1, 4 at 100, 1 at 121, 0 at 441, 3 at 541
    let pool = vec![n(2, 1), n(4, 100), n(1, 121), n(0, 441), n(3, 541)];
    // 4 is at 81 from 2, closer than 100: skipped; so are 1 and 0; 3 is at
    // 500 from 2, closer than 541: skipped
    assert_eq!(g.select(&pool, 24), vec![n(2, 1)]);
    // as seen from (0, 11): 3 at 1, 0 at 121, 1 at 221, 4 at 242, 2 at 521
    let pool = vec![n(3, 1), n(0, 121), n(1, 221), n(4, 242), n(2, 521)];
    // 0 is at 100 from 3: skipped; 1 is at 200 from 3: skipped; 4 is at 221
    // from 3: skipped; 2 is at 500 from 3: skipped
    assert_eq!(g.select(&pool, 24), vec![n(3, 1)]);
    // a pool seen from (5, 5): all four corners equally far
    let pool = vec![n(0, 50), n(1, 50), n(3, 50)];
    assert_eq!(g.select(&pool, 24), vec![n(0, 50), n(1, 50), n(3, 50)]);
    assert_eq!(g.select(&pool, 2), vec![n(0, 50), n(1, 50)]);
    assert_eq!(g.select(&pool, 0), vec![]);
    assert_eq!(g.select(&vec![], 5), vec![]);
}

#[test]
fn identical_points_get_distinct_identifiers() {
    let mut g: Index = Hnsw::new(SquaredEuclidean);
    let mut s = Searcher::new();
    let a = g.insert(vec![5, 5], &mut s);
    let b = g.insert(vec![5, 5], &mut s);
    let c = g.insert(vec![6, 5], &mut s);
    assert_eq!((a, b, c), (0, 1, 2));
    assert_eq!(g.len(), 3);
    let found = g.search(&vec![5, 5], 2, 10, &mut s);
    assert_eq!(found, vec![n(0, 0), n(1, 0)]);
    let found = g.search(&vec![5, 5], 3, 10, &mut s);
    assert_eq!(found, vec![n(0, 0), n(1, 0), n(2, 1)]);
    assert_shape(&g);
}

#[test]
fn many_identical_points_respect_the_degree_bounds() {
    let mut g: Index = Hnsw::new(SquaredEuclidean);
    let mut s = Searcher::new();
    for i in 0..200 {
        assert_eq!(g.insert(vec![1, 1], &mut s), i);
    }
    assert_shape(&g);
    let found = g.search(&vec![1, 1], 10, 50, &mut s);
    assert_eq!(found.len(), 10);
    for f in &found {
        assert_eq!(f.distance, 0);
    }
}

#[test]
fn shape_holds_after_every_insertion() {
    let points = cloud(300, 7, 40);
    let mut g: Index = Hnsw::new_params(SquaredEuclidean, Params::new().ef_construction(32));
    let mut s = Searcher::new();
    for (i, p) in points.iter().enumerate() {
        assert_eq!(g.insert(p.clone(), &mut s), i);
        if i % 25 == 0 {
            assert_shape(&g);
        }
    }
    assert_shape(&g);
}

#[test]
fn heights_follow_the_generator() {
    let points = cloud(500, 3, 1000);
    let g = build(&points, Params::new().ef_construction(16));
    let mut state = INITIAL_STATE;
    let mut top = 0usize;
    let mut entry = 0usize;
    for i in 0..points.len() {
        let h = height(draw(&mut state));
        assert_eq!(g.layers_of(i), h + 1);
        if i == 0 || h > top {
            top = h;
            entry = i;
        }
    }
    assert_eq!(g.entry_point(), entry);
    assert!(top >= 1);
    assert_eq!(g.peek_height(), height(draw(&mut state)));
    assert_shape(&g);
}

#[test]
fn answers_are_sorted_distinct_and_carry_true_distances() {
    let points = cloud(400, 11, 500);
    let g = build(&points, Params::new().ef_construction(64));
    let mut s = Searcher::new();
    let m = SquaredEuclidean;
    for q in cloud(40, 99, 500) {
        for (k, ef) in [(1usize, 1usize), (5, 5), (10, 40), (7, 2)] {
            let found = g.search(&q, k, ef, &mut s);
            assert!(found.len() <= k);
            assert!(!found.is_empty());
            for (j, f) in found.iter().enumerate() {
                assert!(f.index < points.len());
                assert_eq!(f.distance, m.distance(&q, &points[f.index]));
                if j > 0 {
                    assert!(found[j - 1].distance <= f.distance);
                }
                for e in &found[..j] {
                    assert_ne!(e.index, f.index);
                }
            }
            assert!(found[0].distance <= g.distance_to(&q, g.entry_point()));
        }
    }
}

#[test]
fn answers_are_closed_under_the_edges_of_the_lowest_layer() {
    let points = cloud(400, 5, 300);
    let g = build(&points, Params::new().ef_construction(32));
    let mut s = Searcher::new();
    for q in cloud(40, 77, 300) {
        for (k, ef) in [(1usize, 1usize), (3, 3), (8, 8), (5, 30)] {
            let found = g.search(&q, k, ef, &mut s);
            let last = found[found.len() - 1].distance;
            for f in &found {
                for e in g.neighbors(f.index, 0) {
                    let named = found.iter().any(|x| x.index == e.index);
                    assert!(
                        named || (found.len() == k && g.distance_to(&q, e.index) >= last),
                        "neighbour {} of {} is closer than the answer",
                        e.index,
                        f.index
                    );
                }
            }
        }
    }
}

#[test]
fn narrow_beam_is_widened_to_the_number_of_results() {
    let points = cloud(200, 21, 200);
    let g = build(&points, Params::new().ef_construction(50));
    let mut s = Searcher::new();
    for q in cloud(10, 5, 200) {
        let narrow = g.search(&q, 10, 0, &mut s);
        let exact = g.search(&q, 10, 10, &mut s);
        assert_eq!(narrow.len(), 10);
        assert_eq!(narrow, exact);
        let one = g.search(&q, 10, 1, &mut s);
        assert_eq!(one, exact);
    }
}

#[test]
fn wide_beam_finds_the_true_nearest_neighbors() {
    let points = cloud(300, 42, 1000);
    let g = build(&points, Params::new());
    let mut s = Searcher::new();
    for q in cloud(50, 43, 1000) {
        let found = g.search(&q, 10, 300, &mut s);
        let distances: Vec<u64> = found.iter().map(|f| f.distance).collect();
        assert_eq!(distances, brute(&points, &q, 10));
    }
}

#[test]
fn every_point_finds_itself_in_a_small_cloud() {
    let points = cloud(250, 8, 100_000);
    let g = build(&points, Params::new());
    let mut s = Searcher::new();
    for (i, p) in points.iter().enumerate() {
        let found = g.search(p, 1, 50, &mut s);
        assert_eq!(found.len(), 1);
        assert_eq!(found[0].distance, 0);
        // points of the cloud may coincide; the one found is at the same place
        assert_eq!(&points[found[0].index], &points[i]);
    }
}

#[test]
fn reused_workspace_answers_as_a_fresh_one() {
    let points = cloud(300, 13, 400);
    let g = build(&points, Params::new().ef_construction(40));
    let mut reused = Searcher::new();
    for (i, q) in cloud(60, 14, 400).iter().enumerate() {
        let k = 1 + i % 7;
        let ef = 1 + (i * 5) % 23;
        reused.clear();
        let a = g.search(q, k, ef, &mut reused);
        let mut fresh = Searcher::new();
        let b = g.search(q, k, ef, &mut fresh);
        assert_eq!(a, b);
        // and without clearing in between
        let c = g.search(q, k, ef, &mut reused);
        assert_eq!(a, c);
    }
}

#[test]
fn workspace_left_in_any_state_does_not_change_the_answer() {
    let points = cloud(100, 2, 50);
    let g = build(&points, Params::new());
    let mut dirty = Searcher::new();
    for id in 0..40usize {
        assert!(dirty.visit(id));
        assert!(dirty.offer(n(id, id as u64), 100));
    }
    let q = vec![3, 3];
    let a = g.search(&q, 5, 20, &mut dirty);
    let b = g.search(&q, 5, 20, &mut Searcher::new());
    assert_eq!(a, b);
}

#[test]
fn building_is_reproducible() {
    let points = cloud(150, 17, 300);
    let a = build(&points, Params::new().ef_construction(20));
    let b = build(&points, Params::new().ef_construction(20));
    assert_eq!(a.entry_point(), b.entry_point());
    for i in 0..a.len() {
        assert_eq!(a.layers_of(i), b.layers_of(i));
        for l in 0..a.layers_of(i) {
            assert_eq!(a.neighbors(i, l), b.neighbors(i, l));
        }
    }
}

#[test]
fn recall_does_not_shrink_with_a_wider_beam_on_a_cloud() {
    let points = cloud(400, 23, 2000);
    let g = build(&points, Params::new().ef_construction(24));
    let mut s = Searcher::new();
    let k = 10;
    let mut hits = Vec::new();
    for ef in [10usize, 20, 40, 80, 160, 400] {
        let mut total = 0usize;
        for q in cloud(60, 24, 2000) {
            let truth = brute(&points, &q, k);
            let worst = truth[truth.len() - 1];
            let found = g.search(&q, k, ef, &mut s);
            total += found.iter().filter(|f| f.distance <= worst).count();
        }
        hits.push(total);
    }
    for w in hits.windows(2) {
        assert!(w[0] <= w[1], "hits fell from {} to {}", w[0], w[1]);
    }
    assert_eq!(hits[hits.len() - 1], 600);
}

#[test]
fn plan_leaves_the_graph_as_it_is() {
    let points = cloud(60, 31, 100);
    let g = build(&points, Params::new());
    let mut s = Searcher::new();
    let lists = g.plan(&vec![0, 0], 2, &mut s);
    assert_eq!(lists.len(), 3);
    assert!(!lists[0].is_empty());
    assert!(lists[0].len() <= MAX_DEGREE_ZERO);
    // the closest point of all is the first edge planned
    let truth = brute(&points, &vec![0, 0], 1);
    assert_eq!(lists[0][0].distance, truth[0]);
    assert_eq!(g.len(), 60);
    assert_shape(&g);
}

#[test]
fn plan_in_an_empty_graph_has_no_edges() {
    let g: Index = Hnsw::new(SquaredEuclidean);
    let mut s = Searcher::new();
    let lists = g.plan(&vec![0, 0], 3, &mut s);
    assert_eq!(lists, vec![vec![], vec![], vec![], vec![]]);
}

#[test]
fn link_places_the_edge_by_distance_behind_its_equals() {
    let points = vec![vec![0, 0], vec![3, 0], vec![0, 5], vec![-7, -7], vec![0, -3]];
    let mut g: Index = Hnsw::new(SquaredEuclidean);
    let mut s = Searcher::new();
    for p in &points[..4] {
        g.insert(p.clone(), &mut s);
    }
    assert_eq!(g.neighbors(0, 0), &vec![n(1, 9), n(2, 25), n(3, 98)]);
    g.insert(points[4].clone(), &mut s);
    // the new point is as far from the first as the second is
    assert_eq!(g.neighbors(0, 0), &vec![n(1, 9), n(4, 9), n(2, 25), n(3, 98)]);
    assert_shape(&g);
}

#[test]
fn greedy_walk_ends_where_no_neighbor_is_closer() {
    let points = cloud(200, 3, 500);
    let g = build(&points, Params::new().ef_construction(30));
    for q in cloud(20, 4, 500) {
        let entry = g.entry_point();
        let start = n(entry, g.distance_to(&q, entry));
        let end = g.greedy(&q, start, 0);
        assert!(end.distance <= start.distance);
        assert_eq!(end.distance, g.distance_to(&q, end.index));
        for e in g.neighbors(end.index, 0) {
            assert!(g.distance_to(&q, e.index) >= end.distance);
        }
        let next = g.closest_neighbor(&q, end, 0);
        assert_eq!(next, end);
        let top = g.layers_of(entry) - 1;
        let low = g.descend(&q, start, top, 0);
        assert!(low.distance <= start.distance);
    }
}

#[test]
fn beam_fills_the_workspace_with_the_closest_found() {
    let points = cloud(120, 9, 200);
    let g = build(&points, Params::new());
    let mut s = Searcher::new();
    let q = vec![10, -10];
    let entry = g.entry_point();
    g.beam(&q, n(entry, g.distance_to(&q, entry)), 0, 120, &mut s);
    // wide enough to hold every point: all of them are found
    assert_eq!(s.best_len(), 120);
    let all = s.take_best(120);
    let distances: Vec<u64> = all.iter().map(|f| f.distance).collect();
    assert_eq!(distances, brute(&points, &q, 120));
}

#[test]
fn wider_beam_never_answers_worse_at_any_rank() {
    for seed in 0..6u64 {
        let points = cloud(60, seed * 3 + 1, 40);
        let g = build(&points, Params::new().ef_construction(3));
        let mut s = Searcher::new();
        for q in cloud(40, seed * 7 + 5, 40) {
            for k in [1usize, 2, 3, 6] {
                let mut narrow = g.search(&q, k, 0, &mut s);
                for ef in 1..16 {
                    let wide = g.search(&q, k, ef, &mut s);
                    assert!(wide.len() >= narrow.len());
                    for j in 0..narrow.len() {
                        assert!(wide[j].distance <= narrow[j].distance);
                    }
                    narrow = wide;
                }
            }
        }
    }
}

#[test]
fn point_reached_along_a_chain_is_found_first() {
    let points = vec![vec![0, 0], vec![10, 0], vec![20, 0], vec![30, 0]];
    let g = build(&points, Params::new());
    let mut s = Searcher::new();
    // the entry itself
    assert_eq!(g.entry_point(), 0);
    assert_eq!(g.search(&points[0], 1, 1, &mut s), vec![n(0, 0)]);
    // the last point is reached along the chain
    assert_eq!(g.neighbors(2, 0), &vec![n(1, 100), n(3, 100)]);
    assert_eq!(g.search(&points[3], 1, 1, &mut s), vec![n(3, 0)]);
}
