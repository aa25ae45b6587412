//! Traversals of the graph: the greedy descent through the upper layers, the
//! beam search within one layer, and the query built from the two.

use crate::frontier::ranks;
use crate::graph::{by_distance, distinct, names, Hnsw};
use crate::metric::Metric;
use crate::neighbor::{key_lt, key_neighbor, Neighbor};
use crate::searcher::{closest_of, Searcher};
use vstd::prelude::*;

verus! {

/// The width of the beam a query for `k` results runs with when it asks for
/// `ef`: never less than `k`, and never less than one.
pub open spec fn beam_width(k: usize, ef: usize) -> usize {
    if ef < k {
        k
    } else if ef < 1 {
        1
    } else {
        ef
    }
}

impl<P, M: Metric<P>> Hnsw<P, M> {
    /// Whether `n` names a node of `layer` together with its distance from
    /// `q`.
    pub open spec fn sees(&self, q: &P, layer: int, n: Neighbor) -> bool {
        self.occupies(n.index as int, layer) && n.distance == self.dist_to(q, n.index as int)
    }

    /// The closest to `q` of `cur` and the targets of `list`: the first target
    /// at the smallest distance if that is closer than `cur`, else `cur`.
    pub open spec fn nearer(&self, q: &P, cur: Neighbor, list: Seq<Neighbor>) -> Neighbor
        decreases list.len(),
    {
        if list.len() == 0 {
            cur
        } else {
            let b = self.nearer(q, cur, list.drop_last());
            let d = self.dist_to(q, list.last().index as int);
            if d < b.distance {
                Neighbor { index: list.last().index, distance: d }
            } else {
                b
            }
        }
    }

    /// Where a greedy walk within `layer` ends that starts at `cur` and moves
    /// to the closest neighbour as long as that is strictly closer to `q`.
    pub open spec fn settle(&self, q: &P, cur: Neighbor, layer: int) -> Neighbor
        decreases cur.distance,
    {
        let next = self.nearer(q, cur, self.edges(cur.index as int, layer));
        if next.distance < cur.distance {
            self.settle(q, next, layer)
        } else {
            cur
        }
    }

    /// Where the greedy descent ends that starts at `cur` in layer `from` and
    /// walks every layer above `floor`, highest first.
    pub open spec fn descent(&self, q: &P, cur: Neighbor, from: int, floor: int) -> Neighbor
        decreases from - floor,
    {
        if from <= floor {
            cur
        } else {
            self.descent(q, self.settle(q, cur, from), from - 1, floor)
        }
    }

    /// The closest of `cur` and the targets of a list of sound edges is again
    /// a node of the layer, no farther than `cur` and no farther than any
    /// target; it is `cur` itself unless some target is strictly closer.
    pub proof fn lemma_nearer(&self, q: &P, cur: Neighbor, owner: int, layer: int, list: Seq<Neighbor>)
        requires
            self.sees(q, layer, cur),
            forall|j: int| 0 <= j < list.len() ==> self.edge_ok(owner, layer, #[trigger] list[j]),
        ensures
            self.sees(q, layer, self.nearer(q, cur, list)),
            self.nearer(q, cur, list).distance <= cur.distance,
            forall|j: int|
                0 <= j < list.len() ==> self.nearer(q, cur, list).distance <= self.dist_to(
                    q,
                    (#[trigger] list[j]).index as int,
                ),
            self.nearer(q, cur, list) == cur || (self.nearer(q, cur, list).distance < cur.distance
                && names(list, self.nearer(q, cur, list).index)),
        decreases list.len(),
    {
        if list.len() > 0 {
            let t = list.drop_last();
            assert forall|j: int| 0 <= j < t.len() implies self.edge_ok(
                owner,
                layer,
                #[trigger] t[j],
            ) by {
                assert(t[j] == list[j]);
            }
            self.lemma_nearer(q, cur, owner, layer, t);
            let b = self.nearer(q, cur, t);
            assert(self.edge_ok(owner, layer, list[list.len() - 1]));
            assert forall|j: int| 0 <= j < list.len() implies self.nearer(q, cur, list).distance
                <= self.dist_to(q, (#[trigger] list[j]).index as int) by {
                if j < t.len() {
                    assert(t[j] == list[j]);
                }
            }
            if b != cur && names(t, b.index) {
                let j = choose|j: int| 0 <= j < t.len() && (#[trigger] t[j]).index == b.index;
                assert(list[j] == t[j]);
            }
            assert(list[list.len() - 1].index == list.last().index);
        }
    }

    /// The closest to `q` of `cur` and its neighbours in `layer`.
    pub fn closest_neighbor(&self, q: &P, cur: Neighbor, layer: usize) -> (next: Neighbor)
        requires
            self.wf(),
            self.sees(q, layer as int, cur),
        ensures
            next == self.nearer(q, cur, self.edges(cur.index as int, layer as int)),
            self.sees(q, layer as int, next),
            next.distance <= cur.distance,
    {
        let list = self.neighbors(cur.index, layer);
        let mut best = cur;
        let mut j: usize = 0;
        proof {
            assert(self.links_ok(cur.index as int, layer as int));
            assert(list@.take(0) =~= Seq::<Neighbor>::empty());
        }
        while j < list.len()
            invariant
                self.wf(),
                self.sees(q, layer as int, cur),
                list@ == self.edges(cur.index as int, layer as int),
                self.links_ok(cur.index as int, layer as int),
                0 <= j <= list.len(),
                best == self.nearer(q, cur, list@.take(j as int)),
            decreases list.len() - j,
        {
            let e = list[j];
            proof {
                assert(self.edge_ok(cur.index as int, layer as int, list@[j as int]));
                let s = list@.take(j + 1);
                assert(s.drop_last() =~= list@.take(j as int));
                assert(s.last() == list@[j as int]);
            }
            let d = self.distance_to(q, e.index);
            if d < best.distance {
                best = Neighbor { index: e.index, distance: d };
            }
            j += 1;
        }
        proof {
            assert(list@.take(list.len() as int) =~= list@);
            self.lemma_nearer(q, cur, cur.index as int, layer as int, list@);
        }
        best
    }

    /// A greedy walk ends at a node of the layer that is no farther from `q`
    /// than the start and than any of its own neighbours.
    pub proof fn lemma_settle(&self, q: &P, cur: Neighbor, layer: int)
        requires
            self.wf(),
            self.sees(q, layer, cur),
        ensures
            self.sees(q, layer, self.settle(q, cur, layer)),
            self.settle(q, cur, layer).distance <= cur.distance,
            forall|j: int|
                0 <= j < self.edges(self.settle(q, cur, layer).index as int, layer).len()
                    ==> self.settle(q, cur, layer).distance <= self.dist_to(
                    q,
                    (#[trigger] self.edges(self.settle(q, cur, layer).index as int, layer)[j]).index as int,
                ),
        decreases cur.distance,
    {
        assert(self.links_ok(cur.index as int, layer));
        let list = self.edges(cur.index as int, layer);
        self.lemma_nearer(q, cur, cur.index as int, layer, list);
        let next = self.nearer(q, cur, list);
        if next.distance < cur.distance {
            self.lemma_settle(q, next, layer);
        }
    }

    /// Walks greedily within `layer` from `cur` towards `q`, moving to the
    /// closest neighbour as long as that is strictly closer.
    pub fn greedy(&self, q: &P, cur: Neighbor, layer: usize) -> (end: Neighbor)
        requires
            self.wf(),
            self.sees(q, layer as int, cur),
        ensures
            end == self.settle(q, cur, layer as int),
            self.sees(q, layer as int, end),
            end.distance <= cur.distance,
    {
        let mut at = cur;
        loop
            invariant
                self.wf(),
                self.sees(q, layer as int, at),
                self.settle(q, at, layer as int) == self.settle(q, cur, layer as int),
            ensures
                at == self.settle(q, cur, layer as int),
            decreases at.distance,
        {
            let next = self.closest_neighbor(q, at, layer);
            if next.distance < at.distance {
                at = next;
            } else {
                break ;
            }
        }
        proof {
            self.lemma_settle(q, cur, layer as int);
        }
        at
    }

    /// A descent ends at a node of the floor layer that is no farther from
    /// `q` than the start.
    pub proof fn lemma_descent(&self, q: &P, cur: Neighbor, from: int, floor: int)
        requires
            self.wf(),
            self.sees(q, from, cur),
            0 <= floor <= from,
        ensures
            self.sees(q, floor, self.descent(q, cur, from, floor)),
            self.descent(q, cur, from, floor).distance <= cur.distance,
        decreases from - floor,
    {
        if from > floor {
            self.lemma_settle(q, cur, from);
            self.lemma_descent(q, self.settle(q, cur, from), from - 1, floor);
        }
    }

    /// Descends greedily from `cur` in layer `from` through every layer above
    /// `floor`.
    pub fn descend(&self, q: &P, cur: Neighbor, from: usize, floor: usize) -> (end: Neighbor)
        requires
            self.wf(),
            self.sees(q, from as int, cur),
            floor <= from,
        ensures
            end == self.descent(q, cur, from as int, floor as int),
            self.sees(q, floor as int, end),
            end.distance <= cur.distance,
    {
        let mut at = cur;
        let mut layer = from;
        while layer > floor
            invariant
                self.wf(),
                self.sees(q, layer as int, at),
                self.descent(q, at, layer as int, floor as int) == self.descent(
                    q,
                    cur,
                    from as int,
                    floor as int,
                ),
                floor <= layer <= from,
            decreases layer,
        {
            at = self.greedy(q, at, layer);
            layer -= 1;
        }
        proof {
            self.lemma_descent(q, cur, from as int, floor as int);
        }
        at
    }

    /// The highest layer that holds a node.
    pub open spec fn top(&self) -> int {
        self.layers(self.entry() as int) - 1
    }

    /// The entry as seen from `q`.
    pub open spec fn entry_seen(&self, q: &P) -> Neighbor {
        Neighbor { index: self.entry(), distance: self.dist_to(q, self.entry() as int) }
    }

    /// The answer to a query for the `k` points nearest to `q` with a beam of
    /// width `ef`: nothing in an empty index or for no results; else the `k`
    /// closest of what a beam search in the lowest layer finds that starts
    /// where the greedy descent from the entry ends.
    pub open spec fn nearest(&self, q: &P, k: usize, ef: usize) -> Seq<Neighbor> {
        if self.size() == 0 || k == 0 {
            Seq::<Neighbor>::empty()
        } else {
            let seed = self.descent(q, self.entry_seen(q), self.top(), 0);
            let width = beam_width(k, ef);
            closest_of(self.beam_run(q, self.started(seed, width), 0, width).best, k)
        }
    }

    /// Whether `found` is closed under the edges of the lowest layer as far
    /// as `k` results can be: each neighbour of a node found is found itself,
    /// or `k` nodes are found and it is no closer to `q` than the farthest of
    /// them.
    pub open spec fn locally_best(&self, q: &P, k: usize, found: Seq<Neighbor>) -> bool {
        forall|j: int, m: int|
            0 <= j < found.len() && 0 <= m < self.edges(found[j].index as int, 0).len() ==> {
                let x = (#[trigger] self.edges((#[trigger] found[j]).index as int, 0)[m]).index;
                names(found, x) || (found.len() == k && self.dist_to(q, x as int)
                    >= found.last().distance)
            }
    }

    /// What every answer is: at most `k` distinct points, each with its
    /// distance from `q`, closest first; empty only in an empty index or for
    /// no results; its first no farther than the entry; and closed under the
    /// edges of the lowest layer as far as `k` results can be.
    pub proof fn lemma_nearest(&self, q: &P, k: usize, ef: usize)
        requires
            self.wf(),
        ensures
            self.nearest(q, k, ef).len() <= k,
            (self.size() == 0 || k == 0) <==> self.nearest(q, k, ef).len() == 0,
            forall|j: int|
                0 <= j < self.nearest(q, k, ef).len() ==> (#[trigger] self.nearest(
                    q,
                    k,
                    ef,
                )[j]).index < self.size() && self.nearest(q, k, ef)[j].distance == self.dist_to(
                    q,
                    self.nearest(q, k, ef)[j].index as int,
                ),
            by_distance(self.nearest(q, k, ef)),
            distinct(self.nearest(q, k, ef)),
            self.nearest(q, k, ef).len() > 0 ==> self.nearest(q, k, ef)[0].distance
                <= self.dist_to(q, self.entry() as int),
            self.locally_best(q, k, self.nearest(q, k, ef)),
    {
        let found = self.nearest(q, k, ef);
        if self.size() > 0 && k > 0 {
            let start = self.entry_seen(q);
            assert(self.highest_first(self.entry() as int));
            assert(self.sees(q, self.top(), start));
            self.lemma_descent(q, start, self.top(), 0);
            let seed = self.descent(q, start, self.top(), 0);
            let width = beam_width(k, ef);
            self.lemma_started_inv(q, 0, width, seed);
            self.lemma_beam_run_done(q, 0, width, self.started(seed, width));
            let end = self.beam_run(q, self.started(seed, width), 0, width);
            let best = end.best;
            assert(found == closest_of(best, k));
            assert forall|j: int| 0 <= j < found.len() implies (#[trigger] found[j]).index
                < self.size() && found[j].distance == self.dist_to(q, found[j].index as int) by {
                assert(self.sees(q, 0, key_neighbor(best[j])));
            }
            assert forall|i: int, j: int| 0 <= i < j < found.len() implies (#[trigger] found[i]).distance
                <= (#[trigger] found[j]).distance && found[i].index != found[j].index by {
                assert(key_lt(best[i], best[j]));
                assert(best[i].2 != best[j].2);
            }
            assert forall|j: int, m: int|
                0 <= j < found.len() && 0 <= m < self.edges(found[j].index as int, 0).len() implies {
                let x = (#[trigger] self.edges((#[trigger] found[j]).index as int, 0)[m]).index;
                names(found, x) || (found.len() == k && self.dist_to(q, x as int)
                    >= found.last().distance)
            } by {
                let x = self.edges(found[j].index as int, 0)[m].index;
                assert(found[j].index == best[j].2);
                assert(self.all_reached(0, end.visited, best[j].2));
                assert(end.visited.contains(x));
                assert(self.kept_or_beaten(q, best, width, x));
                if ranks(best, x) {
                    let a = choose|a: int| 0 <= a < best.len() && (#[trigger] best[a]).2 == x;
                    if a < found.len() {
                        assert(found[a].index == x);
                    } else {
                        assert(self.sees(q, 0, key_neighbor(best[a])));
                        if found.len() - 1 < a {
                            assert(key_lt(best[found.len() - 1], best[a]));
                        }
                    }
                } else {
                    if found.len() - 1 < best.len() - 1 {
                        assert(key_lt(best[found.len() - 1], best[best.len() - 1]));
                    }
                }
            }
        }
    }

    /// In an index of one point, every query for at least one result is
    /// answered with that point and its distance.
    pub proof fn lemma_single_point(&self, q: &P, k: usize, ef: usize)
        requires
            self.wf(),
            self.size() == 1,
            k >= 1,
        ensures
            self.nearest(q, k, ef) == Seq::<Neighbor>::empty().push(
                Neighbor { index: 0, distance: self.dist_to(q, 0) },
            ),
    {
        self.lemma_nearest(q, k, ef);
        let found = self.nearest(q, k, ef);
        assert(found.len() >= 1);
        assert(found[0].index == 0);
        if found.len() > 1 {
            assert(found[1].index == 0);
        }
        assert(found =~= Seq::<Neighbor>::empty().push(
            Neighbor { index: 0, distance: self.dist_to(q, 0) },
        ));
    }

    /// The nodes that the beam search of a query reaches in the lowest layer.
    pub open spec fn reached_by(&self, q: &P, k: usize, ef: usize) -> Set<usize> {
        if self.size() == 0 || k == 0 {
            Set::<usize>::empty()
        } else {
            let seed = self.descent(q, self.entry_seen(q), self.top(), 0);
            let width = beam_width(k, ef);
            self.beam_run(q, self.started(seed, width), 0, width).visited
        }
    }

    /// The first of an answer is no farther from `q` than any node the
    /// search reaches, and every node of the answer is one it reaches.
    pub proof fn lemma_reached_bounds(&self, q: &P, k: usize, ef: usize, id: usize)
        requires
            self.wf(),
            k >= 1,
        ensures
            self.reached_by(q, k, ef).contains(id) ==> id < self.size() && self.nearest(
                q,
                k,
                ef,
            ).len() >= 1 && self.nearest(q, k, ef)[0].distance <= self.dist_to(q, id as int),
            names(self.nearest(q, k, ef), id) ==> self.reached_by(q, k, ef).contains(id),
    {
        self.lemma_nearest(q, k, ef);
        if self.size() > 0 {
            let start = self.entry_seen(q);
            assert(self.highest_first(self.entry() as int));
            assert(self.sees(q, self.top(), start));
            self.lemma_descent(q, start, self.top(), 0);
            let seed = self.descent(q, start, self.top(), 0);
            let width = beam_width(k, ef);
            self.lemma_started_inv(q, 0, width, seed);
            self.lemma_beam_run_done(q, 0, width, self.started(seed, width));
            let end = self.beam_run(q, self.started(seed, width), 0, width);
            let best = end.best;
            let found = self.nearest(q, k, ef);
            assert(found == closest_of(best, k));
            assert(found[0].distance == best[0].0);
            if end.visited.contains(id) {
                assert(self.kept_or_beaten(q, best, width, id));
                if ranks(best, id) {
                    let a = choose|a: int| 0 <= a < best.len() && (#[trigger] best[a]).2 == id;
                    assert(self.sees(q, 0, key_neighbor(best[a])));
                    if a > 0 {
                        assert(key_lt(best[0], best[a]));
                    }
                } else {
                    if best.len() > 1 {
                        assert(key_lt(best[0], best[best.len() - 1]));
                    }
                }
            }
            if names(found, id) {
                let a = choose|a: int| 0 <= a < found.len() && (#[trigger] found[a]).index == id;
                assert(end.visited.contains(best[a].2));
            }
        }
    }

    /// A point is the first answer to a query for itself exactly if the
    /// search reaches it, provided its distance from itself is zero and no
    /// other point lies at distance zero from it.
    pub proof fn lemma_self_retrieval(&self, q: &P, k: usize, ef: usize, id: usize)
        requires
            self.wf(),
            k >= 1,
            id < self.size(),
            self.dist_to(q, id as int) == 0,
            forall|i: int| 0 <= i < self.size() && i != id ==> #[trigger] self.dist_to(q, i) > 0,
        ensures
            self.reached_by(q, k, ef).contains(id) <==> self.nearest(q, k, ef)[0] == (Neighbor {
                index: id,
                distance: 0,
            }),
    {
        self.lemma_nearest(q, k, ef);
        self.lemma_reached_bounds(q, k, ef, id);
        let found = self.nearest(q, k, ef);
        if self.reached_by(q, k, ef).contains(id) {
            let first = found[0];
            assert(first.distance == self.dist_to(q, first.index as int));
            assert(first.index == id);
        }
        if found[0] == (Neighbor { index: id, distance: 0 }) {
            assert(names(found, id));
        }
    }

    /// The search reaches every neighbour that a node of the answer has in
    /// the lowest layer.
    pub proof fn lemma_neighbors_reached(&self, q: &P, k: usize, ef: usize, j: int, m: int)
        requires
            self.wf(),
            0 <= j < self.nearest(q, k, ef).len(),
            0 <= m < self.edges(self.nearest(q, k, ef)[j].index as int, 0).len(),
        ensures
            self.reached_by(q, k, ef).contains(
                self.edges(self.nearest(q, k, ef)[j].index as int, 0)[m].index,
            ),
    {
        let start = self.entry_seen(q);
        assert(self.highest_first(self.entry() as int));
        assert(self.sees(q, self.top(), start));
        self.lemma_descent(q, start, self.top(), 0);
        let seed = self.descent(q, start, self.top(), 0);
        let width = beam_width(k, ef);
        self.lemma_started_inv(q, 0, width, seed);
        self.lemma_beam_run_done(q, 0, width, self.started(seed, width));
        let end = self.beam_run(q, self.started(seed, width), 0, width);
        assert(self.nearest(q, k, ef)[j].index == end.best[j].2);
        assert(self.all_reached(0, end.visited, end.best[j].2));
    }

    /// Finds the `k` points nearest to `q`, closest first, with a beam of
    /// width `ef`, which is widened to `k` where it is less. Whatever the
    /// workspace held is discarded first, so the answer is the same with any
    /// workspace.
    pub fn search(&self, q: &P, k: usize, ef: usize, searcher: &mut Searcher) -> (found: Vec<
        Neighbor,
    >)
        requires
            self.wf(),
        ensures
            found@ == self.nearest(q, k, ef),
            found@.len() <= k,
            (self.size() == 0 || k == 0) <==> found@.len() == 0,
            forall|j: int|
                0 <= j < found@.len() ==> (#[trigger] found@[j]).index < self.size()
                    && found@[j].distance == self.dist_to(q, found@[j].index as int),
            by_distance(found@),
            distinct(found@),
            found@.len() > 0 ==> found@[0].distance <= self.dist_to(q, self.entry() as int),
            self.locally_best(q, k, found@),
    {
        proof {
            self.lemma_nearest(q, k, ef);
        }
        searcher.clear();
        if self.is_empty() || k == 0 {
            return Vec::new();
        }
        let width = if ef < k {
            k
        } else if ef < 1 {
            1
        } else {
            ef
        };
        let entry = self.entry_point();
        proof {
            assert(self.highest_first(self.entry() as int));
        }
        let start = Neighbor { index: entry, distance: self.distance_to(q, entry) };
        let top = self.layers_of(entry) - 1;
        let seed = self.descend(q, start, top, 0);
        self.beam(q, seed, 0, width, searcher);
        searcher.take_best(k)
    }
}

} // verus!
