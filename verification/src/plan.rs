//! The edges a new point will get: found layer by layer, before the graph
//! changes.

use crate::graph::{by_distance, degree_cap, distinct, Hnsw};
use crate::level::{MAX_DEGREE, MAX_DEGREE_ZERO, MAX_HEIGHT};
use crate::metric::Metric;
use crate::neighbor::{key_lt, key_neighbor, Neighbor};
use crate::searcher::{closest_of, Searcher};
use crate::select::{lemma_selected, selected};
use vstd::prelude::*;

verus! {

impl<P, M: Metric<P>> Hnsw<P, M> {
    /// The width of the beam that insertions run with: the one the
    /// parameters give, or one where they give none.
    pub open spec fn build_width(&self) -> usize {
        if self.params().beam() < 1 {
            1
        } else {
            self.params().beam()
        }
    }

    /// The candidates for the edges that a new point `q` gets in `layer`:
    /// all that a beam search of the building width finds from `seed`,
    /// closest first.
    pub open spec fn pool(&self, q: &P, seed: Neighbor, layer: int) -> Seq<Neighbor> {
        closest_of(
            self.beam_run(
                q,
                self.started(seed, self.build_width()),
                layer,
                self.build_width(),
            ).best,
            self.build_width(),
        )
    }

    /// The highest layer in which a new node of height `h` gets edges: its
    /// own top layer, or the top of the graph where that is lower.
    pub open spec fn start_layer(&self, h: int) -> int {
        if h < self.top() {
            h
        } else {
            self.top()
        }
    }

    /// The node from which the search for the edges of a new point `q` of
    /// height `h` sets out in `layer`: in the highest layer where it gets
    /// edges, the end of the greedy descent from the entry; in a layer below,
    /// the closest candidate of the layer above.
    pub open spec fn seed_at(&self, q: &P, h: int, layer: int) -> Neighbor
        decreases self.start_layer(h) - layer,
    {
        if layer >= self.start_layer(h) {
            self.descent(q, self.entry_seen(q), self.top(), self.start_layer(h))
        } else {
            self.pool(q, self.seed_at(q, h, layer + 1), layer + 1)[0]
        }
    }

    /// The edges that a new point `q` of height `h` gets in `layer`: none in
    /// an empty graph or above the top of the graph; else what the selection
    /// rule picks from the candidates of the layer.
    pub open spec fn planned(&self, q: &P, h: int, layer: int) -> Seq<Neighbor> {
        if self.size() == 0 || layer < 0 || layer > self.start_layer(h) {
            Seq::<Neighbor>::empty()
        } else {
            selected(
                self.metric(),
                self.points(),
                self.pool(q, self.seed_at(q, h, layer), layer),
                degree_cap(layer),
            )
        }
    }

    /// The candidates of a layer are at least one and at most as many as the
    /// beam is wide, distinct nodes of the layer, each with its distance from
    /// `q`, closest first.
    pub proof fn lemma_pool(&self, q: &P, seed: Neighbor, layer: int)
        requires
            self.wf(),
            self.sees(q, layer, seed),
        ensures
            1 <= self.pool(q, seed, layer).len() <= self.build_width(),
            self.pool(q, seed, layer).len() == self.beam_run(
                q,
                self.started(seed, self.build_width()),
                layer,
                self.build_width(),
            ).best.len(),
            forall|j: int|
                0 <= j < self.pool(q, seed, layer).len() ==> self.sees(
                    q,
                    layer,
                    #[trigger] self.pool(q, seed, layer)[j],
                ),
            by_distance(self.pool(q, seed, layer)),
            distinct(self.pool(q, seed, layer)),
    {
        let w = self.build_width();
        self.lemma_started_inv(q, layer, w, seed);
        self.lemma_beam_run_done(q, layer, w, self.started(seed, w));
        let best = self.beam_run(q, self.started(seed, w), layer, w).best;
        let pool = self.pool(q, seed, layer);
        assert forall|j: int| 0 <= j < pool.len() implies self.sees(q, layer, #[trigger] pool[j]) by {
            assert(self.sees(q, layer, key_neighbor(best[j])));
        }
        assert forall|i: int, j: int| 0 <= i < j < pool.len() implies (#[trigger] pool[i]).distance
            <= (#[trigger] pool[j]).distance && pool[i].index != pool[j].index by {
            assert(key_lt(best[i], best[j]));
            assert(best[i].2 != best[j].2);
        }
    }

    /// The search for the edges of a new point sets out from a node of the
    /// layer, with its distance from the point.
    pub proof fn lemma_seed_at(&self, q: &P, h: int, layer: int)
        requires
            self.wf(),
            self.size() > 0,
            0 <= h,
            0 <= layer <= self.start_layer(h),
        ensures
            self.sees(q, layer, self.seed_at(q, h, layer)),
        decreases self.start_layer(h) - layer,
    {
        assert(self.highest_first(self.entry() as int));
        if layer >= self.start_layer(h) {
            assert(self.sees(q, self.top(), self.entry_seen(q)));
            self.lemma_descent(q, self.entry_seen(q), self.top(), self.start_layer(h));
        } else {
            self.lemma_seed_at(q, h, layer + 1);
            self.lemma_pool(q, self.seed_at(q, h, layer + 1), layer + 1);
        }
    }

    /// The edges planned for a new point in a layer are within the degree
    /// bound, lead to distinct nodes of the layer, carry the distances from
    /// the point to them, and stand closest first; where the graph holds a
    /// node of the layer, there is at least one.
    pub proof fn lemma_planned(&self, q: &P, h: int, layer: int)
        requires
            self.wf(),
            0 <= h,
        ensures
            self.planned(q, h, layer).len() <= degree_cap(layer),
            forall|j: int|
                0 <= j < self.planned(q, h, layer).len() ==> self.sees(
                    q,
                    layer,
                    #[trigger] self.planned(q, h, layer)[j],
                ),
            by_distance(self.planned(q, h, layer)),
            distinct(self.planned(q, h, layer)),
            self.size() > 0 && 0 <= layer <= self.start_layer(h) ==> self.planned(q, h, layer).len()
                > 0 && self.planned(q, h, layer)[0] == self.pool(
                q,
                self.seed_at(q, h, layer),
                layer,
            )[0],
    {
        if !(self.size() == 0 || layer < 0 || layer > self.start_layer(h)) {
            self.lemma_seed_at(q, h, layer);
            let seed = self.seed_at(q, h, layer);
            self.lemma_pool(q, seed, layer);
            let pool = self.pool(q, seed, layer);
            lemma_selected(self.metric(), self.points(), pool, degree_cap(layer));
            let plan = self.planned(q, h, layer);
            assert forall|j: int| 0 <= j < plan.len() implies self.sees(q, layer, #[trigger] plan[j]) by {
                assert(pool.contains(plan[j]));
            }
        }
    }

    /// The width of the beam that insertions run with.
    pub fn construction_width(&self) -> (w: usize)
        ensures
            w == self.build_width(),
    {
        let ef = self.ef_construction();
        if ef < 1 {
            1
        } else {
            ef
        }
    }

    /// Finds the edges that a new point `q` of height `h` gets in each of its
    /// layers, lowest first. The graph stays as it is.
    pub fn plan(&self, q: &P, h: usize, searcher: &mut Searcher) -> (lists: Vec<Vec<Neighbor>>)
        requires
            self.wf(),
            h <= MAX_HEIGHT,
        ensures
            lists@.len() == h + 1,
            forall|l: int| 0 <= l <= h ==> (#[trigger] lists@[l])@ == self.planned(q, h as int, l),
    {
        let mut lists: Vec<Vec<Neighbor>> = Vec::new();
        let mut n: usize = 0;
        while n <= h
            invariant
                0 <= n <= h + 1,
                h <= MAX_HEIGHT,
                lists@.len() == n,
                forall|l: int| 0 <= l < n ==> (#[trigger] lists@[l])@ == Seq::<Neighbor>::empty(),
            decreases h + 1 - n,
        {
            lists.push(Vec::new());
            n += 1;
        }
        if self.is_empty() {
            return lists;
        }
        let width = self.construction_width();
        let entry = self.entry_point();
        proof {
            assert(self.highest_first(self.entry() as int));
        }
        let top = self.layers_of(entry) - 1;
        let start = if h < top {
            h
        } else {
            top
        };
        let first = Neighbor { index: entry, distance: self.distance_to(q, entry) };
        let mut cur = self.descend(q, first, top, start);
        let mut layer: usize = start + 1;
        while layer > 0
            invariant
                self.wf(),
                self.size() > 0,
                h <= MAX_HEIGHT,
                start == self.start_layer(h as int),
                width == self.build_width(),
                0 <= layer <= start + 1,
                lists@.len() == h + 1,
                layer > 0 ==> cur == self.seed_at(q, h as int, layer - 1),
                forall|l: int|
                    layer <= l <= start ==> (#[trigger] lists@[l])@ == self.planned(q, h as int, l),
                forall|l: int|
                    0 <= l <= h && !(layer <= l <= start) ==> (#[trigger] lists@[l])@ == Seq::<
                        Neighbor,
                    >::empty(),
            decreases layer,
        {
            layer -= 1;
            proof {
                self.lemma_seed_at(q, h as int, layer as int);
                self.lemma_pool(q, cur, layer as int);
            }
            self.beam(q, cur, layer, width, searcher);
            let pool = searcher.take_best(width);
            let cap = if layer == 0 {
                MAX_DEGREE_ZERO
            } else {
                MAX_DEGREE
            };
            proof {
                assert(pool@ == self.pool(q, cur, layer as int));
                assert forall|j: int| 0 <= j < pool@.len() implies (#[trigger] pool@[j]).index
                    < self.size() by {
                    assert(self.sees(q, layer as int, pool@[j]));
                }
            }
            let chosen = self.select(&pool, cap);
            cur = pool[0];
            lists[layer] = chosen;
        }
        lists
    }
}

} // verus!
