//! What holds of a workspace all through a beam search, and what that gives
//! once the search has come to an end.

use crate::graph::{names, Hnsw};
use crate::metric::Metric;
use crate::neighbor::{key_lt, key_neighbor, Key, Neighbor};
use crate::ranked::ascending;
use crate::searcher::{
    accepts, closest_at, lemma_bounded_len, lemma_closest_at, lemma_offered, offered, Beam,
};
use vstd::prelude::*;

verus! {

/// Whether some entry of `best` stands for the identifier `id`.
pub open spec fn ranks(best: Seq<Key>, id: usize) -> bool {
    exists|j: int| 0 <= j < best.len() && (#[trigger] best[j]).2 == id
}

impl<P, M: Metric<P>> Hnsw<P, M> {
    /// Whether every neighbour that node `id` has in `layer` was reached.
    pub open spec fn all_reached(&self, layer: int, visited: Set<usize>, id: usize) -> bool {
        forall|m: int|
            0 <= m < self.edges(id as int, layer).len() ==> visited.contains(
                (#[trigger] self.edges(id as int, layer)[m]).index,
            )
    }

    /// Whether node `id` is among the best results, or the results are full
    /// and it is no closer to `q` than the worst of them.
    pub open spec fn kept_or_beaten(&self, q: &P, best: Seq<Key>, ef: usize, id: usize) -> bool {
        ranks(best, id) || (best.len() == ef && best.len() > 0 && self.dist_to(q, id as int)
            >= best.last().0)
    }

    /// What holds of a workspace all through a beam search of width `ef`
    /// around `q` in `layer`, while the neighbours of `pending`, if any, are
    /// being reached: the best results are between one and `ef` distinct
    /// nodes of the layer in ascending order, each with its distance from
    /// `q`; the candidates are such nodes too; every node reached is among
    /// the results or beaten by them; and every result still waits on the
    /// frontier, or has had all its neighbours reached, or is `pending`.
    pub open spec fn beam_inv(
        &self,
        q: &P,
        layer: int,
        ef: usize,
        st: Beam,
        pending: Option<usize>,
    ) -> bool {
        &&& self.beam_ok(layer, st)
        &&& ascending(st.best)
        &&& 1 <= st.best.len() <= ef
        &&& forall|j: int| 0 <= j < st.best.len() ==> (#[trigger] st.best[j]).1 <= st.visited.len()
        &&& forall|j: int|
            0 <= j < st.best.len() ==> self.sees(q, layer, key_neighbor(#[trigger] st.best[j]))
        &&& forall|j: int|
            0 <= j < st.frontier.len() ==> self.sees(q, layer, #[trigger] st.frontier[j])
        &&& forall|j: int| 0 <= j < st.best.len() ==> st.visited.contains((#[trigger] st.best[j]).2)
        &&& forall|i: int, j: int|
            0 <= i < j < st.best.len() ==> (#[trigger] st.best[i]).2 != (#[trigger] st.best[j]).2
        &&& forall|v: usize| #[trigger]
            st.visited.contains(v) ==> self.kept_or_beaten(q, st.best, ef, v)
        &&& forall|j: int|
            0 <= j < st.best.len() ==> {
                let id = (#[trigger] st.best[j]).2;
                names(st.frontier, id) || self.all_reached(layer, st.visited, id) || pending
                    == Some(id)
            }
    }

    /// What a finished beam search leaves: the invariant holds, and every
    /// result has had all its neighbours reached, so that each neighbour of
    /// a result is a result itself or beaten by the results.
    pub open spec fn beam_done(&self, q: &P, layer: int, ef: usize, st: Beam) -> bool {
        &&& self.beam_inv(q, layer, ef, st, None)
        &&& forall|j: int|
            0 <= j < st.best.len() ==> self.all_reached(layer, st.visited, (#[trigger] st.best[j]).2)
    }

    /// The invariant holds at the start of a beam search.
    pub proof fn lemma_started_inv(&self, q: &P, layer: int, ef: usize, seed: Neighbor)
        requires
            self.wf(),
            self.sees(q, layer, seed),
            ef >= 1,
        ensures
            self.beam_inv(q, layer, ef, self.started(seed, ef), None),
            self.started(seed, ef).best[0].0 == seed.distance,
    {
        let st = self.started(seed, ef);
        let none = Seq::<Key>::empty();
        lemma_offered(none, seed, 1, ef);
        assert(st.best.len() == 1);
        assert(st.best.contains(seed.key(1)));
        assert(st.best[0] == seed.key(1));
        assert(st.visited.len() == 1);
        assert(st.frontier[0] == seed);
        assert(names(st.frontier, seed.index));
        assert(ranks(st.best, seed.index));
    }

    /// Reaching a node of the layer keeps the invariant, keeps what was
    /// reached before, and leaves the closest result no farther than it was.
    pub proof fn lemma_reached_inv(
        &self,
        q: &P,
        layer: int,
        ef: usize,
        st: Beam,
        pending: Option<usize>,
        id: usize,
    )
        requires
            self.wf(),
            self.beam_inv(q, layer, ef, st, pending),
            self.occupies(id as int, layer),
        ensures
            self.beam_inv(q, layer, ef, self.reached(q, st, id, ef), pending),
            self.reached(q, st, id, ef).visited == st.visited.insert(id),
            self.reached(q, st, id, ef).best[0].0 <= st.best[0].0,
    {
        let end = self.reached(q, st, id, ef);
        if st.visited.contains(id) {
            assert(st.visited.insert(id) =~= st.visited);
        } else {
            let visited = st.visited.insert(id);
            assert forall|v: usize| visited.contains(v) implies v < self.nodes() by {
                if v != id {
                    assert(st.visited.contains(v));
                }
            }
            lemma_bounded_len(visited, self.nodes());
            self.lemma_nodes_bounded();
            let arrival = visited.len() as usize;
            let n = Neighbor { index: id, distance: self.dist_to(q, id as int) };
            if accepts(st.best, n.distance, ef) {
                lemma_offered(st.best, n, arrival, ef);
                let key = n.key(arrival);
                let best = end.best;
                assert(best == offered(st.best, n, arrival, ef));
                assert forall|j: int| 0 <= j < end.frontier.len() implies self.sees(
                    q,
                    layer,
                    #[trigger] end.frontier[j],
                ) && self.occupies(end.frontier[j].index as int, layer) by {
                    if j < st.frontier.len() {
                        assert(end.frontier[j] == st.frontier[j]);
                    }
                }
                assert forall|j: int| 0 <= j < best.len() implies (#[trigger] best[j]).1
                    <= visited.len() && self.sees(q, layer, key_neighbor(best[j]))
                    && visited.contains(best[j].2) && (names(end.frontier, best[j].2)
                    || self.all_reached(layer, visited, best[j].2) || pending == Some(
                    best[j].2,
                )) by {
                    let k = best[j];
                    if k == key {
                        assert(end.frontier[st.frontier.len() as int] == n);
                    } else {
                        assert(st.best.contains(k));
                        let a = choose|a: int| 0 <= a < st.best.len() && st.best[a] == k;
                        assert(st.best[a].1 <= st.visited.len());
                        if names(st.frontier, k.2) {
                            let m = choose|m: int|
                                0 <= m < st.frontier.len() && (#[trigger] st.frontier[m]).index
                                    == k.2;
                            assert(end.frontier[m] == st.frontier[m]);
                        }
                    }
                }
                assert forall|i: int, j: int| 0 <= i < j < best.len() implies (#[trigger] best[i]).2
                    != (#[trigger] best[j]).2 by {
                    assert(key_lt(best[i], best[j]));
                    if best[i] == key {
                        assert(st.best.contains(best[j]));
                        let b = choose|b: int| 0 <= b < st.best.len() && st.best[b] == best[j];
                        assert(st.visited.contains(st.best[b].2));
                    } else if best[j] == key {
                        assert(st.best.contains(best[i]));
                        let a = choose|a: int| 0 <= a < st.best.len() && st.best[a] == best[i];
                        assert(st.visited.contains(st.best[a].2));
                    } else {
                        assert(st.best.contains(best[i]));
                        assert(st.best.contains(best[j]));
                        let a = choose|a: int| 0 <= a < st.best.len() && st.best[a] == best[i];
                        let b = choose|b: int| 0 <= b < st.best.len() && st.best[b] == best[j];
                        if a < b {
                            assert(st.best[a].2 != st.best[b].2);
                        } else if b < a {
                            assert(st.best[b].2 != st.best[a].2);
                        }
                    }
                }
                assert forall|v: usize| #[trigger] visited.contains(v) implies self.kept_or_beaten(
                    q,
                    best,
                    ef,
                    v,
                ) by {
                    if v == id {
                        let j = choose|j: int| 0 <= j < best.len() && best[j] == key;
                        assert(best[j].2 == id);
                    } else {
                        assert(st.visited.contains(v));
                        assert(self.kept_or_beaten(q, st.best, ef, v));
                        if ranks(st.best, v) {
                            let a = choose|a: int|
                                0 <= a < st.best.len() && (#[trigger] st.best[a]).2 == v;
                            if st.best.len() == ef && a == st.best.len() - 1 {
                                assert(self.sees(q, layer, key_neighbor(st.best[a])));
                            } else {
                                assert(best.contains(st.best[a]));
                                let j = choose|j: int| 0 <= j < best.len() && best[j] == st.best[a];
                                assert(best[j].2 == v);
                            }
                        }
                    }
                }
            } else {
                assert forall|v: usize| #[trigger] visited.contains(v) implies self.kept_or_beaten(
                    q,
                    end.best,
                    ef,
                    v,
                ) by {
                    if v != id {
                        assert(st.visited.contains(v));
                    }
                }
            }
        }
    }

    /// Reaching the targets of sound edges keeps the invariant, reaches each
    /// of the targets, keeps what was reached before, and leaves the closest
    /// result no farther than it was.
    pub proof fn lemma_expanded_inv(
        &self,
        q: &P,
        layer: int,
        ef: usize,
        st: Beam,
        pending: Option<usize>,
        owner: int,
        list: Seq<Neighbor>,
    )
        requires
            self.wf(),
            self.beam_inv(q, layer, ef, st, pending),
            forall|j: int| 0 <= j < list.len() ==> self.edge_ok(owner, layer, #[trigger] list[j]),
        ensures
            self.beam_inv(q, layer, ef, self.expanded(q, st, list, ef), pending),
            forall|v: usize|
                st.visited.contains(v) ==> self.expanded(q, st, list, ef).visited.contains(v),
            forall|j: int|
                0 <= j < list.len() ==> self.expanded(q, st, list, ef).visited.contains(
                    (#[trigger] list[j]).index,
                ),
            self.expanded(q, st, list, ef).best[0].0 <= st.best[0].0,
        decreases list.len(),
    {
        if list.len() > 0 {
            let t = list.drop_last();
            assert forall|j: int| 0 <= j < t.len() implies self.edge_ok(
                owner,
                layer,
                #[trigger] t[j],
            ) by {
                assert(t[j] == list[j]);
            }
            self.lemma_expanded_inv(q, layer, ef, st, pending, owner, t);
            let mid = self.expanded(q, st, t, ef);
            assert(self.edge_ok(owner, layer, list[list.len() - 1]));
            self.lemma_reached_inv(q, layer, ef, mid, pending, list.last().index);
            let end = self.reached(q, mid, list.last().index, ef);
            assert forall|j: int| 0 <= j < list.len() implies end.visited.contains(
                (#[trigger] list[j]).index,
            ) by {
                if j < t.len() {
                    assert(t[j] == list[j]);
                }
            }
        }
    }

    /// Taking the closest candidate off the frontier keeps the invariant
    /// with that candidate pending; it is a node of the layer with its
    /// distance from `q`, and no candidate left is closer.
    pub proof fn lemma_popped_inv(&self, q: &P, layer: int, ef: usize, st: Beam)
        requires
            self.wf(),
            self.beam_inv(q, layer, ef, st, None),
            st.frontier.len() > 0,
        ensures
            ({
                let at = closest_at(st.frontier);
                let c = st.frontier[at];
                let rest = Beam {
                    frontier: st.frontier.remove(at),
                    best: st.best,
                    visited: st.visited,
                };
                &&& 0 <= at < st.frontier.len()
                &&& self.sees(q, layer, c)
                &&& self.beam_inv(q, layer, ef, rest, Some(c.index))
                &&& forall|j: int|
                    0 <= j < rest.frontier.len() ==> (#[trigger] rest.frontier[j]).distance
                        >= c.distance
            }),
    {
        self.lemma_popped_ok(q, st, layer, ef);
        lemma_closest_at(st.frontier);
        let at = closest_at(st.frontier);
        let c = st.frontier[at];
        let rest = Beam { frontier: st.frontier.remove(at), best: st.best, visited: st.visited };
        assert(self.sees(q, layer, c));
        assert forall|j: int| 0 <= j < rest.frontier.len() implies self.sees(
            q,
            layer,
            #[trigger] rest.frontier[j],
        ) && rest.frontier[j].distance >= c.distance by {
            if j < at {
                assert(rest.frontier[j] == st.frontier[j]);
            } else {
                assert(rest.frontier[j] == st.frontier[j + 1]);
            }
        }
        assert forall|j: int| 0 <= j < rest.best.len() implies {
            let id = (#[trigger] rest.best[j]).2;
            names(rest.frontier, id) || self.all_reached(layer, rest.visited, id) || Some(c.index)
                == Some(id)
        } by {
            let id = rest.best[j].2;
            if names(st.frontier, id) && id != c.index {
                let m = choose|m: int|
                    0 <= m < st.frontier.len() && (#[trigger] st.frontier[m]).index == id;
                if m < at {
                    assert(rest.frontier[m] == st.frontier[m]);
                } else {
                    assert(rest.frontier[m - 1] == st.frontier[m]);
                }
            }
        }
    }

    /// One step of the beam search that does not stop keeps the invariant
    /// and leaves the closest result no farther than it was.
    pub proof fn lemma_stepped_inv(&self, q: &P, layer: int, ef: usize, st: Beam)
        requires
            self.wf(),
            self.beam_inv(q, layer, ef, st, None),
            st.frontier.len() > 0,
        ensures
            ({
                let at = closest_at(st.frontier);
                let c = st.frontier[at];
                let rest = Beam {
                    frontier: st.frontier.remove(at),
                    best: st.best,
                    visited: st.visited,
                };
                let next = self.expanded(q, rest, self.edges(c.index as int, layer), ef);
                &&& self.beam_inv(q, layer, ef, next, None)
                &&& next.best[0].0 <= st.best[0].0
                &&& 0 <= self.beam_fuel(next) < self.beam_fuel(st)
            }),
    {
        self.lemma_popped_ok(q, st, layer, ef);
        self.lemma_popped_inv(q, layer, ef, st);
        let at = closest_at(st.frontier);
        let c = st.frontier[at];
        let rest = Beam { frontier: st.frontier.remove(at), best: st.best, visited: st.visited };
        let list = self.edges(c.index as int, layer);
        assert(self.links_ok(c.index as int, layer));
        self.lemma_expanded_inv(q, layer, ef, rest, Some(c.index), c.index as int, list);
        let next = self.expanded(q, rest, list, ef);
        assert(self.all_reached(layer, next.visited, c.index));
    }

    /// A beam search that goes on from a workspace for which the invariant
    /// holds ends with a finished workspace whose closest result is no
    /// farther than the closest was.
    pub proof fn lemma_beam_run_done(&self, q: &P, layer: int, ef: usize, st: Beam)
        requires
            self.wf(),
            self.beam_inv(q, layer, ef, st, None),
        ensures
            self.beam_done(q, layer, ef, self.beam_run(q, st, layer, ef)),
            self.beam_run(q, st, layer, ef).best[0].0 <= st.best[0].0,
        decreases self.beam_fuel(st),
    {
        if st.frontier.len() == 0 {
            assert forall|j: int| 0 <= j < st.best.len() implies self.all_reached(
                layer,
                st.visited,
                (#[trigger] st.best[j]).2,
            ) by {
                assert(!names(st.frontier, st.best[j].2));
            }
        } else {
            self.lemma_popped_inv(q, layer, ef, st);
            let at = closest_at(st.frontier);
            let c = st.frontier[at];
            let rest = Beam { frontier: st.frontier.remove(at), best: st.best, visited: st.visited };
            if c.distance > st.best.last().0 {
                assert forall|j: int| 0 <= j < rest.best.len() implies self.all_reached(
                    layer,
                    rest.visited,
                    (#[trigger] rest.best[j]).2,
                ) by {
                    let k = rest.best[j];
                    assert(self.sees(q, layer, key_neighbor(k)));
                    if j < rest.best.len() - 1 {
                        assert(key_lt(rest.best[j], rest.best[rest.best.len() - 1]));
                    }
                    assert(k.0 <= st.best.last().0);
                    if names(rest.frontier, k.2) {
                        let m = choose|m: int|
                            0 <= m < rest.frontier.len() && (#[trigger] rest.frontier[m]).index
                                == k.2;
                        assert(self.sees(q, layer, rest.frontier[m]));
                        assert(rest.frontier[m].distance >= c.distance);
                    }
                }
                assert(self.beam_inv(q, layer, ef, rest, None));
            } else {
                self.lemma_stepped_inv(q, layer, ef, st);
                let next = self.expanded(q, rest, self.edges(c.index as int, layer), ef);
                self.lemma_beam_run_done(q, layer, ef, next);
            }
        }
    }
}

} // verus!
