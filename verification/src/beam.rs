//! The beam search within one layer, shared by queries and insertions.

use crate::graph::Hnsw;
use crate::metric::Metric;
use crate::neighbor::{Key, Neighbor};
use crate::searcher::{
    accepts, closest_at, lemma_bounded_len, lemma_closest_at, offered, Beam, Searcher,
};
use vstd::prelude::*;

verus! {

impl<P, M: Metric<P>> Hnsw<P, M> {
    /// The contents of a workspace after the node `id` was reached from a
    /// node under expansion: nothing changes if it was reached before;
    /// otherwise it counts as reached, and it joins the frontier and the best
    /// results if a beam of width `ef` accepts its distance from `q`.
    pub open spec fn reached(&self, q: &P, st: Beam, id: usize, ef: usize) -> Beam {
        if st.visited.contains(id) {
            st
        } else {
            let visited = st.visited.insert(id);
            let n = Neighbor { index: id, distance: self.dist_to(q, id as int) };
            if accepts(st.best, n.distance, ef) {
                Beam {
                    frontier: st.frontier.push(n),
                    best: offered(st.best, n, visited.len() as usize, ef),
                    visited,
                }
            } else {
                Beam { frontier: st.frontier, best: st.best, visited }
            }
        }
    }

    /// The contents of a workspace after the targets of `list` were reached
    /// one after the other.
    pub open spec fn expanded(&self, q: &P, st: Beam, list: Seq<Neighbor>, ef: usize) -> Beam
        decreases list.len(),
    {
        if list.len() == 0 {
            st
        } else {
            self.reached(q, self.expanded(q, st, list.drop_last(), ef), list.last().index, ef)
        }
    }

    /// The contents of a workspace at the start of a beam search from `seed`:
    /// the seed alone is reached, on the frontier and among the best results.
    pub open spec fn started(&self, seed: Neighbor, ef: usize) -> Beam {
        Beam {
            frontier: Seq::<Neighbor>::empty().push(seed),
            best: offered(Seq::<Key>::empty(), seed, 1, ef),
            visited: Set::<usize>::empty().insert(seed.index),
        }
    }

    /// What the beam search needs of a workspace to come to an end: finitely
    /// many identifiers are reached, and they and the candidates on the
    /// frontier are nodes of the layer.
    pub open spec fn beam_ok(&self, layer: int, st: Beam) -> bool {
        &&& st.visited.finite()
        &&& forall|v: usize| st.visited.contains(v) ==> self.occupies(v as int, layer)
        &&& forall|j: int|
            0 <= j < st.frontier.len() ==> self.occupies(
                (#[trigger] st.frontier[j]).index as int,
                layer,
            )
    }

    /// The number of steps a beam search may still take: the nodes not yet
    /// reached and the candidates not yet expanded.
    pub open spec fn beam_fuel(&self, st: Beam) -> int {
        self.nodes() - st.visited.len() + st.frontier.len()
    }

    /// Reaching the targets of sound edges keeps a workspace fit for the beam
    /// search, keeps what was reached, and adds no more candidates than
    /// nodes newly reached.
    pub proof fn lemma_expanded_ok(
        &self,
        q: &P,
        st: Beam,
        owner: int,
        layer: int,
        list: Seq<Neighbor>,
        ef: usize,
    )
        requires
            self.beam_ok(layer, st),
            forall|j: int| 0 <= j < list.len() ==> self.edge_ok(owner, layer, #[trigger] list[j]),
        ensures
            self.beam_ok(layer, self.expanded(q, st, list, ef)),
            self.beam_fuel(self.expanded(q, st, list, ef)) <= self.beam_fuel(st),
            st.visited.len() <= self.nodes(),
            forall|v: usize|
                st.visited.contains(v) ==> self.expanded(q, st, list, ef).visited.contains(v),
        decreases list.len(),
    {
        lemma_bounded_len(st.visited, self.nodes());
        if list.len() > 0 {
            let t = list.drop_last();
            assert forall|j: int| 0 <= j < t.len() implies self.edge_ok(
                owner,
                layer,
                #[trigger] t[j],
            ) by {
                assert(t[j] == list[j]);
            }
            self.lemma_expanded_ok(q, st, owner, layer, t, ef);
            let mid = self.expanded(q, st, t, ef);
            assert(self.edge_ok(owner, layer, list[list.len() - 1]));
            let id = list.last().index;
            let end = self.reached(q, mid, id, ef);
            if !mid.visited.contains(id) {
                let n = Neighbor { index: id, distance: self.dist_to(q, id as int) };
                if accepts(mid.best, n.distance, ef) {
                    assert forall|j: int| 0 <= j < end.frontier.len() implies self.occupies(
                        (#[trigger] end.frontier[j]).index as int,
                        layer,
                    ) by {
                        if j < mid.frontier.len() {
                            assert(end.frontier[j] == mid.frontier[j]);
                        }
                    }
                }
            }
        }
    }

    /// Taking the closest candidate off the frontier and reaching its
    /// neighbours keeps a workspace fit for the beam search and uses up fuel.
    pub proof fn lemma_popped_ok(&self, q: &P, st: Beam, layer: int, ef: usize)
        requires
            self.wf(),
            self.beam_ok(layer, st),
            st.frontier.len() > 0,
        ensures
            ({
                let at = closest_at(st.frontier);
                let c = st.frontier[at];
                let rest = Beam {
                    frontier: st.frontier.remove(at),
                    best: st.best,
                    visited: st.visited,
                };
                let next = self.expanded(q, rest, self.edges(c.index as int, layer), ef);
                &&& 0 <= at < st.frontier.len()
                &&& self.occupies(c.index as int, layer)
                &&& self.beam_ok(layer, rest)
                &&& self.beam_ok(layer, next)
                &&& 0 <= self.beam_fuel(next) <= self.beam_fuel(rest) < self.beam_fuel(st)
            }),
    {
        lemma_closest_at(st.frontier);
        let at = closest_at(st.frontier);
        let c = st.frontier[at];
        let rest = Beam { frontier: st.frontier.remove(at), best: st.best, visited: st.visited };
        assert(self.links_ok(c.index as int, layer));
        assert forall|j: int| 0 <= j < rest.frontier.len() implies self.occupies(
            (#[trigger] rest.frontier[j]).index as int,
            layer,
        ) by {
            if j < at {
                assert(rest.frontier[j] == st.frontier[j]);
            } else {
                assert(rest.frontier[j] == st.frontier[j + 1]);
            }
        }
        let list = self.edges(c.index as int, layer);
        self.lemma_expanded_ok(q, rest, c.index as int, layer, list, ef);
        let next = self.expanded(q, rest, list, ef);
        self.lemma_expanded_ok(q, next, c.index as int, layer, Seq::<Neighbor>::empty(), ef);
    }

    /// The contents of a workspace when the beam search comes to an end that
    /// goes on from `st`: as long as a candidate is left, the closest leaves
    /// the frontier; the search stops if it is farther from `q` than the
    /// worst of the best results, and else goes on with its neighbours
    /// reached.
    pub open spec fn beam_run(&self, q: &P, st: Beam, layer: int, ef: usize) -> Beam
        decreases self.beam_fuel(st),
        when self.wf() && self.beam_ok(layer, st)
    {
        if st.frontier.len() == 0 {
            st
        } else {
            proof {
                lemma_closest_at(st.frontier);
            }
            let at = closest_at(st.frontier);
            let c = st.frontier[at];
            let rest = Beam { frontier: st.frontier.remove(at), best: st.best, visited: st.visited };
            if st.best.len() > 0 && c.distance > st.best.last().0 {
                rest
            } else {
                proof {
                    self.lemma_popped_ok(q, st, layer, ef);
                }
                self.beam_run(q, self.expanded(q, rest, self.edges(c.index as int, layer), ef), layer, ef)
            }
        }
    }

    /// Reaches the node `id` for a beam of width `ef` around `q`.
    pub fn reach(&self, q: &P, id: usize, ef: usize, searcher: &mut Searcher)
        requires
            id < self.size(),
            old(searcher).wf(),
            ef >= 1,
        ensures
            final(searcher).wf(),
            final(searcher).state() == self.reached(q, old(searcher).state(), id, ef),
    {
        if searcher.visit(id) {
            let d = self.distance_to(q, id);
            let _ = searcher.offer(Neighbor { index: id, distance: d }, ef);
        }
    }

    /// Reaches every neighbour that node `id` has in `layer`.
    pub fn expand(&self, q: &P, id: usize, layer: usize, ef: usize, searcher: &mut Searcher)
        requires
            self.wf(),
            self.occupies(id as int, layer as int),
            old(searcher).wf(),
            ef >= 1,
        ensures
            final(searcher).wf(),
            final(searcher).state() == self.expanded(
                q,
                old(searcher).state(),
                self.edges(id as int, layer as int),
                ef,
            ),
    {
        let list = self.neighbors(id, layer);
        let mut j: usize = 0;
        proof {
            assert(self.links_ok(id as int, layer as int));
            assert(list@.take(0) =~= Seq::<Neighbor>::empty());
        }
        while j < list.len()
            invariant
                self.wf(),
                self.links_ok(id as int, layer as int),
                list@ == self.edges(id as int, layer as int),
                0 <= j <= list.len(),
                searcher.wf(),
                ef >= 1,
                searcher.state() == self.expanded(
                    q,
                    old(searcher).state(),
                    list@.take(j as int),
                    ef,
                ),
            decreases list.len() - j,
        {
            proof {
                assert(self.edge_ok(id as int, layer as int, list@[j as int]));
                let s = list@.take(j + 1);
                assert(s.drop_last() =~= list@.take(j as int));
                assert(s.last() == list@[j as int]);
            }
            self.reach(q, list[j].index, ef, searcher);
            j += 1;
        }
        proof {
            assert(list@.take(list.len() as int) =~= list@);
        }
    }

    /// Runs a beam search of width `ef` around `q` within `layer`, starting
    /// from `seed`. Whatever the workspace held is discarded first.
    pub fn beam(&self, q: &P, seed: Neighbor, layer: usize, ef: usize, searcher: &mut Searcher)
        requires
            self.wf(),
            self.sees(q, layer as int, seed),
            ef >= 1,
        ensures
            final(searcher).wf(),
            final(searcher).state() == self.beam_run(
                q,
                self.started(seed, ef),
                layer as int,
                ef,
            ),
    {
        searcher.clear();
        let _ = searcher.visit(seed.index);
        let _ = searcher.offer(seed, ef);
        proof {
            assert(searcher.state() == self.started(seed, ef));
            assert forall|j: int| 0 <= j < searcher.frontier().len() implies self.occupies(
                (#[trigger] searcher.frontier()[j]).index as int,
                layer as int,
            ) by {
                assert(searcher.frontier()[j] == seed);
            }
        }
        loop
            invariant_except_break
                self.beam_ok(layer as int, searcher.state()),
                self.beam_run(q, searcher.state(), layer as int, ef) == self.beam_run(
                    q,
                    self.started(seed, ef),
                    layer as int,
                    ef,
                ),
            invariant
                self.wf(),
                ef >= 1,
                searcher.wf(),
            ensures
                searcher.state() == self.beam_run(q, self.started(seed, ef), layer as int, ef),
            decreases self.beam_fuel(searcher.state()),
        {
            let ghost st = searcher.state();
            match searcher.pop_closest() {
                None => {
                    break ;
                },
                Some(c) => {
                    proof {
                        self.lemma_popped_ok(q, st, layer as int, ef);
                    }
                    let stop = match searcher.worst() {
                        Some(w) => c.distance > w.distance,
                        None => false,
                    };
                    if stop {
                        break ;
                    }
                    self.expand(q, c.index, layer, ef, searcher);
                },
            }
        }
    }
}

} // verus!
