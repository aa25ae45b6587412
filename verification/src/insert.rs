//! Adding a point: the new node takes the edges planned for it, and every
//! node it is linked to takes an edge back.

use crate::graph::{by_distance, degree_cap, distinct, names, Hnsw};
use crate::level::{advance, MAX_DEGREE, MAX_DEGREE_ZERO, MAX_HEIGHT};
use crate::metric::Metric;
use crate::neighbor::Neighbor;
use crate::searcher::Searcher;
use crate::select::{gap, lemma_selected, selected};
use vstd::prelude::*;

verus! {

/// The place of a new edge at distance `d` in a list that stands closest
/// first: behind every edge that is no farther.
pub open spec fn slot(list: Seq<Neighbor>, d: u64) -> int
    decreases list.len(),
{
    if list.len() == 0 {
        0
    } else if list.last().distance <= d {
        list.len() as int
    } else {
        slot(list.drop_last(), d)
    }
}

/// In a list that stands closest first, the edges ahead of the place of a new
/// edge are no farther than it, and the edges from that place on are farther.
pub proof fn lemma_slot(list: Seq<Neighbor>, d: u64)
    requires
        by_distance(list),
    ensures
        0 <= slot(list, d) <= list.len(),
        forall|i: int| 0 <= i < slot(list, d) ==> (#[trigger] list[i]).distance <= d,
        forall|i: int| slot(list, d) <= i < list.len() ==> (#[trigger] list[i]).distance > d,
    decreases list.len(),
{
    if list.len() > 0 {
        let t = list.drop_last();
        assert(by_distance(t)) by {
            assert forall|i: int, j: int| 0 <= i < j < t.len() implies (#[trigger] t[i]).distance <= (
            #[trigger] t[j]).distance by {
                assert(t[i] == list[i] && t[j] == list[j]);
            }
        }
        if list.last().distance <= d {
            assert forall|i: int| 0 <= i < list.len() implies (#[trigger] list[i]).distance <= d by {
                if i < list.len() - 1 {
                    assert(list[i].distance <= list[list.len() - 1].distance);
                }
            }
        } else {
            lemma_slot(t, d);
            assert forall|i: int| 0 <= i < slot(list, d) implies (#[trigger] list[i]).distance <= d by {
                assert(t[i] == list[i]);
            }
            assert forall|i: int| slot(list, d) <= i < list.len() implies (#[trigger] list[i]).distance
                > d by {
                if i < t.len() {
                    assert(t[i] == list[i]);
                }
            }
        }
    }
}

/// The edges of node `owner` in `layer` once an edge to `target` is added to
/// `list`: the new edge takes its place by distance, and where that makes
/// more edges than the layer allows, the selection rule picks among them.
pub open spec fn relinked<P, M: Metric<P>>(
    metric: M,
    points: Seq<P>,
    list: Seq<Neighbor>,
    owner: int,
    layer: int,
    target: usize,
) -> Seq<Neighbor> {
    let e = Neighbor { index: target, distance: gap(metric, points, owner, target as int) };
    let grown = list.insert(slot(list, e.distance), e);
    if grown.len() <= degree_cap(layer) {
        grown
    } else {
        selected(metric, points, grown, degree_cap(layer))
    }
}

impl<P, M: Metric<P>> Hnsw<P, M> {
    /// Adding an edge to a sound list gives a sound list.
    pub proof fn lemma_relinked(&self, list: Seq<Neighbor>, owner: int, layer: int, target: usize)
        requires
            self.occupies(owner, layer),
            self.occupies(target as int, layer),
            owner != target,
            self.list_ok(owner, layer, list),
            !names(list, target),
        ensures
            self.list_ok(
                owner,
                layer,
                relinked(self.metric(), self.points(), list, owner, layer, target),
            ),
    {
        let e = Neighbor {
            index: target,
            distance: gap(self.metric(), self.points(), owner, target as int),
        };
        lemma_slot(list, e.distance);
        let at = slot(list, e.distance);
        let grown = list.insert(at, e);
        assert forall|j: int| 0 <= j < grown.len() implies self.edge_ok(
            owner,
            layer,
            #[trigger] grown[j],
        ) by {
            if j < at {
                assert(grown[j] == list[j]);
            } else if j > at {
                assert(grown[j] == list[j - 1]);
            }
        }
        assert forall|i: int, j: int| 0 <= i < j < grown.len() implies (#[trigger] grown[i]).distance
            <= (#[trigger] grown[j]).distance && grown[i].index != grown[j].index by {
            if j < at {
                assert(grown[i] == list[i] && grown[j] == list[j]);
            } else if j == at {
                assert(grown[i] == list[i]);
            } else if i < at {
                assert(grown[i] == list[i] && grown[j] == list[j - 1]);
            } else if i == at {
                assert(grown[j] == list[j - 1]);
            } else {
                assert(grown[i] == list[i - 1] && grown[j] == list[j - 1]);
            }
        }
        if grown.len() > degree_cap(layer) {
            lemma_selected(self.metric(), self.points(), grown, degree_cap(layer));
            let kept = selected(self.metric(), self.points(), grown, degree_cap(layer));
            assert forall|j: int| 0 <= j < kept.len() implies self.edge_ok(
                owner,
                layer,
                #[trigger] kept[j],
            ) by {
                assert(grown.contains(kept[j]));
            }
        }
    }

    /// Gives node `owner` an edge to node `target` in `layer`, and has the
    /// selection rule pick among its edges where they are then too many.
    pub fn link(&mut self, owner: usize, layer: usize, target: usize)
        requires
            old(self).wf(),
            old(self).occupies(owner as int, layer as int),
            old(self).occupies(target as int, layer as int),
            owner != target,
            !names(old(self).edges(owner as int, layer as int), target),
        ensures
            final(self).wf(),
            final(self).same_frame(old(self)),
            final(self).entry() == old(self).entry(),
            final(self).edges(owner as int, layer as int) == relinked(
                old(self).metric(),
                old(self).points(),
                old(self).edges(owner as int, layer as int),
                owner as int,
                layer as int,
                target,
            ),
            forall|i: int, l: int|
                old(self).occupies(i, l) && !(i == owner && l == layer) ==> #[trigger] final(self).edges(i, l) == old(self).edges(i, l),
    {
        let d = self.distance_between(owner, target);
        let e = Neighbor { index: target, distance: d };
        let mut list = self.take_edges(owner, layer);
        let ghost before = list@;
        proof {
            assert(old(self).links_ok(owner as int, layer as int));
            lemma_slot(before, d);
        }
        let mut at: usize = list.len();
        while at > 0 && list[at - 1].distance > d
            invariant
                0 <= at <= list.len(),
                list@ == before,
                by_distance(before),
                slot(before, d) <= at,
                forall|i: int| 0 <= i < slot(before, d) ==> (#[trigger] before[i]).distance <= d,
                forall|i: int| slot(before, d) <= i < before.len() ==> (#[trigger] before[i]).distance > d,
            decreases at,
        {
            proof {
                if slot(before, d) == at {
                    assert(before[at - 1].distance <= d);
                }
            }
            at -= 1;
        }
        proof {
            if slot(before, d) < at {
                assert(before[at - 1].distance > d);
            }
        }
        list.insert(at, e);
        let cap = if layer == 0 {
            MAX_DEGREE_ZERO
        } else {
            MAX_DEGREE
        };
        proof {
            assert forall|j: int| 0 <= j < list@.len() implies (#[trigger] list@[j]).index
                < self.size() by {
                if j < at {
                    assert(list@[j] == before[j]);
                    assert(old(self).edge_ok(owner as int, layer as int, before[j]));
                } else if j > at {
                    assert(list@[j] == before[j - 1]);
                    assert(old(self).edge_ok(owner as int, layer as int, before[j - 1]));
                }
            }
        }
        let next = if list.len() <= cap {
            list
        } else {
            self.select(&list, cap)
        };
        self.set_edges(owner, layer, next);
        proof {
            old(self).lemma_relinked(before, owner as int, layer as int, target);
            assert forall|i: int, l: int| self.occupies(i, l) implies #[trigger] self.links_ok(
                i,
                l,
            ) by {
                assert(old(self).occupies(i, l));
                assert(old(self).links_ok(i, l));
                if !(i == owner && l == layer) {
                    assert(self.edges(i, l) == old(self).edges(i, l));
                    assert forall|j: int| 0 <= j < self.edges(i, l).len() implies self.edge_ok(
                        i,
                        l,
                        #[trigger] self.edges(i, l)[j],
                    ) by {
                        assert(old(self).edge_ok(i, l, old(self).edges(i, l)[j]));
                    }
                } else {
                    let list = self.edges(i, l);
                    assert(old(self).list_ok(i, l, list));
                    assert forall|j: int| 0 <= j < list.len() implies self.edge_ok(
                        i,
                        l,
                        #[trigger] list[j],
                    ) by {
                        assert(old(self).edge_ok(i, l, list[j]));
                    }
                }
            }
            if self.nodes() > 0 {
                assert(old(self).highest_first(old(self).entry() as int));
                assert(self.highest_first(self.entry() as int));
            }
        }
    }

    /// The edges of the old node `i` in layer `l` once `point` is inserted
    /// with height `h`: where the new node is linked to it, its edges with
    /// one to the new node added; else its edges as they were.
    pub open spec fn rewired(&self, point: P, h: int, i: int, l: int) -> Seq<Neighbor> {
        if names(self.planned(&point, h, l), i as usize) {
            self.rewired_at(point, i, l)
        } else {
            self.edges(i, l)
        }
    }

    /// The edges of the old node `i` in layer `l` with an edge to the new
    /// node that holds `point` added.
    pub open spec fn rewired_at(&self, point: P, i: int, l: int) -> Seq<Neighbor> {
        relinked(
            self.metric(),
            self.points().push(point),
            self.edges(i, l),
            i,
            l,
            self.size() as usize,
        )
    }

    /// The edges of the old node `i` in layer `l` while the edges back to a
    /// new node are being added, when those of the layers below `layer` and
    /// the first `j` of `layer` are done.
    pub open spec fn rewired_upto(&self, point: P, h: int, i: int, l: int, layer: int, j: int) -> Seq<
        Neighbor,
    > {
        let plan = self.planned(&point, h, l);
        if (l < layer && names(plan, i as usize)) || (l == layer && names(plan.take(j), i as usize)) {
            self.rewired_at(point, i, l)
        } else {
            self.edges(i, l)
        }
    }

    /// Adds `point` to the index and returns its identifier. The point gets
    /// the height that the generator gives next, and in each of its layers
    /// that the graph reaches the edges planned for it; every node it is
    /// linked to gets an edge back; and the new node becomes the entry if it
    /// rises above all others.
    pub fn insert(&mut self, point: P, searcher: &mut Searcher) -> (id: usize)
        requires
            old(self).wf(),
        ensures
            final(self).wf(),
            id == old(self).size(),
            final(self).points() == old(self).points().push(point),
            final(self).metric() == old(self).metric(),
            final(self).params() == old(self).params(),
            final(self).generator() == advance(old(self).generator()),
            final(self).layers(id as int) == old(self).next_height() + 1,
            forall|i: int| 0 <= i < id ==> #[trigger] final(self).layers(i) == old(self).layers(i),
            final(self).entry() == (if old(self).size() == 0 || old(self).next_height() > old(self).top() {
                id
            } else {
                old(self).entry()
            }),
            forall|l: int|
                0 <= l <= old(self).next_height() ==> #[trigger] final(self).edges(id as int, l)
                    == old(self).planned(&point, old(self).next_height(), l),
            forall|i: int, l: int|
                old(self).occupies(i, l) ==> #[trigger] final(self).edges(i, l) == old(self).rewired(
                    point,
                    old(self).next_height(),
                    i,
                    l,
                ),
    {
        let h = self.peek_height();
        let id = self.len();
        let lists = self.plan(&point, h, searcher);
        let ghost p = point;
        let ghost hh = h as int;
        let rises = if id == 0 {
            true
        } else {
            proof {
                assert(self.highest_first(self.entry() as int));
            }
            h + 1 > self.layers_of(self.entry_point())
        };
        let start = if id == 0 {
            0
        } else if h + 1 < self.layers_of(self.entry_point()) {
            h
        } else {
            self.layers_of(self.entry_point()) - 1
        };
        self.step_generator();
        self.push_node(point, lists);
        if rises {
            self.set_entry(id);
        }
        proof {
            old(self).lemma_nodes_bounded();
            self.lemma_nodes_bounded();
            assert forall|i: int, l: int| self.occupies(i, l) implies #[trigger] self.links_ok(
                i,
                l,
            ) by {
                let list = self.edges(i, l);
                if i < id {
                    assert(old(self).occupies(i, l));
                    assert(old(self).links_ok(i, l));
                    assert(list == old(self).edges(i, l));
                    assert forall|j: int| 0 <= j < list.len() implies self.edge_ok(
                        i,
                        l,
                        #[trigger] list[j],
                    ) by {
                        assert(old(self).edge_ok(i, l, list[j]));
                    }
                } else {
                    old(self).lemma_planned(&p, hh, l);
                    assert(list == old(self).planned(&p, hh, l));
                    assert forall|j: int| 0 <= j < list.len() implies self.edge_ok(
                        i,
                        l,
                        #[trigger] list[j],
                    ) by {
                        assert(old(self).sees(&p, l, list[j]));
                    }
                }
            }
            if id > 0 {
                assert(old(self).highest_first(old(self).entry() as int));
            }
            assert(self.highest_first(self.entry() as int));
            assert(self.wf());
        }
        if id > 0 {
            let mut layer: usize = 0;
            while layer <= start
                invariant
                    old(self).wf(),
                    old(self).size() == id,
                    id > 0,
                    hh == old(self).next_height(),
                    0 <= hh <= MAX_HEIGHT,
                    start == old(self).start_layer(hh),
                    0 <= layer <= start + 1,
                    self.wf(),
                    self.points() == old(self).points().push(p),
                    self.metric() == old(self).metric(),
                    self.params() == old(self).params(),
                    self.generator() == advance(old(self).generator()),
                    self.nodes() == id + 1,
                    self.layers(id as int) == hh + 1,
                    forall|i: int| 0 <= i < id ==> #[trigger] self.layers(i) == old(self).layers(i),
                    self.entry() == (if hh > old(self).top() {
                        id
                    } else {
                        old(self).entry()
                    }),
                    forall|l: int|
                        0 <= l <= hh ==> #[trigger] self.edges(id as int, l) == old(self).planned(
                            &p,
                            hh,
                            l,
                        ),
                    forall|i: int, l: int|
                        old(self).occupies(i, l) ==> #[trigger] self.edges(i, l) == old(self).rewired_upto(p, hh, i, l, layer as int, 0),
                decreases start + 1 - layer,
            {
                let count = self.neighbors(id, layer).len();
                let ghost plan = old(self).planned(&p, hh, layer as int);
                proof {
                    old(self).lemma_planned(&p, hh, layer as int);
                    assert(plan.take(0) =~= Seq::<Neighbor>::empty());
                }
                let mut j: usize = 0;
                while j < count
                    invariant
                        old(self).wf(),
                        old(self).size() == id,
                        id > 0,
                        hh == old(self).next_height(),
                        0 <= hh <= MAX_HEIGHT,
                        start == old(self).start_layer(hh),
                        0 <= layer <= start,
                        plan == old(self).planned(&p, hh, layer as int),
                        count == plan.len(),
                        0 <= j <= count,
                        distinct(plan),
                        forall|m: int|
                            0 <= m < plan.len() ==> old(self).sees(&p, layer as int, #[trigger] plan[m]),
                        self.wf(),
                        self.points() == old(self).points().push(p),
                        self.metric() == old(self).metric(),
                        self.params() == old(self).params(),
                        self.generator() == advance(old(self).generator()),
                        self.nodes() == id + 1,
                        self.layers(id as int) == hh + 1,
                        forall|i: int|
                            0 <= i < id ==> #[trigger] self.layers(i) == old(self).layers(i),
                        self.entry() == (if hh > old(self).top() {
                            id
                        } else {
                            old(self).entry()
                        }),
                        forall|l: int|
                            0 <= l <= hh ==> #[trigger] self.edges(id as int, l) == old(self).planned(&p, hh, l),
                        forall|i: int, l: int|
                            old(self).occupies(i, l) ==> #[trigger] self.edges(i, l) == old(self).rewired_upto(p, hh, i, l, layer as int, j as int),
                    decreases count - j,
                {
                    let ghost before = *self;
                    let peer = self.neighbors(id, layer)[j].index;
                    proof {
                        assert(plan[j as int].index == peer);
                        assert(old(self).sees(&p, layer as int, plan[j as int]));
                        assert(old(self).occupies(peer as int, layer as int));
                        assert(!names(plan.take(j as int), peer)) by {
                            if names(plan.take(j as int), peer) {
                                let m = choose|m: int|
                                    0 <= m < plan.take(j as int).len() && (
                                    #[trigger] plan.take(j as int)[m]).index == peer;
                                assert(plan[m].index != plan[j as int].index);
                            }
                        }
                        let mine = self.edges(peer as int, layer as int);
                        assert(mine == old(self).edges(peer as int, layer as int));
                        assert(old(self).links_ok(peer as int, layer as int));
                        assert(!names(mine, id)) by {
                            if names(mine, id) {
                                let m = choose|m: int|
                                    0 <= m < mine.len() && (#[trigger] mine[m]).index == id;
                                assert(old(self).edge_ok(peer as int, layer as int, mine[m]));
                            }
                        }
                    }
                    self.link(peer, layer, id);
                    proof {
                        assert forall|i: int, l: int| old(self).occupies(i, l) implies #[trigger] self.edges(
                            i,
                            l,
                        ) == old(self).rewired_upto(p, hh, i, l, layer as int, j + 1) by {
                            assert(before.occupies(i, l));
                            let pl = old(self).planned(&p, hh, l);
                            if i == peer && l == layer {
                                assert(plan.take(j + 1)[j as int].index == peer);
                                assert(names(plan.take(j + 1), peer));
                            } else {
                                assert(self.edges(i, l) == before.edges(i, l));
                                if l == layer {
                                    if names(plan.take(j + 1), i as usize) {
                                        let m = choose|m: int|
                                            0 <= m < plan.take(j + 1).len() && (
                                            #[trigger] plan.take(j + 1)[m]).index == i as usize;
                                        assert(plan.take(j as int)[m] == plan.take(j + 1)[m]);
                                    }
                                    if names(plan.take(j as int), i as usize) {
                                        let m = choose|m: int|
                                            0 <= m < plan.take(j as int).len() && (
                                            #[trigger] plan.take(j as int)[m]).index == i as usize;
                                        assert(plan.take(j as int)[m] == plan.take(j + 1)[m]);
                                    }
                                }
                            }
                        }
                        assert forall|l: int| 0 <= l <= hh implies #[trigger] self.edges(id as int, l)
                            == old(self).planned(&p, hh, l) by {
                            assert(before.occupies(id as int, l));
                        }
                    }
                    j += 1;
                }
                proof {
                    assert(plan.take(count as int) =~= plan);
                    assert forall|i: int, l: int| old(self).occupies(i, l) implies #[trigger] self.edges(
                        i,
                        l,
                    ) == old(self).rewired_upto(p, hh, i, l, layer + 1, 0) by {
                        let pl = old(self).planned(&p, hh, l);
                        assert(pl.take(0) =~= Seq::<Neighbor>::empty());
                    }
                }
                layer += 1;
            }
            proof {
                assert forall|i: int, l: int| old(self).occupies(i, l) implies #[trigger] self.edges(
                    i,
                    l,
                ) == old(self).rewired(p, hh, i, l) by {
                    let pl = old(self).planned(&p, hh, l);
                    assert(pl.take(0) =~= Seq::<Neighbor>::empty());
                }
            }
        }
        id
    }
}

} // verus!
