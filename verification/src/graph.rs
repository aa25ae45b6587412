//! The layered graph: the points, the edges each point keeps in every layer
//! it occupies, and the point at which every descent starts.

use crate::level::{
    advance, draw, height, height_of, scramble, INITIAL_STATE, MAX_DEGREE, MAX_DEGREE_ZERO,
    MAX_HEIGHT,
};
use crate::metric::Metric;
use crate::neighbor::Neighbor;
use crate::params::Params;
use vstd::prelude::*;

verus! {

/// The largest number of edges a node keeps in `layer`.
pub open spec fn degree_cap(layer: int) -> nat {
    if layer == 0 {
        MAX_DEGREE_ZERO as nat
    } else {
        MAX_DEGREE as nat
    }
}

/// Whether no entry of `s` is farther than one after it.
pub open spec fn by_distance(s: Seq<Neighbor>) -> bool {
    forall|i: int, j: int|
        0 <= i < j < s.len() ==> (#[trigger] s[i]).distance <= (#[trigger] s[j]).distance
}

/// Whether no two entries of `s` name the same identifier.
pub open spec fn distinct(s: Seq<Neighbor>) -> bool {
    forall|i: int, j: int| 0 <= i < j < s.len() ==> (#[trigger] s[i]).index != (#[trigger] s[j]).index
}

/// Whether some entry of `s` names the identifier `id`.
pub open spec fn names(s: Seq<Neighbor>, id: usize) -> bool {
    exists|j: int| 0 <= j < s.len() && (#[trigger] s[j]).index == id
}

/// An approximate nearest-neighbour index over points of type `P` under the
/// metric `M`.
#[derive(Clone, Debug)]
pub struct Hnsw<P, M: Metric<P>> {
    metric: M,
    points: Vec<P>,
    links: Vec<Vec<Vec<Neighbor>>>,
    entry: usize,
    params: Params,
    state: u64,
}

impl<P, M: Metric<P>> Hnsw<P, M> {
    /// The points held, by identifier.
    pub closed spec fn points(&self) -> Seq<P> {
        self.points@
    }

    /// The metric distances are measured with.
    pub closed spec fn metric(&self) -> M {
        self.metric
    }

    /// The number of nodes, which is the number of points in a well-formed
    /// index.
    pub closed spec fn nodes(&self) -> nat {
        self.links@.len()
    }

    /// The number of layers that node `id` occupies, from the lowest up.
    pub closed spec fn layers(&self, id: int) -> nat {
        self.links@[id]@.len()
    }

    /// The edges of node `id` in `layer`.
    pub closed spec fn edges(&self, id: int, layer: int) -> Seq<Neighbor> {
        self.links@[id]@[layer]@
    }

    /// The node every descent starts at. It means nothing in an empty index.
    pub closed spec fn entry(&self) -> usize {
        self.entry
    }

    /// The construction parameters.
    pub closed spec fn params(&self) -> Params {
        self.params
    }

    /// The state of the generator that assigns heights.
    pub closed spec fn generator(&self) -> u64 {
        self.state
    }

    /// The number of points held.
    pub open spec fn size(&self) -> nat {
        self.points().len()
    }

    /// The distance from `q` to the point `id`.
    pub open spec fn dist_to(&self, q: &P, id: int) -> u64 {
        self.metric().dist(q, &self.points()[id])
    }

    /// The distance from the point `a` to the point `b`.
    pub open spec fn between(&self, a: int, b: int) -> u64 {
        self.metric().dist(&self.points()[a], &self.points()[b])
    }

    /// Whether node `id` exists and occupies `layer`.
    pub open spec fn occupies(&self, id: int, layer: int) -> bool {
        0 <= id < self.nodes() && 0 <= layer < self.layers(id)
    }

    /// Whether `e` can be an edge of `owner` in `layer`: it leads to another
    /// node of that layer and carries the distance from the owner to it.
    pub open spec fn edge_ok(&self, owner: int, layer: int, e: Neighbor) -> bool {
        &&& e.index != owner
        &&& self.occupies(e.index as int, layer)
        &&& e.distance == self.between(owner, e.index as int)
    }

    /// Whether `list` can be the edges of `owner` in `layer`: within the
    /// degree bound, every edge sound, closest first, no node twice.
    pub open spec fn list_ok(&self, owner: int, layer: int, list: Seq<Neighbor>) -> bool {
        &&& list.len() <= degree_cap(layer)
        &&& forall|j: int| 0 <= j < list.len() ==> self.edge_ok(owner, layer, #[trigger] list[j])
        &&& by_distance(list)
        &&& distinct(list)
    }

    /// Whether the edges of node `id` in `layer` are as they must be.
    pub open spec fn links_ok(&self, id: int, layer: int) -> bool {
        self.list_ok(id, layer, self.edges(id, layer))
    }

    /// Whether `id` is the earliest of the nodes that occupy the most layers.
    pub open spec fn highest_first(&self, id: int) -> bool {
        &&& 0 <= id < self.nodes()
        &&& forall|i: int| 0 <= i < self.nodes() ==> #[trigger] self.layers(i) <= self.layers(id)
        &&& forall|i: int| 0 <= i < id ==> #[trigger] self.layers(i) < self.layers(id)
    }

    /// The invariant of an index: every point has a node, every node occupies
    /// the lowest layer and no layer above the highest assignable, the edges
    /// of every node in every layer it occupies are as they must be, and the
    /// entry is the earliest node among those that reach the top.
    pub open spec fn wf(&self) -> bool {
        &&& self.nodes() == self.size()
        &&& forall|i: int|
            0 <= i < self.nodes() ==> 1 <= #[trigger] self.layers(i) <= MAX_HEIGHT + 1
        &&& forall|i: int, l: int| self.occupies(i, l) ==> #[trigger] self.links_ok(i, l)
        &&& self.nodes() > 0 ==> self.highest_first(self.entry() as int)
    }

    /// In a well-formed index no node has more edges in a layer than the
    /// layer allows, and every edge leads to another node of that layer.
    pub proof fn lemma_degree_bound(&self, id: int, layer: int)
        requires
            self.wf(),
            self.occupies(id, layer),
        ensures
            self.edges(id, layer).len() <= degree_cap(layer),
            layer == 0 ==> self.edges(id, layer).len() <= MAX_DEGREE_ZERO,
            layer > 0 ==> self.edges(id, layer).len() <= MAX_DEGREE,
            forall|j: int|
                0 <= j < self.edges(id, layer).len() ==> self.occupies(
                    (#[trigger] self.edges(id, layer)[j]).index as int,
                    layer,
                ) && self.edges(id, layer)[j].index != id,
    {
        assert(self.links_ok(id, layer));
        assert forall|j: int| 0 <= j < self.edges(id, layer).len() implies self.occupies(
            (#[trigger] self.edges(id, layer)[j]).index as int,
            layer,
        ) && self.edges(id, layer)[j].index != id by {
            assert(self.edge_ok(id, layer, self.edges(id, layer)[j]));
        }
    }

    /// There are never more nodes than the machine can count.
    pub proof fn lemma_nodes_bounded(&self)
        ensures
            self.nodes() <= usize::MAX,
    {
        assert(self.links.len() == self.links@.len());
    }

    /// An empty index with default parameters.
    pub fn new(metric: M) -> (g: Self)
        ensures
            g.wf(),
            g.size() == 0,
            g.metric() == metric,
            g.params().beam() == crate::params::DEFAULT_EF_CONSTRUCTION,
            g.generator() == INITIAL_STATE,
    {
        Self::new_params(metric, Params::new())
    }

    /// An empty index with the given parameters.
    pub fn new_params(metric: M, params: Params) -> (g: Self)
        ensures
            g.wf(),
            g.size() == 0,
            g.metric() == metric,
            g.params() == params,
            g.generator() == INITIAL_STATE,
    {
        Hnsw {
            metric,
            points: Vec::new(),
            links: Vec::new(),
            entry: 0,
            params,
            state: INITIAL_STATE,
        }
    }

    /// The number of points held.
    pub fn len(&self) -> (n: usize)
        ensures
            n == self.size(),
    {
        self.points.len()
    }

    /// Whether the index holds no point.
    pub fn is_empty(&self) -> (b: bool)
        ensures
            b == (self.size() == 0),
    {
        self.points.len() == 0
    }

    /// The point with identifier `id`.
    pub fn feature(&self, id: usize) -> (p: &P)
        requires
            id < self.size(),
        ensures
            *p == self.points()[id as int],
    {
        &self.points[id]
    }

    /// The number of layers that node `id` occupies.
    pub fn layers_of(&self, id: usize) -> (n: usize)
        requires
            id < self.nodes(),
        ensures
            n == self.layers(id as int),
    {
        self.links[id].len()
    }

    /// The edges of node `id` in `layer`.
    pub fn neighbors(&self, id: usize, layer: usize) -> (list: &Vec<Neighbor>)
        requires
            self.occupies(id as int, layer as int),
        ensures
            list@ == self.edges(id as int, layer as int),
    {
        &self.links[id][layer]
    }

    /// The node every descent starts at.
    pub fn entry_point(&self) -> (id: usize)
        ensures
            id == self.entry(),
    {
        self.entry
    }

    /// The beam width used while inserting.
    pub fn ef_construction(&self) -> (ef: usize)
        ensures
            ef == self.params().beam(),
    {
        self.params.beam_width()
    }

    /// The distance from `q` to the point `id`.
    pub fn distance_to(&self, q: &P, id: usize) -> (d: u64)
        requires
            id < self.size(),
        ensures
            d == self.dist_to(q, id as int),
    {
        self.metric.distance(q, &self.points[id])
    }

    /// The distance from the point `a` to the point `b`.
    pub fn distance_between(&self, a: usize, b: usize) -> (d: u64)
        requires
            a < self.size(),
            b < self.size(),
        ensures
            d == self.between(a as int, b as int),
    {
        self.metric.distance(&self.points[a], &self.points[b])
    }

    /// Whether everything but the edges and the entry of `self` is as in
    /// `other`: the points, the metric, the parameters, the generator and the
    /// layers each node occupies.
    pub open spec fn same_frame(&self, other: &Self) -> bool {
        &&& self.points() == other.points()
        &&& self.metric() == other.metric()
        &&& self.params() == other.params()
        &&& self.generator() == other.generator()
        &&& self.nodes() == other.nodes()
        &&& forall|i: int| 0 <= i < self.nodes() ==> #[trigger] self.layers(i) == other.layers(i)
    }

    /// The height the generator will give the next node.
    pub open spec fn next_height(&self) -> int {
        height_of(scramble(advance(self.generator())), MAX_HEIGHT as nat) as int
    }

    /// Looks up the height the generator will give the next node.
    pub fn peek_height(&self) -> (h: usize)
        ensures
            h == self.next_height(),
            h <= MAX_HEIGHT,
    {
        let mut state = self.state;
        let word = draw(&mut state);
        height(word)
    }

    /// Moves the generator on by one step.
    pub(crate) fn step_generator(&mut self)
        ensures
            final(self).generator() == advance(old(self).generator()),
            final(self).points() == old(self).points(),
            final(self).metric() == old(self).metric(),
            final(self).params() == old(self).params(),
            final(self).entry() == old(self).entry(),
            final(self).nodes() == old(self).nodes(),
            forall|i: int| #[trigger] final(self).layers(i) == old(self).layers(i),
            forall|i: int, l: int| #[trigger] final(self).edges(i, l) == old(self).edges(i, l),
    {
        let _ = draw(&mut self.state);
    }

    /// Makes `id` the node every descent starts at.
    pub(crate) fn set_entry(&mut self, id: usize)
        ensures
            final(self).entry() == id,
            final(self).same_frame(old(self)),
            forall|i: int, l: int| #[trigger] final(self).edges(i, l) == old(self).edges(i, l),
    {
        self.entry = id;
    }

    /// Adds a point and its node, with the edges given for each layer.
    pub(crate) fn push_node(&mut self, point: P, lists: Vec<Vec<Neighbor>>)
        requires
            old(self).nodes() == old(self).size(),
        ensures
            final(self).points() == old(self).points().push(point),
            final(self).nodes() == old(self).nodes() + 1,
            final(self).metric() == old(self).metric(),
            final(self).params() == old(self).params(),
            final(self).generator() == old(self).generator(),
            final(self).entry() == old(self).entry(),
            final(self).layers(old(self).nodes() as int) == lists@.len(),
            forall|l: int|
                0 <= l < lists@.len() ==> #[trigger] final(self).edges(
                    old(self).nodes() as int,
                    l,
                ) == lists@[l]@,
            forall|i: int|
                0 <= i < old(self).nodes() ==> #[trigger] final(self).layers(i) == old(self).layers(i),
            forall|i: int, l: int|
                0 <= i < old(self).nodes() ==> #[trigger] final(self).edges(i, l) == old(self).edges(i, l),
    {
        self.points.push(point);
        self.links.push(lists);
    }

    /// Takes the edges of node `id` in `layer` out of the graph, leaving the
    /// node without any there.
    pub(crate) fn take_edges(&mut self, id: usize, layer: usize) -> (list: Vec<Neighbor>)
        requires
            old(self).occupies(id as int, layer as int),
        ensures
            list@ == old(self).edges(id as int, layer as int),
            final(self).same_frame(old(self)),
            final(self).entry() == old(self).entry(),
            final(self).edges(id as int, layer as int) == Seq::<Neighbor>::empty(),
            forall|i: int, l: int|
                old(self).occupies(i, l) && !(i == id && l == layer) ==> #[trigger] final(self).edges(i, l) == old(self).edges(i, l),
    {
        let mut list: Vec<Neighbor> = Vec::new();
        std::mem::swap(&mut self.links[id][layer], &mut list);
        list
    }

    /// Replaces the edges of node `id` in `layer`.
    pub(crate) fn set_edges(&mut self, id: usize, layer: usize, list: Vec<Neighbor>)
        requires
            old(self).occupies(id as int, layer as int),
        ensures
            final(self).same_frame(old(self)),
            final(self).entry() == old(self).entry(),
            final(self).edges(id as int, layer as int) == list@,
            forall|i: int, l: int|
                old(self).occupies(i, l) && !(i == id && l == layer) ==> #[trigger] final(self).edges(i, l) == old(self).edges(i, l),
    {
        self.links[id][layer] = list;
    }
}

} // verus!
