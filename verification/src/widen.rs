//! A wider beam never answers worse: the narrow search and the wide one take
//! the same steps for as long as the narrow one goes on, and the results of
//! the narrow one are the head of those of the wide one all the while.

use crate::graph::Hnsw;
use crate::metric::Metric;
use crate::neighbor::{key_lt, Key, Neighbor};
use crate::search::beam_width;
use crate::ranked::{
    ascending, lemma_drop_last_ascending, lemma_rank_bounds, lemma_rank_splits, rank_of,
};
use crate::searcher::{
    accepts, closest_at, lemma_bounded_len, lemma_closest_at, lemma_offered, offered, Beam,
};
use vstd::prelude::*;

verus! {

/// A position that splits an ascending sequence into the keys before `x` and
/// the rest is the position of `x`.
pub proof fn lemma_rank_unique(s: Seq<Key>, x: Key, p: int)
    requires
        ascending(s),
        0 <= p <= s.len(),
        forall|i: int| 0 <= i < p ==> key_lt(#[trigger] s[i], x),
        forall|i: int| p <= i < s.len() ==> !key_lt(#[trigger] s[i], x),
    ensures
        rank_of(s, x) == p,
{
    lemma_rank_splits(s, x);
    let r = rank_of(s, x);
    if r < p {
        assert(key_lt(s[r], x));
    } else if p < r {
        assert(key_lt(s[p], x));
    }
}

/// A position whose entry is no farther than any other and closer than all
/// ahead of it is the position of the first closest entry.
pub proof fn lemma_closest_unique(s: Seq<Neighbor>, p: int)
    requires
        0 <= p < s.len(),
        forall|j: int| 0 <= j < s.len() ==> s[p].distance <= (#[trigger] s[j]).distance,
        forall|j: int| 0 <= j < p ==> s[p].distance < (#[trigger] s[j]).distance,
    ensures
        closest_at(s) == p,
{
    lemma_closest_at(s);
    let c = closest_at(s);
    if c < p {
        assert(s[p].distance < s[c].distance);
    } else if p < c {
        assert(s[c].distance < s[p].distance);
    }
}

/// Whether the results `y` are at least as good as the results `x`: there
/// are no fewer of them, and at every rank of `x` the one of `y` is no
/// farther.
pub open spec fn dominates(y: Seq<Key>, x: Seq<Key>) -> bool {
    &&& x.len() <= y.len()
    &&& forall|j: int| 0 <= j < x.len() ==> (#[trigger] y[j]).0 <= x[j].0
}

/// Whether `a` is the head of `b`, and all of it unless `a` holds `ef`
/// entries.
pub open spec fn head_of(a: Seq<Key>, b: Seq<Key>, ef: usize) -> bool {
    &&& a.len() <= b.len()
    &&& a.len() == b.len() || a.len() == ef
    &&& forall|j: int| 0 <= j < a.len() ==> #[trigger] a[j] == b[j]
}

/// Taking in a neighbour leaves results at least as good as before.
pub proof fn lemma_offered_improves(best: Seq<Key>, n: Neighbor, arrival: usize, ef: usize)
    requires
        ascending(best),
        forall|i: int| 0 <= i < best.len() ==> (#[trigger] best[i]).1 < arrival,
        best.len() <= ef,
        ef >= 1,
        accepts(best, n.distance, ef),
    ensures
        dominates(offered(best, n, arrival, ef), best),
{
    let key = n.key(arrival);
    let full = best.len() >= ef && best.len() > 0;
    let room = if full {
        best.drop_last()
    } else {
        best
    };
    if full {
        lemma_drop_last_ascending(best);
    }
    lemma_rank_splits(room, key);
    let r = rank_of(room, key);
    let after = room.insert(r, key);
    assert(after == offered(best, n, arrival, ef));
    assert forall|j: int| 0 <= j < best.len() implies (#[trigger] after[j]).0 <= best[j].0 by {
        if j < r {
            assert(after[j] == room[j]);
        } else if j == r {
            if r < room.len() {
                assert(!key_lt(room[r], key));
                assert(room[r].1 < arrival);
            }
        } else {
            assert(after[j] == room[j - 1]);
            assert(room[j - 1] == best[j - 1]);
            assert(key_lt(best[j - 1], best[j]));
        }
    }
}

/// If the results of a narrow beam are the head of those of a wide beam,
/// they still are after both were offered the same neighbour; and the wide
/// beam takes in whatever the narrow beam takes in.
pub proof fn lemma_offered_head(
    a: Seq<Key>,
    b: Seq<Key>,
    n: Neighbor,
    arrival: usize,
    ef1: usize,
    ef2: usize,
)
    requires
        ascending(b),
        forall|i: int| 0 <= i < b.len() ==> (#[trigger] b[i]).1 < arrival,
        head_of(a, b, ef1),
        1 <= ef1 <= ef2,
        a.len() <= ef1,
        b.len() <= ef2,
    ensures
        accepts(a, n.distance, ef1) ==> accepts(b, n.distance, ef2),
        accepts(a, n.distance, ef1) ==> head_of(
            offered(a, n, arrival, ef1),
            offered(b, n, arrival, ef2),
            ef1,
        ),
        !accepts(a, n.distance, ef1) && accepts(b, n.distance, ef2) ==> head_of(
            a,
            offered(b, n, arrival, ef2),
            ef1,
        ),
{
    let key = n.key(arrival);
    assert(ascending(a)) by {
        assert forall|i: int, j: int| 0 <= i < j < a.len() implies key_lt(
            #[trigger] a[i],
            #[trigger] a[j],
        ) by {
            assert(key_lt(b[i], b[j]));
        }
    }
    if a.len() > 0 && b.len() > a.len() {
        assert(key_lt(b[a.len() - 1], b[b.len() - 1]));
    }
    if accepts(b, n.distance, ef2) {
        let full_b = b.len() >= ef2 && b.len() > 0;
        let room_b = if full_b {
            b.drop_last()
        } else {
            b
        };
        if full_b {
            lemma_drop_last_ascending(b);
        }
        lemma_rank_splits(room_b, key);
        let rb = rank_of(room_b, key);
        let after_b = room_b.insert(rb, key);
        assert(after_b == offered(b, n, arrival, ef2));
        if accepts(a, n.distance, ef1) {
            let full_a = a.len() >= ef1 && a.len() > 0;
            let room_a = if full_a {
                a.drop_last()
            } else {
                a
            };
            if full_a {
                lemma_drop_last_ascending(a);
            }
            lemma_rank_bounds(room_a, key);
            let after_a = room_a.insert(rank_of(room_a, key), key);
            assert(after_a == offered(a, n, arrival, ef1));
            if !full_a {
                assert(a =~= b);
                assert(room_a == room_b);
            } else {
                // the key comes before the last of `a`
                assert(key_lt(key, a[a.len() - 1]));
                assert(a[a.len() - 1] == b[a.len() - 1]);
                if rb > a.len() - 1 {
                    assert(key_lt(room_b[a.len() - 1], key));
                }
                assert(rb <= a.len() - 1);
                assert forall|i: int| 0 <= i < rb implies key_lt(#[trigger] room_a[i], key) by {
                    assert(room_a[i] == room_b[i]);
                }
                assert forall|i: int| rb <= i < room_a.len() implies !key_lt(
                    #[trigger] room_a[i],
                    key,
                ) by {
                    assert(room_a[i] == room_b[i]);
                }
                lemma_rank_unique(room_a, key, rb);
                assert forall|j: int| 0 <= j < after_a.len() implies #[trigger] after_a[j]
                    == after_b[j] by {
                    if j < rb {
                        assert(after_a[j] == room_a[j] && after_b[j] == room_b[j]);
                    } else if j > rb {
                        assert(after_a[j] == room_a[j - 1] && after_b[j] == room_b[j - 1]);
                    }
                }
            }
        } else {
            // the narrow beam is full and the key comes behind all of it
            assert(a.len() == ef1);
            assert(a.len() < b.len() || b.len() < ef2);
            assert(forall|i: int| 0 <= i < a.len() ==> key_lt(#[trigger] a[i], key)) by {
                assert forall|i: int| 0 <= i < a.len() implies key_lt(#[trigger] a[i], key) by {
                    if i < a.len() - 1 {
                        assert(key_lt(a[i], a[a.len() - 1]));
                    }
                    assert(a[a.len() - 1].1 < arrival);
                }
            }
            if rb < a.len() {
                assert(room_b[rb] == a[rb]);
                assert(key_lt(a[rb], key));
            }
            assert forall|j: int| 0 <= j < a.len() implies #[trigger] a[j] == after_b[j] by {
                assert(after_b[j] == room_b[j]);
            }
        }
    } else {
        if accepts(a, n.distance, ef1) {
            if a.len() < ef1 {
                assert(a.len() == b.len());
            }
        }
    }
}

/// The number of entries of `found` that are no farther than `bound`.
pub open spec fn within(found: Seq<Neighbor>, bound: u64) -> nat
    decreases found.len(),
{
    if found.len() == 0 {
        0
    } else {
        within(found.drop_last(), bound) + if found.last().distance <= bound {
            1nat
        } else {
            0nat
        }
    }
}

/// An answer that is at least as good at every rank of another holds at
/// least as many entries within any bound.
pub proof fn lemma_within_grows(x: Seq<Neighbor>, y: Seq<Neighbor>, bound: u64)
    requires
        x.len() <= y.len(),
        forall|j: int| 0 <= j < x.len() ==> (#[trigger] y[j]).distance <= x[j].distance,
    ensures
        within(x, bound) <= within(y, bound),
    decreases y.len(),
{
    if y.len() > 0 {
        if x.len() == y.len() {
            let xs = x.drop_last();
            let ys = y.drop_last();
            assert forall|j: int| 0 <= j < xs.len() implies (#[trigger] ys[j]).distance
                <= xs[j].distance by {
                assert(ys[j] == y[j] && xs[j] == x[j]);
            }
            lemma_within_grows(xs, ys, bound);
            assert(y[y.len() - 1].distance <= x[x.len() - 1].distance);
        } else {
            let ys = y.drop_last();
            assert forall|j: int| 0 <= j < x.len() implies (#[trigger] ys[j]).distance
                <= x[j].distance by {
                assert(ys[j] == y[j]);
            }
            lemma_within_grows(x, ys, bound);
        }
    }
}

/// Whether `f` places the candidates of the frontier `fa`, in their order,
/// among those of the frontier `fb`.
pub open spec fn embeds(f: Seq<int>, fa: Seq<Neighbor>, fb: Seq<Neighbor>) -> bool {
    &&& f.len() == fa.len()
    &&& forall|i: int| 0 <= i < f.len() ==> 0 <= #[trigger] f[i] < fb.len() && fb[f[i]] == fa[i]
    &&& forall|i: int, j: int| 0 <= i < j < f.len() ==> #[trigger] f[i] < #[trigger] f[j]
}

/// Whether position `j` of the wide frontier is none of the places that `f`
/// gives to the candidates of the narrow one.
pub open spec fn extra(f: Seq<int>, j: int) -> bool {
    forall|i: int| 0 <= i < f.len() ==> #[trigger] f[i] != j
}

/// How the workspace `a` of a search with a beam of width `ef` stands to the
/// workspace `b` of the same search with a wider beam, as long as both go
/// on: the same nodes are reached; the results of `a` are the head of those
/// of `b`; the candidates of `a` are among those of `b`, in the same order,
/// at the places `f`; and every other candidate of `b` is one that the full
/// results of `a` beat, and is farther than each candidate of `a` behind it.
pub open spec fn shadows(a: Beam, b: Beam, f: Seq<int>, ef: usize) -> bool {
    &&& a.visited == b.visited
    &&& head_of(a.best, b.best, ef)
    &&& embeds(f, a.frontier, b.frontier)
    &&& forall|j: int|
        0 <= j < b.frontier.len() && #[trigger] extra(f, j) ==> a.best.len() == ef && a.best.len()
            > 0 && b.frontier[j].distance >= a.best.last().0
    &&& forall|j: int, i: int|
        0 <= j < b.frontier.len() && #[trigger] extra(f, j) && 0 <= i < f.len() && (#[trigger] f[i])
            > j ==> a.frontier[i].distance < b.frontier[j].distance
}

impl<P, M: Metric<P>> Hnsw<P, M> {
    /// Reaching the same node keeps a narrow workspace in the shadow of a
    /// wide one.
    pub proof fn lemma_reached_shadows(
        &self,
        q: &P,
        layer: int,
        ef1: usize,
        ef2: usize,
        a: Beam,
        b: Beam,
        f: Seq<int>,
        pending: Option<usize>,
        id: usize,
    ) -> (g: Seq<int>)
        requires
            self.wf(),
            1 <= ef1 <= ef2,
            self.beam_inv(q, layer, ef1, a, pending),
            self.beam_inv(q, layer, ef2, b, pending),
            shadows(a, b, f, ef1),
            self.occupies(id as int, layer),
        ensures
            shadows(self.reached(q, a, id, ef1), self.reached(q, b, id, ef2), g, ef1),
    {
        if a.visited.contains(id) {
            f
        } else {
            let visited = a.visited.insert(id);
            assert forall|v: usize| visited.contains(v) implies v < self.nodes() by {
                if v != id {
                    assert(a.visited.contains(v));
                }
            }
            lemma_bounded_len(visited, self.nodes());
            self.lemma_nodes_bounded();
            let arrival = visited.len() as usize;
            let n = Neighbor { index: id, distance: self.dist_to(q, id as int) };
            let a2 = self.reached(q, a, id, ef1);
            let b2 = self.reached(q, b, id, ef2);
            lemma_offered_head(a.best, b.best, n, arrival, ef1, ef2);
            if accepts(a.best, n.distance, ef1) {
                lemma_offered(a.best, n, arrival, ef1);
                let g = f.push(b.frontier.len() as int);
                assert forall|i: int| 0 <= i < g.len() implies 0 <= #[trigger] g[i]
                    < b2.frontier.len() && b2.frontier[g[i]] == a2.frontier[i] by {
                    if i < f.len() {
                        assert(g[i] == f[i]);
                    }
                }
                assert forall|i: int, j: int| 0 <= i < j < g.len() implies #[trigger] g[i]
                    < #[trigger] g[j] by {
                    assert(g[i] == f[i]);
                    if j < f.len() {
                        assert(g[j] == f[j]);
                    }
                }
                assert forall|j: int| 0 <= j < b2.frontier.len() && #[trigger] extra(g, j) implies j
                    < b.frontier.len() && extra(f, j) by {
                    assert(g[f.len() as int] != j);
                    assert forall|i: int| 0 <= i < f.len() implies #[trigger] f[i] != j by {
                        assert(g[i] == f[i]);
                    }
                }
                assert forall|j: int, i: int|
                    0 <= j < b2.frontier.len() && #[trigger] extra(g, j) && 0 <= i < g.len() && (
                    #[trigger] g[i]) > j implies a2.frontier[i].distance
                    < b2.frontier[j].distance by {
                    assert(extra(f, j));
                    if i < f.len() {
                        assert(g[i] == f[i]);
                    }
                }
                g
            } else {
                if accepts(b.best, n.distance, ef2) {
                    assert forall|j: int|
                        0 <= j < b2.frontier.len() && #[trigger] extra(f, j) implies a2.best.len()
                        == ef1 && a2.best.len() > 0 && b2.frontier[j].distance
                        >= a2.best.last().0 by {
                        if j < b.frontier.len() {
                            assert(b2.frontier[j] == b.frontier[j]);
                        }
                    }
                    assert forall|j: int, i: int|
                        0 <= j < b2.frontier.len() && #[trigger] extra(f, j) && 0 <= i < f.len() && (
                        #[trigger] f[i]) > j implies a2.frontier[i].distance
                        < b2.frontier[j].distance by {
                        assert(b2.frontier[j] == b.frontier[j]);
                    }
                }
                f
            }
        }
    }

    /// Reaching the targets of the same sound edges keeps a narrow workspace
    /// in the shadow of a wide one.
    pub proof fn lemma_expanded_shadows(
        &self,
        q: &P,
        layer: int,
        ef1: usize,
        ef2: usize,
        a: Beam,
        b: Beam,
        f: Seq<int>,
        pending: Option<usize>,
        owner: int,
        list: Seq<Neighbor>,
    ) -> (g: Seq<int>)
        requires
            self.wf(),
            1 <= ef1 <= ef2,
            self.beam_inv(q, layer, ef1, a, pending),
            self.beam_inv(q, layer, ef2, b, pending),
            shadows(a, b, f, ef1),
            forall|j: int| 0 <= j < list.len() ==> self.edge_ok(owner, layer, #[trigger] list[j]),
        ensures
            shadows(self.expanded(q, a, list, ef1), self.expanded(q, b, list, ef2), g, ef1),
        decreases list.len(),
    {
        if list.len() == 0 {
            f
        } else {
            let t = list.drop_last();
            assert forall|j: int| 0 <= j < t.len() implies self.edge_ok(
                owner,
                layer,
                #[trigger] t[j],
            ) by {
                assert(t[j] == list[j]);
            }
            let m = self.lemma_expanded_shadows(q, layer, ef1, ef2, a, b, f, pending, owner, t);
            self.lemma_expanded_inv(q, layer, ef1, a, pending, owner, t);
            self.lemma_expanded_inv(q, layer, ef2, b, pending, owner, t);
            assert(self.edge_ok(owner, layer, list[list.len() - 1]));
            self.lemma_reached_shadows(
                q,
                layer,
                ef1,
                ef2,
                self.expanded(q, a, t, ef1),
                self.expanded(q, b, t, ef2),
                m,
                pending,
                list.last().index,
            )
        }
    }

    /// Where the narrow search goes on, the wide one takes the same
    /// candidate off its frontier, and the narrow workspace stays in the
    /// shadow of the wide one.
    pub proof fn lemma_popped_shadows(
        &self,
        q: &P,
        layer: int,
        ef1: usize,
        ef2: usize,
        a: Beam,
        b: Beam,
        f: Seq<int>,
    ) -> (g: Seq<int>)
        requires
            self.wf(),
            1 <= ef1 <= ef2,
            self.beam_inv(q, layer, ef1, a, None),
            self.beam_inv(q, layer, ef2, b, None),
            shadows(a, b, f, ef1),
            a.frontier.len() > 0,
            a.frontier[closest_at(a.frontier)].distance <= a.best.last().0,
        ensures
            b.frontier.len() > 0,
            closest_at(b.frontier) == f[closest_at(a.frontier)],
            b.frontier[closest_at(b.frontier)] == a.frontier[closest_at(a.frontier)],
            b.frontier[closest_at(b.frontier)].distance <= b.best.last().0,
            shadows(
                Beam {
                    frontier: a.frontier.remove(closest_at(a.frontier)),
                    best: a.best,
                    visited: a.visited,
                },
                Beam {
                    frontier: b.frontier.remove(closest_at(b.frontier)),
                    best: b.best,
                    visited: b.visited,
                },
                g,
                ef1,
            ),
    {
        lemma_closest_at(a.frontier);
        let ia = closest_at(a.frontier);
        let c = a.frontier[ia];
        let p = f[ia];
        assert forall|j: int| 0 <= j < b.frontier.len() implies c.distance <= (
        #[trigger] b.frontier[j]).distance && (j < p ==> c.distance < b.frontier[j].distance) by {
            if extra(f, j) {
                if j < p {
                    assert(f[ia] > j);
                }
            } else {
                let i = choose|i: int| 0 <= i < f.len() && #[trigger] f[i] == j;
                assert(b.frontier[f[i]] == a.frontier[i]);
                if j < p {
                    if i >= ia {
                        if i > ia {
                            assert(f[ia] < f[i]);
                        }
                    }
                }
            }
        }
        lemma_closest_unique(b.frontier, p);
        if a.best.len() < b.best.len() {
            assert(key_lt(b.best[a.best.len() - 1], b.best[b.best.len() - 1]));
        }
        assert(a.best[a.best.len() - 1] == b.best[a.best.len() - 1]);
        let g = Seq::new(
            (f.len() - 1) as nat,
            |i: int|
                if i < ia {
                    f[i]
                } else {
                    f[i + 1] - 1
                },
        );
        let fa = a.frontier.remove(ia);
        let fb = b.frontier.remove(p);
        assert forall|i: int| 0 <= i < g.len() implies 0 <= #[trigger] g[i] < fb.len() && fb[g[i]]
            == fa[i] by {
            if i < ia {
                assert(f[i] < f[ia]);
                assert(fa[i] == a.frontier[i]);
                assert(fb[f[i]] == b.frontier[f[i]]);
            } else {
                assert(f[ia] < f[i + 1]);
                assert(fa[i] == a.frontier[i + 1]);
                assert(fb[f[i + 1] - 1] == b.frontier[f[i + 1]]);
            }
        }
        assert forall|i: int, j: int| 0 <= i < j < g.len() implies #[trigger] g[i] < #[trigger] g[j] by {
            if j < ia {
                assert(f[i] < f[j]);
            } else if i < ia {
                assert(f[i] < f[ia]);
                assert(f[ia] < f[j + 1]);
            } else {
                assert(f[i + 1] < f[j + 1]);
            }
        }
        assert forall|j: int| 0 <= j < fb.len() && #[trigger] extra(g, j) implies extra(
            f,
            if j < p {
                j
            } else {
                j + 1
            },
        ) by {
            let old_j = if j < p {
                j
            } else {
                j + 1
            };
            assert forall|i: int| 0 <= i < f.len() implies #[trigger] f[i] != old_j by {
                if i < ia {
                    assert(g[i] == f[i]);
                    assert(f[i] < f[ia]);
                } else if i > ia {
                    assert(g[i - 1] == f[i] - 1);
                    assert(f[ia] < f[i]);
                }
            }
        }
        assert forall|j: int| 0 <= j < fb.len() && #[trigger] extra(g, j) implies a.best.len() == ef1
            && a.best.len() > 0 && fb[j].distance >= a.best.last().0 by {
            let old_j = if j < p {
                j
            } else {
                j + 1
            };
            assert(extra(f, old_j));
            assert(fb[j] == b.frontier[old_j]);
        }
        assert forall|j: int, i: int|
            0 <= j < fb.len() && #[trigger] extra(g, j) && 0 <= i < g.len() && (#[trigger] g[i])
                > j implies fa[i].distance < fb[j].distance by {
            let old_j = if j < p {
                j
            } else {
                j + 1
            };
            assert(extra(f, old_j));
            assert(fb[j] == b.frontier[old_j]);
            if i < ia {
                assert(f[i] < f[ia]);
                assert(f[i] > old_j);
                assert(fa[i] == a.frontier[i]);
            } else {
                assert(f[ia] < f[i + 1]);
                assert(f[i + 1] > old_j);
                assert(fa[i] == a.frontier[i + 1]);
            }
        }
        g
    }

    /// Reaching a node leaves results at least as good as before.
    pub proof fn lemma_reached_improves(
        &self,
        q: &P,
        layer: int,
        ef: usize,
        st: Beam,
        pending: Option<usize>,
        id: usize,
    )
        requires
            self.wf(),
            self.beam_inv(q, layer, ef, st, pending),
            self.occupies(id as int, layer),
        ensures
            dominates(self.reached(q, st, id, ef).best, st.best),
    {
        if !st.visited.contains(id) {
            let visited = st.visited.insert(id);
            assert forall|v: usize| visited.contains(v) implies v < self.nodes() by {
                if v != id {
                    assert(st.visited.contains(v));
                }
            }
            lemma_bounded_len(visited, self.nodes());
            self.lemma_nodes_bounded();
            let n = Neighbor { index: id, distance: self.dist_to(q, id as int) };
            if accepts(st.best, n.distance, ef) {
                lemma_offered_improves(st.best, n, visited.len() as usize, ef);
            }
        }
    }

    /// Reaching the targets of sound edges leaves results at least as good
    /// as before.
    pub proof fn lemma_expanded_improves(
        &self,
        q: &P,
        layer: int,
        ef: usize,
        st: Beam,
        pending: Option<usize>,
        owner: int,
        list: Seq<Neighbor>,
    )
        requires
            self.wf(),
            self.beam_inv(q, layer, ef, st, pending),
            forall|j: int| 0 <= j < list.len() ==> self.edge_ok(owner, layer, #[trigger] list[j]),
        ensures
            dominates(self.expanded(q, st, list, ef).best, st.best),
        decreases list.len(),
    {
        if list.len() > 0 {
            let t = list.drop_last();
            assert forall|j: int| 0 <= j < t.len() implies self.edge_ok(
                owner,
                layer,
                #[trigger] t[j],
            ) by {
                assert(t[j] == list[j]);
            }
            self.lemma_expanded_improves(q, layer, ef, st, pending, owner, t);
            self.lemma_expanded_inv(q, layer, ef, st, pending, owner, t);
            assert(self.edge_ok(owner, layer, list[list.len() - 1]));
            let mid = self.expanded(q, st, t, ef);
            self.lemma_reached_improves(q, layer, ef, mid, pending, list.last().index);
            let end = self.reached(q, mid, list.last().index, ef);
            assert forall|j: int| 0 <= j < st.best.len() implies (#[trigger] end.best[j]).0
                <= st.best[j].0 by {
                assert(mid.best[j].0 <= st.best[j].0);
            }
        }
    }

    /// A beam search ends with results at least as good as those it goes on
    /// from.
    pub proof fn lemma_beam_run_improves(&self, q: &P, layer: int, ef: usize, st: Beam)
        requires
            self.wf(),
            self.beam_inv(q, layer, ef, st, None),
        ensures
            dominates(self.beam_run(q, st, layer, ef).best, st.best),
        decreases self.beam_fuel(st),
    {
        if st.frontier.len() > 0 {
            self.lemma_popped_inv(q, layer, ef, st);
            let at = closest_at(st.frontier);
            let c = st.frontier[at];
            let rest = Beam { frontier: st.frontier.remove(at), best: st.best, visited: st.visited };
            if !(c.distance > st.best.last().0) {
                self.lemma_stepped_inv(q, layer, ef, st);
                let list = self.edges(c.index as int, layer);
                assert(self.links_ok(c.index as int, layer));
                self.lemma_expanded_improves(q, layer, ef, rest, Some(c.index), c.index as int, list);
                let next = self.expanded(q, rest, list, ef);
                self.lemma_beam_run_improves(q, layer, ef, next);
                let end = self.beam_run(q, next, layer, ef);
                assert forall|j: int| 0 <= j < st.best.len() implies (#[trigger] end.best[j]).0
                    <= st.best[j].0 by {
                    assert(next.best[j].0 <= st.best[j].0);
                }
            }
        }
    }

    /// A beam search from a workspace in the shadow of another, which runs
    /// with a beam at least as wide, ends with results that are no better
    /// than those of the other.
    pub proof fn lemma_beam_run_shadows(
        &self,
        q: &P,
        layer: int,
        ef1: usize,
        ef2: usize,
        a: Beam,
        b: Beam,
        f: Seq<int>,
    )
        requires
            self.wf(),
            1 <= ef1 <= ef2,
            self.beam_inv(q, layer, ef1, a, None),
            self.beam_inv(q, layer, ef2, b, None),
            shadows(a, b, f, ef1),
        ensures
            dominates(self.beam_run(q, b, layer, ef2).best, self.beam_run(q, a, layer, ef1).best),
        decreases self.beam_fuel(a),
    {
        let stops = a.frontier.len() == 0 || a.frontier[closest_at(a.frontier)].distance
            > a.best.last().0;
        if stops {
            self.lemma_beam_run_improves(q, layer, ef2, b);
            let end = self.beam_run(q, b, layer, ef2);
            assert(self.beam_run(q, a, layer, ef1).best == a.best);
            assert forall|j: int| 0 <= j < a.best.len() implies (#[trigger] end.best[j]).0
                <= a.best[j].0 by {
                assert(a.best[j] == b.best[j]);
                assert(end.best[j].0 <= b.best[j].0);
            }
        } else {
            let g = self.lemma_popped_shadows(q, layer, ef1, ef2, a, b, f);
            self.lemma_popped_inv(q, layer, ef1, a);
            self.lemma_popped_inv(q, layer, ef2, b);
            self.lemma_stepped_inv(q, layer, ef1, a);
            self.lemma_stepped_inv(q, layer, ef2, b);
            let ia = closest_at(a.frontier);
            let c = a.frontier[ia];
            let rest_a = Beam { frontier: a.frontier.remove(ia), best: a.best, visited: a.visited };
            let rest_b = Beam {
                frontier: b.frontier.remove(closest_at(b.frontier)),
                best: b.best,
                visited: b.visited,
            };
            let list = self.edges(c.index as int, layer);
            assert(self.links_ok(c.index as int, layer));
            let h = self.lemma_expanded_shadows(
                q,
                layer,
                ef1,
                ef2,
                rest_a,
                rest_b,
                g,
                Some(c.index),
                c.index as int,
                list,
            );
            self.lemma_beam_run_shadows(
                q,
                layer,
                ef1,
                ef2,
                self.expanded(q, rest_a, list, ef1),
                self.expanded(q, rest_b, list, ef2),
                h,
            );
        }
    }

    /// A query with a wider beam is answered at least as well: with no fewer
    /// results, and at every rank with one that is no farther from `q`.
    pub proof fn lemma_wider_beam(&self, q: &P, k: usize, ef1: usize, ef2: usize)
        requires
            self.wf(),
            ef1 <= ef2,
        ensures
            self.nearest(q, k, ef1).len() <= self.nearest(q, k, ef2).len(),
            forall|j: int|
                0 <= j < self.nearest(q, k, ef1).len() ==> (#[trigger] self.nearest(
                    q,
                    k,
                    ef2,
                )[j]).distance <= self.nearest(q, k, ef1)[j].distance,
    {
        if self.size() > 0 && k > 0 {
            let start = self.entry_seen(q);
            assert(self.highest_first(self.entry() as int));
            assert(self.sees(q, self.top(), start));
            self.lemma_descent(q, start, self.top(), 0);
            let seed = self.descent(q, start, self.top(), 0);
            let w1 = beam_width(k, ef1);
            let w2 = beam_width(k, ef2);
            self.lemma_started_inv(q, 0, w1, seed);
            self.lemma_started_inv(q, 0, w2, seed);
            let a = self.started(seed, w1);
            let b = self.started(seed, w2);
            let none = Seq::<Key>::empty();
            lemma_offered(none, seed, 1, w1);
            lemma_offered(none, seed, 1, w2);
            assert(a.best.len() == 1 && b.best.len() == 1);
            assert(a.best.contains(seed.key(1)) && b.best.contains(seed.key(1)));
            assert(a.best[0] == seed.key(1) && b.best[0] == seed.key(1));
            let f = Seq::<int>::empty().push(0);
            assert(a.frontier[0] == seed && b.frontier[0] == seed);
            assert(!extra(f, 0)) by {
                assert(f[0] == 0);
            }
            assert(shadows(a, b, f, w1));
            self.lemma_beam_run_shadows(q, 0, w1, w2, a, b, f);
            let x = self.beam_run(q, a, 0, w1).best;
            let y = self.beam_run(q, b, 0, w2).best;
            assert forall|j: int| 0 <= j < self.nearest(q, k, ef1).len() implies (
            #[trigger] self.nearest(q, k, ef2)[j]).distance <= self.nearest(
                q,
                k,
                ef1,
            )[j].distance by {
                assert(y[j].0 <= x[j].0);
            }
        }
    }

    /// Recall never shrinks as the beam grows wider: whatever distance is
    /// taken as the bound of the true nearest neighbours, a query with a
    /// wider beam returns at least as many points within it.
    pub proof fn lemma_recall_grows(&self, q: &P, k: usize, ef1: usize, ef2: usize, bound: u64)
        requires
            self.wf(),
            ef1 <= ef2,
        ensures
            within(self.nearest(q, k, ef1), bound) <= within(self.nearest(q, k, ef2), bound),
    {
        self.lemma_wider_beam(q, k, ef1, ef2);
        lemma_within_grows(self.nearest(q, k, ef1), self.nearest(q, k, ef2), bound);
    }
}

} // verus!
