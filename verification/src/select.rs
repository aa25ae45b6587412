//! The rule by which a node picks its edges from a pool of candidates.

use crate::graph::{by_distance, distinct, Hnsw};
use crate::metric::Metric;
use crate::neighbor::Neighbor;
use vstd::prelude::*;

verus! {

/// The distance from the point `a` to the point `b`.
pub open spec fn gap<P, M: Metric<P>>(metric: M, points: Seq<P>, a: int, b: int) -> u64 {
    metric.dist(&points[a], &points[b])
}

/// Whether the candidate `c` lies apart from all of `chosen`: it is no closer
/// to any of them than the distance it carries, which is its distance to the
/// point that picks.
pub open spec fn spread<P, M: Metric<P>>(
    metric: M,
    points: Seq<P>,
    c: Neighbor,
    chosen: Seq<Neighbor>,
) -> bool {
    forall|j: int|
        0 <= j < chosen.len() ==> gap(metric, points, c.index as int, (#[trigger] chosen[j]).index as int)
            >= c.distance
}

/// The edges picked from `pool`, at most `cap` of them: the candidates are
/// taken in turn, and one is picked while there is room if it lies apart from
/// all that were picked before it.
pub open spec fn selected<P, M: Metric<P>>(
    metric: M,
    points: Seq<P>,
    pool: Seq<Neighbor>,
    cap: nat,
) -> Seq<Neighbor>
    decreases pool.len(),
{
    if pool.len() == 0 {
        Seq::<Neighbor>::empty()
    } else {
        let before = selected(metric, points, pool.drop_last(), cap);
        if before.len() < cap && spread(metric, points, pool.last(), before) {
            before.push(pool.last())
        } else {
            before
        }
    }
}

/// What is picked from a pool: at most `cap` candidates and no more than the
/// pool holds, each of them from the pool, the first of the pool first
/// wherever anything may be picked, in the order of the pool and without
/// repetition if the pool has none, and each apart from those picked before
/// it.
pub proof fn lemma_selected<P, M: Metric<P>>(metric: M, points: Seq<P>, pool: Seq<Neighbor>, cap: nat)
    ensures
        selected(metric, points, pool, cap).len() <= cap,
        selected(metric, points, pool, cap).len() <= pool.len(),
        forall|j: int|
            0 <= j < selected(metric, points, pool, cap).len() ==> pool.contains(
                #[trigger] selected(metric, points, pool, cap)[j],
            ),
        pool.len() > 0 && cap > 0 ==> selected(metric, points, pool, cap).len() > 0 && selected(
            metric,
            points,
            pool,
            cap,
        )[0] == pool[0],
        by_distance(pool) ==> by_distance(selected(metric, points, pool, cap)),
        distinct(pool) ==> distinct(selected(metric, points, pool, cap)),
        forall|j: int|
            0 <= j < selected(metric, points, pool, cap).len() ==> spread(
                metric,
                points,
                #[trigger] selected(metric, points, pool, cap)[j],
                selected(metric, points, pool, cap).take(j),
            ),
    decreases pool.len(),
{
    if pool.len() > 0 {
        let t = pool.drop_last();
        let c = pool.last();
        lemma_selected(metric, points, t, cap);
        let before = selected(metric, points, t, cap);
        let after = selected(metric, points, pool, cap);
        assert forall|j: int| 0 <= j < after.len() implies pool.contains(#[trigger] after[j]) by {
            if j < before.len() {
                assert(after[j] == before[j]);
                assert(t.contains(before[j]));
                let i = choose|i: int| 0 <= i < t.len() && t[i] == before[j];
                assert(pool[i] == t[i]);
            } else {
                assert(pool[pool.len() - 1] == c);
            }
        }
        if t.len() > 0 {
            assert(t[0] == pool[0]);
        }
        if by_distance(pool) {
            assert(by_distance(t)) by {
                assert forall|i: int, j: int| 0 <= i < j < t.len() implies (#[trigger] t[i]).distance
                    <= (#[trigger] t[j]).distance by {
                    assert(t[i] == pool[i] && t[j] == pool[j]);
                }
            }
            assert forall|i: int, j: int| 0 <= i < j < after.len() implies (#[trigger] after[i]).distance
                <= (#[trigger] after[j]).distance by {
                if j < before.len() {
                    assert(after[i] == before[i] && after[j] == before[j]);
                } else {
                    assert(after[i] == before[i]);
                    assert(t.contains(before[i]));
                    let a = choose|a: int| 0 <= a < t.len() && t[a] == before[i];
                    assert(pool[a] == t[a]);
                    assert(pool[a].distance <= pool[pool.len() - 1].distance);
                }
            }
        }
        if distinct(pool) {
            assert(distinct(t)) by {
                assert forall|i: int, j: int| 0 <= i < j < t.len() implies (#[trigger] t[i]).index != (
                #[trigger] t[j]).index by {
                    assert(t[i] == pool[i] && t[j] == pool[j]);
                }
            }
            assert forall|i: int, j: int| 0 <= i < j < after.len() implies (#[trigger] after[i]).index
                != (#[trigger] after[j]).index by {
                if j < before.len() {
                    assert(after[i] == before[i] && after[j] == before[j]);
                } else {
                    assert(after[i] == before[i]);
                    assert(t.contains(before[i]));
                    let a = choose|a: int| 0 <= a < t.len() && t[a] == before[i];
                    assert(pool[a] == t[a]);
                    assert(pool[a].index != pool[pool.len() - 1].index);
                }
            }
        }
        assert forall|j: int| 0 <= j < after.len() implies spread(
            metric,
            points,
            #[trigger] after[j],
            after.take(j),
        ) by {
            if j < before.len() {
                assert(after[j] == before[j]);
                assert(after.take(j) =~= before.take(j));
            } else {
                assert(after.take(j) =~= before);
            }
        }
    }
}

impl<P, M: Metric<P>> Hnsw<P, M> {
    /// Picks at most `cap` edges from `pool`, which holds the candidates
    /// closest first, each with its distance to the point that picks.
    pub fn select(&self, pool: &Vec<Neighbor>, cap: usize) -> (chosen: Vec<Neighbor>)
        requires
            forall|j: int| 0 <= j < pool@.len() ==> (#[trigger] pool@[j]).index < self.size(),
        ensures
            chosen@ == selected(self.metric(), self.points(), pool@, cap as nat),
    {
        let mut chosen: Vec<Neighbor> = Vec::new();
        let mut i: usize = 0;
        proof {
            assert(pool@.take(0) =~= Seq::<Neighbor>::empty());
        }
        while i < pool.len()
            invariant
                0 <= i <= pool.len(),
                forall|j: int| 0 <= j < pool@.len() ==> (#[trigger] pool@[j]).index < self.size(),
                forall|j: int| 0 <= j < chosen@.len() ==> (#[trigger] chosen@[j]).index < self.size(),
                chosen@ == selected(self.metric(), self.points(), pool@.take(i as int), cap as nat),
            decreases pool.len() - i,
        {
            let c = pool[i];
            proof {
                let s = pool@.take(i + 1);
                assert(s.drop_last() =~= pool@.take(i as int));
                assert(s.last() == c);
            }
            if chosen.len() < cap {
                let mut apart = true;
                let mut j: usize = 0;
                while apart && j < chosen.len()
                    invariant
                        0 <= j <= chosen.len(),
                        c.index < self.size(),
                        forall|m: int|
                            0 <= m < chosen@.len() ==> (#[trigger] chosen@[m]).index < self.size(),
                        apart ==> spread(self.metric(), self.points(), c, chosen@.take(j as int)),
                        !apart ==> !spread(self.metric(), self.points(), c, chosen@),
                    decreases chosen.len() - j + (if apart { 1int } else { 0int }),
                {
                    let d = self.distance_between(c.index, chosen[j].index);
                    if d < c.distance {
                        apart = false;
                    } else {
                        proof {
                            let now = chosen@.take(j + 1);
                            assert forall|m: int| 0 <= m < now.len() implies gap(
                                self.metric(),
                                self.points(),
                                c.index as int,
                                (#[trigger] now[m]).index as int,
                            ) >= c.distance by {
                                if m < j {
                                    assert(chosen@.take(j as int)[m] == now[m]);
                                }
                            }
                        }
                        j += 1;
                    }
                }
                proof {
                    if apart {
                        assert(chosen@.take(j as int) =~= chosen@);
                    }
                }
                if apart {
                    chosen.push(c);
                }
            }
            i += 1;
        }
        proof {
            assert(pool@.take(pool.len() as int) =~= pool@);
        }
        chosen
    }
}

} // verus!
