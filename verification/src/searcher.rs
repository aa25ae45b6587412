//! The reusable workspace that every traversal of the index borrows.

use crate::neighbor::{key_lt, key_neighbor, Key, Neighbor};
use crate::ranked::{
    ascending, lemma_drop_last_ascending, lemma_insert_ascending, lemma_rank_bounds, rank_of,
    ranked_clear, ranked_insert, ranked_keys, ranked_last, ranked_len, ranked_new,
    ranked_pop_back, ranked_pop_min,
};
use crate::visited::{
    seeded_state, visited_clear, visited_ids, visited_insert, visited_len, visited_new, IdSet,
};
use convenient_skiplist::SkipList;
use vstd::prelude::*;

verus! {

/// The position, in a non-empty sequence, of the first entry at the smallest
/// distance.
pub open spec fn closest_at(s: Seq<Neighbor>) -> int
    decreases s.len(),
{
    if s.len() <= 1 {
        0
    } else {
        let i = closest_at(s.drop_last());
        if s.last().distance < s[i].distance {
            s.len() - 1
        } else {
            i
        }
    }
}

/// The first entry at the smallest distance is an entry of the sequence, no
/// entry is closer, and every entry ahead of it is farther.
pub proof fn lemma_closest_at(s: Seq<Neighbor>)
    requires
        s.len() > 0,
    ensures
        0 <= closest_at(s) < s.len(),
        forall|j: int| 0 <= j < s.len() ==> s[closest_at(s)].distance <= (#[trigger] s[j]).distance,
        forall|j: int|
            0 <= j < closest_at(s) ==> s[closest_at(s)].distance < (#[trigger] s[j]).distance,
    decreases s.len(),
{
    if s.len() > 1 {
        let t = s.drop_last();
        lemma_closest_at(t);
        let i = closest_at(t);
        assert(t[i] == s[i]);
        assert forall|j: int| 0 <= j < s.len() implies s[closest_at(s)].distance <= (
        #[trigger] s[j]).distance by {
            if j < t.len() {
                assert(t[j] == s[j]);
            }
        }
        assert forall|j: int| 0 <= j < closest_at(s) implies s[closest_at(s)].distance < (
        #[trigger] s[j]).distance by {
            assert(t[j] == s[j]);
        }
    }
}

/// The best results after `n` is taken in as arrival number `arrival` to a
/// set capped at `ef` entries: the worst entry leaves where the set is full,
/// and the new key takes its place in the order.
pub open spec fn offered(best: Seq<Key>, n: Neighbor, arrival: usize, ef: usize) -> Seq<Key> {
    let room = if best.len() >= ef && best.len() > 0 {
        best.drop_last()
    } else {
        best
    };
    room.insert(rank_of(room, n.key(arrival)), n.key(arrival))
}

/// Whether a set of best results capped at `ef` entries takes in a neighbour
/// at `distance`: it does while it has room, and once full only for a
/// distance strictly below its worst.
pub open spec fn accepts(best: Seq<Key>, distance: u64, ef: usize) -> bool {
    best.len() < ef || (best.len() > 0 && distance < best.last().0)
}

/// What taking in a neighbour does to the best results: the order is kept,
/// the new key is among them, every other entry was there before, and every
/// earlier entry stays unless it was the worst of a full set, in which case
/// the worst that remains is no farther than it was.
pub proof fn lemma_offered(best: Seq<Key>, n: Neighbor, arrival: usize, ef: usize)
    requires
        ascending(best),
        forall|i: int| 0 <= i < best.len() ==> (#[trigger] best[i]).1 < arrival,
        best.len() <= ef,
        ef >= 1,
        accepts(best, n.distance, ef),
    ensures
        ascending(offered(best, n, arrival, ef)),
        best.len() < ef ==> offered(best, n, arrival, ef).len() == best.len() + 1,
        best.len() == ef ==> offered(best, n, arrival, ef).len() == ef,
        offered(best, n, arrival, ef).contains(n.key(arrival)),
        forall|j: int|
            0 <= j < offered(best, n, arrival, ef).len() ==> {
                let k = #[trigger] offered(best, n, arrival, ef)[j];
                k == n.key(arrival) || best.contains(k)
            },
        forall|i: int|
            0 <= i < best.len() && !(best.len() == ef && i == best.len() - 1) ==> offered(
                best,
                n,
                arrival,
                ef,
            ).contains(#[trigger] best[i]),
        best.len() == ef ==> offered(best, n, arrival, ef).last().0 <= best.last().0,
        best.len() == ef ==> !offered(best, n, arrival, ef).contains(best.last()),
        best.len() > 0 ==> offered(best, n, arrival, ef)[0].0 <= best[0].0,
{
    let key = n.key(arrival);
    let full = best.len() >= ef && best.len() > 0;
    let room = if full {
        best.drop_last()
    } else {
        best
    };
    if full {
        lemma_drop_last_ascending(best);
    }
    assert forall|i: int| 0 <= i < room.len() implies (#[trigger] room[i]).1 < arrival by {
        assert(room[i] == best[i]);
    }
    assert(!room.contains(key)) by {
        if room.contains(key) {
            let i = choose|i: int| 0 <= i < room.len() && room[i] == key;
            assert(room[i].1 < arrival);
        }
    }
    lemma_insert_ascending(room, key);
    lemma_rank_bounds(room, key);
    let r = rank_of(room, key);
    let after = room.insert(r, key);
    assert(after == offered(best, n, arrival, ef));
    assert(after[r] == key);
    assert forall|j: int| 0 <= j < after.len() implies {
        let k = #[trigger] after[j];
        k == key || best.contains(k)
    } by {
        if j < r {
            assert(after[j] == room[j] && room[j] == best[j]);
        } else if j > r {
            assert(after[j] == room[j - 1] && room[j - 1] == best[j - 1]);
        }
    }
    assert forall|i: int|
        0 <= i < best.len() && !(best.len() == ef && i == best.len() - 1) implies after.contains(
        #[trigger] best[i],
    ) by {
        assert(room[i] == best[i]);
        if i < r {
            assert(after[i] == room[i]);
        } else {
            assert(after[i + 1] == room[i]);
        }
    }
    if best.len() == ef {
        let w = best.last();
        let last = after.last();
        assert(last == key || best.contains(last));
        if last != key {
            let i = choose|i: int| 0 <= i < best.len() && best[i] == last;
            if i < best.len() - 1 {
                assert(key_lt(best[i], best[best.len() - 1]));
            }
        }
        assert(!after.contains(w)) by {
            if after.contains(w) {
                let j = choose|j: int| 0 <= j < after.len() && after[j] == w;
                if j < r {
                    assert(after[j] == room[j] && room[j] == best[j]);
                    assert(key_lt(best[j], best[best.len() - 1]));
                } else if j > r {
                    assert(after[j] == room[j - 1] && room[j - 1] == best[j - 1]);
                    assert(key_lt(best[j - 1], best[best.len() - 1]));
                }
            }
        }
    }
    if best.len() > 0 {
        if best.len() == ef && best.len() == 1 {
            assert(after[0] == key);
        } else {
            assert(after.contains(best[0]));
            let j = choose|j: int| 0 <= j < after.len() && after[j] == best[0];
            if j > 0 {
                assert(key_lt(after[0], after[j]));
            }
        }
    }
}

/// A finite set of identifiers that all lie below `n` has at most `n`
/// members.
pub proof fn lemma_bounded_len(s: Set<usize>, n: nat)
    requires
        s.finite(),
        forall|x: usize| s.contains(x) ==> x < n,
    ensures
        s.len() <= n,
    decreases n,
{
    if n == 0 {
        assert(s =~= Set::<usize>::empty());
    } else if n - 1 <= usize::MAX {
        let top = (n - 1) as usize;
        let t = s.remove(top);
        assert forall|x: usize| t.contains(x) implies x < n - 1 by {
            assert(s.contains(x));
        }
        lemma_bounded_len(t, (n - 1) as nat);
    } else {
        assert forall|x: usize| s.contains(x) implies x < n - 1 by {}
        lemma_bounded_len(s, (n - 1) as nat);
    }
}

/// The contents of a workspace in the middle of a traversal.
pub struct Beam {
    /// The candidates still to be expanded, in the order they joined.
    pub frontier: Seq<Neighbor>,
    /// The best results found so far, closest first.
    pub best: Seq<Key>,
    /// The identifiers already reached.
    pub visited: Set<usize>,
}

/// The state a traversal works on: the frontier of candidates still to be
/// expanded, the best results found so far, and the identifiers already
/// reached. One workspace serves any number of traversals, one at a time.
#[derive(Debug)]
pub struct Searcher {
    candidates: Vec<Neighbor>,
    nearest: SkipList<Key>,
    seen: IdSet,
}

impl Searcher {
    /// The candidates still to be expanded, in the order they joined it.
    pub closed spec fn frontier(&self) -> Seq<Neighbor> {
        self.candidates@
    }

    /// The best results found so far, closest first.
    pub closed spec fn best(&self) -> Seq<Key> {
        ranked_keys(self.nearest)
    }

    /// The identifiers already reached.
    pub closed spec fn visited(&self) -> Set<usize> {
        visited_ids(self.seen)
    }

    /// The contents of the workspace.
    pub open spec fn state(&self) -> Beam {
        Beam { frontier: self.frontier(), best: self.best(), visited: self.visited() }
    }

    /// Whether the workspace holds nothing at all.
    pub open spec fn is_empty(&self) -> bool {
        &&& self.frontier() == Seq::<Neighbor>::empty()
        &&& self.best() == Seq::<Key>::empty()
        &&& self.visited() == Set::<usize>::empty()
    }

    /// The invariant of a workspace: the best results are in ascending order,
    /// finitely many identifiers were reached, and no result arrived later
    /// than the latest of them.
    pub open spec fn wf(&self) -> bool {
        &&& ascending(self.best())
        &&& self.visited().finite()
        &&& forall|i: int| 0 <= i < self.best().len() ==> (#[trigger] self.best()[i]).1
            <= self.visited().len()
    }

    /// Whether an identifier was reached since the last result arrived, so
    /// that the next arrival number is unused.
    pub open spec fn ready(&self) -> bool {
        forall|i: int| 0 <= i < self.best().len() ==> (#[trigger] self.best()[i]).1
            < self.visited().len()
    }

    /// A workspace that holds nothing.
    pub fn new() -> (s: Self)
        ensures
            s.is_empty(),
            s.wf(),
    {
        Default::default()
    }

    /// Empties the frontier, the best results and the reached identifiers,
    /// whatever they held.
    pub fn clear(&mut self)
        ensures
            final(self).is_empty(),
            final(self).wf(),
    {
        self.candidates.clear();
        ranked_clear(&mut self.nearest);
        visited_clear(&mut self.seen);
    }

    /// The number of best results held.
    pub fn best_len(&self) -> (n: usize)
        ensures
            n == self.best().len(),
    {
        ranked_len(&self.nearest)
    }

    /// The number of candidates on the frontier.
    pub fn frontier_len(&self) -> (n: usize)
        ensures
            n == self.frontier().len(),
    {
        self.candidates.len()
    }

    /// The worst of the best results, if there is any.
    pub fn worst(&self) -> (w: Option<Neighbor>)
        ensures
            self.best().len() == 0 ==> w.is_none(),
            self.best().len() > 0 ==> w == Some(key_neighbor(self.best().last())),
    {
        match ranked_last(&self.nearest) {
            Some(k) => Some(Neighbor { index: k.2, distance: k.0 }),
            None => None,
        }
    }

    /// Marks `id` as reached and says whether it was new.
    pub fn visit(&mut self, id: usize) -> (fresh: bool)
        requires
            old(self).wf(),
        ensures
            final(self).wf(),
            fresh == !old(self).visited().contains(id),
            final(self).visited() == old(self).visited().insert(id),
            final(self).frontier() == old(self).frontier(),
            final(self).best() == old(self).best(),
            fresh ==> final(self).ready(),
            fresh ==> final(self).visited().len() == old(self).visited().len() + 1,
            !fresh ==> final(self).visited() == old(self).visited(),
    {
        let fresh = visited_insert(&mut self.seen, id);
        proof {
            if !fresh {
                assert(old(self).visited().insert(id) =~= old(self).visited());
            }
        }
        fresh
    }

    /// Offers a neighbour to a beam of width `ef`. It joins the frontier and
    /// the best results if there is room among the results or it is strictly
    /// closer than the worst of them, which then leaves.
    pub fn offer(&mut self, n: Neighbor, ef: usize) -> (kept: bool)
        requires
            old(self).wf(),
            old(self).ready(),
            ef >= 1,
        ensures
            final(self).wf(),
            final(self).visited() == old(self).visited(),
            kept == accepts(old(self).best(), n.distance, ef),
            kept ==> final(self).frontier() == old(self).frontier().push(n),
            kept ==> final(self).best() == offered(
                old(self).best(),
                n,
                old(self).visited().len() as usize,
                ef,
            ),
            !kept ==> final(self).frontier() == old(self).frontier(),
            !kept ==> final(self).best() == old(self).best(),
    {
        let len = ranked_len(&self.nearest);
        let kept = if len < ef {
            true
        } else {
            match ranked_last(&self.nearest) {
                Some(w) => n.distance < w.0,
                None => false,
            }
        };
        if kept {
            if len >= ef {
                proof {
                    lemma_drop_last_ascending(self.best());
                }
                let _ = ranked_pop_back(&mut self.nearest);
            }
            let arrival = visited_len(&self.seen);
            let key: Key = (n.distance, arrival, n.index);
            let ghost room = self.best();
            proof {
                assert forall|i: int| 0 <= i < room.len() implies (#[trigger] room[i]).1
                    < arrival by {
                    assert(room[i] == old(self).best()[i]);
                }
                assert(!room.contains(key)) by {
                    if room.contains(key) {
                        let i = choose|i: int| 0 <= i < room.len() && room[i] == key;
                        assert(room[i].1 < arrival);
                    }
                }
                lemma_insert_ascending(room, key);
                lemma_rank_bounds(room, key);
            }
            let added = ranked_insert(&mut self.nearest, key);
            self.candidates.push(n);
            proof {
                let r = rank_of(room, key);
                let after = self.best();
                assert(after == room.insert(r, key));
                assert forall|i: int| 0 <= i < after.len() implies (#[trigger] after[i]).1
                    <= self.visited().len() by {
                    if i < r {
                        assert(after[i] == room[i]);
                    } else if i > r {
                        assert(after[i] == room[i - 1]);
                    }
                }
            }
        }
        kept
    }

    /// Removes from the frontier its closest candidate, the earliest to join
    /// among equals, and returns it.
    pub fn pop_closest(&mut self) -> (c: Option<Neighbor>)
        ensures
            final(self).best() == old(self).best(),
            final(self).visited() == old(self).visited(),
            old(self).frontier().len() == 0 ==> c.is_none() && final(self).frontier() == old(self).frontier(),
            old(self).frontier().len() > 0 ==> c == Some(
                old(self).frontier()[closest_at(old(self).frontier())],
            ) && final(self).frontier() == old(self).frontier().remove(
                closest_at(old(self).frontier()),
            ),
    {
        let len = self.candidates.len();
        if len == 0 {
            return None;
        }
        let mut at: usize = 0;
        let mut i: usize = 1;
        while i < len
            invariant
                len == self.candidates.len(),
                1 <= i <= len,
                at == closest_at(self.candidates@.take(i as int)),
                0 <= at < i,
                self.candidates@ == old(self).candidates@,
                self.nearest == old(self).nearest,
                self.seen == old(self).seen,
            decreases len - i,
        {
            proof {
                let s = self.candidates@.take(i + 1);
                assert(s.drop_last() =~= self.candidates@.take(i as int));
                assert(s.last() == self.candidates@[i as int]);
                assert(s[at as int] == self.candidates@[at as int]);
            }
            if self.candidates[i].distance < self.candidates[at].distance {
                at = i;
            }
            i += 1;
        }
        proof {
            assert(self.candidates@.take(len as int) =~= self.candidates@);
            lemma_closest_at(self.candidates@);
        }
        let c = self.candidates.remove(at);
        Some(c)
    }

    /// Takes the `k` closest of the best results, or all of them where fewer
    /// are held, closest first.
    pub fn take_best(&mut self, k: usize) -> (taken: Vec<Neighbor>)
        ensures
            final(self).frontier() == old(self).frontier(),
            final(self).visited() == old(self).visited(),
            taken@ == closest_of(old(self).best(), k),
            final(self).best() == old(self).best().skip(taken@.len() as int),
    {
        let keys = ranked_pop_min(&mut self.nearest, k);
        let ghost all = old(self).best();
        proof {
            if k > all.len() {
                assert(all.skip(all.len() as int) =~= Seq::<Key>::empty());
                assert(all.take(all.len() as int) =~= all);
            }
        }
        let mut taken: Vec<Neighbor> = Vec::new();
        let mut i: usize = 0;
        while i < keys.len()
            invariant
                0 <= i <= keys.len(),
                taken@.len() == i,
                forall|j: int| 0 <= j < i ==> taken@[j] == key_neighbor(keys@[j]),
            decreases keys.len() - i,
        {
            let k = keys[i];
            taken.push(Neighbor { index: k.2, distance: k.0 });
            i += 1;
        }
        proof {
            assert(taken@ =~= closest_of(all, k));
        }
        taken
    }
}

/// A workspace that was cleared holds what a new one holds: any two empty
/// workspaces have the same contents, so nothing of an earlier traversal is
/// left for a later one to meet.
pub proof fn lemma_empty_workspaces_agree(a: Searcher, b: Searcher)
    requires
        a.is_empty(),
        b.is_empty(),
    ensures
        a.state() == b.state(),
        a.wf() && b.wf(),
{
}

impl Default for Searcher {
    /// A workspace that holds nothing. Its set of reached identifiers hashes
    /// with a fixed state, so that traversals repeat exactly.
    fn default() -> (s: Self)
        ensures
            s.is_empty(),
            s.wf(),
    {
        Searcher {
            candidates: Vec::new(),
            nearest: ranked_new(),
            seen: visited_new(seeded_state(0, 0, 0, 0)),
        }
    }
}

/// The `k` closest of the best results as neighbours, or all of them where
/// fewer are held.
pub open spec fn closest_of(best: Seq<Key>, k: usize) -> Seq<Neighbor> {
    let n = if k <= best.len() {
        k as int
    } else {
        best.len() as int
    };
    Seq::new(n as nat, |i: int| key_neighbor(best[i]))
}

} // verus!
