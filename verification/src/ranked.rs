//! The ordered set of keys that holds the best results of a traversal.

use crate::neighbor::{key_lt, Key};
use convenient_skiplist::SkipList;
use vstd::prelude::*;

verus! {

/// `convenient_skiplist::SkipList`: an ordered set, held as it is. Nothing
/// inside it is visible to proofs, which know it by the keys it holds alone.
#[verifier::external_type_specification]
#[verifier::external_body]
#[verifier::reject_recursive_types(T)]
pub struct ExSkipList<T>(SkipList<T>);

/// The keys a skip list holds, smallest first.
pub uninterp spec fn ranked_keys(list: SkipList<Key>) -> Seq<Key>;

/// Whether every key of `s` comes strictly before the one after it.
pub open spec fn ascending(s: Seq<Key>) -> bool {
    forall|i: int, j: int| 0 <= i < j < s.len() ==> key_lt(#[trigger] s[i], #[trigger] s[j])
}

/// The number of leading keys of `s` that come before `x`, in an ascending
/// `s`: the position at which `x` belongs.
pub open spec fn rank_of(s: Seq<Key>, x: Key) -> int
    decreases s.len(),
{
    if s.len() == 0 {
        0
    } else if key_lt(s.last(), x) {
        s.len() as int
    } else {
        rank_of(s.drop_last(), x)
    }
}

/// The position of a key lies within the sequence or at its end.
pub proof fn lemma_rank_bounds(s: Seq<Key>, x: Key)
    ensures
        0 <= rank_of(s, x) <= s.len(),
    decreases s.len(),
{
    if s.len() > 0 && !key_lt(s.last(), x) {
        lemma_rank_bounds(s.drop_last(), x);
    }
}

/// In an ascending sequence the keys ahead of the position of `x` come before
/// `x`, and none from that position on does.
pub proof fn lemma_rank_splits(s: Seq<Key>, x: Key)
    requires
        ascending(s),
    ensures
        0 <= rank_of(s, x) <= s.len(),
        forall|i: int| 0 <= i < rank_of(s, x) ==> key_lt(#[trigger] s[i], x),
        forall|i: int| rank_of(s, x) <= i < s.len() ==> !key_lt(#[trigger] s[i], x),
    decreases s.len(),
{
    if s.len() > 0 {
        let t = s.drop_last();
        assert(ascending(t)) by {
            assert forall|i: int, j: int| 0 <= i < j < t.len() implies key_lt(
                #[trigger] t[i],
                #[trigger] t[j],
            ) by {
                assert(t[i] == s[i] && t[j] == s[j]);
            }
        }
        if key_lt(s.last(), x) {
            assert forall|i: int| 0 <= i < s.len() implies key_lt(#[trigger] s[i], x) by {
                if i < s.len() - 1 {
                    assert(key_lt(s[i], s[s.len() - 1]));
                }
            }
        } else {
            lemma_rank_splits(t, x);
            assert forall|i: int| 0 <= i < rank_of(s, x) implies key_lt(#[trigger] s[i], x) by {
                assert(t[i] == s[i]);
            }
            assert forall|i: int| rank_of(s, x) <= i < s.len() implies !key_lt(
                #[trigger] s[i],
                x,
            ) by {
                if i < t.len() {
                    assert(t[i] == s[i]);
                }
            }
        }
    }
}

/// Placing a new key at its position keeps an ascending sequence ascending.
pub proof fn lemma_insert_ascending(s: Seq<Key>, x: Key)
    requires
        ascending(s),
        !s.contains(x),
    ensures
        ascending(s.insert(rank_of(s, x), x)),
{
    lemma_rank_splits(s, x);
    let r = rank_of(s, x);
    let t = s.insert(r, x);
    assert forall|i: int, j: int| 0 <= i < j < t.len() implies key_lt(
        #[trigger] t[i],
        #[trigger] t[j],
    ) by {
        if j < r {
            assert(t[i] == s[i] && t[j] == s[j]);
        } else if j == r {
            assert(t[i] == s[i]);
        } else if i < r {
            assert(t[i] == s[i] && t[j] == s[j - 1]);
            assert(key_lt(s[i], x));
            assert(!key_lt(s[j - 1], x));
        } else if i == r {
            assert(t[j] == s[j - 1]);
            assert(!key_lt(s[j - 1], x));
            assert(s.contains(s[j - 1]));
        } else {
            assert(t[i] == s[i - 1] && t[j] == s[j - 1]);
        }
    }
}

/// Leaving out the largest key keeps an ascending sequence ascending.
pub proof fn lemma_drop_last_ascending(s: Seq<Key>)
    requires
        ascending(s),
        s.len() > 0,
    ensures
        ascending(s.drop_last()),
{
    let t = s.drop_last();
    assert forall|i: int, j: int| 0 <= i < j < t.len() implies key_lt(
        #[trigger] t[i],
        #[trigger] t[j],
    ) by {
        assert(t[i] == s[i] && t[j] == s[j]);
    }
}

/// `SkipList::new`: the list it returns holds nothing.
#[verifier::external_body]
pub(crate) fn ranked_new() -> (list: SkipList<Key>)
    ensures
        ranked_keys(list) == Seq::<Key>::empty(),
{
    SkipList::new()
}

/// `SkipList::clear`: the list holds nothing afterwards.
#[verifier::external_body]
pub(crate) fn ranked_clear(list: &mut SkipList<Key>)
    ensures
        ranked_keys(*final(list)) == Seq::<Key>::empty(),
{
    list.clear();
}

/// `SkipList::len`: the number of keys held.
#[verifier::external_body]
pub(crate) fn ranked_len(list: &SkipList<Key>) -> (n: usize)
    ensures
        n == ranked_keys(*list).len(),
{
    list.len()
}

/// `SkipList::insert`: a key that is already held is refused and nothing
/// changes; any other key is placed where the order puts it, after the keys
/// that come before it and ahead of the rest.
#[verifier::external_body]
pub(crate) fn ranked_insert(list: &mut SkipList<Key>, key: Key) -> (added: bool)
    requires
        ascending(ranked_keys(*old(list))),
    ensures
        added == !ranked_keys(*old(list)).contains(key),
        added ==> ranked_keys(*final(list)) == ranked_keys(*old(list)).insert(
            rank_of(ranked_keys(*old(list)), key),
            key,
        ),
        !added ==> ranked_keys(*final(list)) == ranked_keys(*old(list)),
{
    list.insert(key)
}

/// `SkipList::peek_last`: the largest key held, if there is one.
#[verifier::external_body]
pub(crate) fn ranked_last(list: &SkipList<Key>) -> (last: Option<Key>)
    ensures
        ranked_keys(*list).len() == 0 ==> last.is_none(),
        ranked_keys(*list).len() > 0 ==> last == Some(ranked_keys(*list).last()),
{
    list.peek_last().copied()
}

/// `SkipList::pop_back`: removes the largest key and returns it, if there is
/// one.
#[verifier::external_body]
pub(crate) fn ranked_pop_back(list: &mut SkipList<Key>) -> (last: Option<Key>)
    ensures
        ranked_keys(*old(list)).len() == 0 ==> last.is_none() && ranked_keys(*final(list))
            == ranked_keys(*old(list)),
        ranked_keys(*old(list)).len() > 0 ==> last == Some(ranked_keys(*old(list)).last())
            && ranked_keys(*final(list)) == ranked_keys(*old(list)).drop_last(),
{
    list.pop_back()
}

/// `SkipList::pop_min`: removes the `count` smallest keys, or all of them
/// where fewer are held, and returns them smallest first.
#[verifier::external_body]
pub(crate) fn ranked_pop_min(list: &mut SkipList<Key>, count: usize) -> (taken: Vec<Key>)
    ensures
        count <= ranked_keys(*old(list)).len() ==> taken@ == ranked_keys(*old(list)).take(
            count as int,
        ) && ranked_keys(*final(list)) == ranked_keys(*old(list)).skip(count as int),
        count > ranked_keys(*old(list)).len() ==> taken@ == ranked_keys(*old(list))
            && ranked_keys(*final(list)) == Seq::<Key>::empty(),
{
    list.pop_min(count)
}

} // verus!
