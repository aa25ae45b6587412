//! The set of identifiers a traversal has already reached.

use ahash::RandomState;
use hashbrown::HashSet;
use vstd::prelude::*;

verus! {

/// `ahash::RandomState`: a hashing state, carried through as it is. Nothing
/// is claimed of what it holds.
#[verifier::external_type_specification]
#[verifier::external_body]
pub struct ExRandomState(RandomState);

/// `hashbrown::HashSet` of identifiers, hashing with a state of `ahash`. The
/// set is held as it is: nothing inside it is visible to proofs, which know
/// it by the identifiers it holds alone.
#[verifier::external_body]
#[derive(Debug)]
pub struct IdSet {
    inner: HashSet<usize, RandomState>,
}

/// The identifiers a set holds.
pub uninterp spec fn visited_ids(set: IdSet) -> Set<usize>;

/// `RandomState::with_seeds`: a hashing state built from four fixed words.
#[verifier::external_body]
pub(crate) fn seeded_state(k0: u64, k1: u64, k2: u64, k3: u64) -> RandomState {
    RandomState::with_seeds(k0, k1, k2, k3)
}

/// `HashSet::with_hasher`: the set it returns holds nothing.
#[verifier::external_body]
pub(crate) fn visited_new(state: RandomState) -> (set: IdSet)
    ensures
        visited_ids(set) == Set::<usize>::empty(),
{
    IdSet { inner: HashSet::with_hasher(state) }
}

/// `HashSet::clear`: the set holds nothing afterwards.
#[verifier::external_body]
pub(crate) fn visited_clear(set: &mut IdSet)
    ensures
        visited_ids(*final(set)) == Set::<usize>::empty(),
{
    set.inner.clear();
}

/// `HashSet::len`: the number of identifiers held.
#[verifier::external_body]
pub(crate) fn visited_len(set: &IdSet) -> (n: usize)
    requires
        visited_ids(*set).finite(),
    ensures
        n == visited_ids(*set).len(),
{
    set.inner.len()
}

/// `HashSet::insert`: the identifier is held afterwards; the result says
/// whether it was new.
#[verifier::external_body]
pub(crate) fn visited_insert(set: &mut IdSet, id: usize) -> (fresh: bool)
    ensures
        fresh == !visited_ids(*old(set)).contains(id),
        visited_ids(*final(set)) == visited_ids(*old(set)).insert(id),
{
    set.inner.insert(id)
}

} // verus!
