//! Configuration fixed when an index is built.

use vstd::prelude::*;

verus! {

/// The beam width an index uses while inserting, unless another is chosen.
pub const DEFAULT_EF_CONSTRUCTION: usize = 400;

/// Construction parameters of an index.
#[derive(Clone, Copy, Debug)]
pub struct Params {
    ef_construction: usize,
}

impl Params {
    /// The beam width used while inserting.
    pub closed spec fn beam(&self) -> usize {
        self.ef_construction
    }

    /// Parameters with every setting at its default.
    pub fn new() -> (p: Self)
        ensures
            p.beam() == DEFAULT_EF_CONSTRUCTION,
    {
        Default::default()
    }

    /// The beam width used while inserting.
    pub fn beam_width(&self) -> (ef: usize)
        ensures
            ef == self.beam(),
    {
        self.ef_construction
    }

    /// The same parameters with the insertion beam width replaced.
    pub fn ef_construction(self, ef_construction: usize) -> (p: Self)
        ensures
            p.beam() == ef_construction,
    {
        Params { ef_construction }
    }
}

impl Default for Params {
    /// Parameters with every setting at its default.
    fn default() -> (p: Self)
        ensures
            p.beam() == DEFAULT_EF_CONSTRUCTION,
    {
        Params { ef_construction: DEFAULT_EF_CONSTRUCTION }
    }
}

} // verus!
