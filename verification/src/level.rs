//! How many layers a new point occupies: a geometric draw from a small
//! generator that the index carries with it.

use vstd::prelude::*;

verus! {

/// The largest number of edges a node keeps in a layer above the lowest.
pub const MAX_DEGREE: usize = 12;

/// The largest number of edges a node keeps in the lowest layer.
pub const MAX_DEGREE_ZERO: usize = 24;

/// The highest layer a point can be assigned.
pub const MAX_HEIGHT: usize = 16;

/// The state every new index starts its generator from.
pub const INITIAL_STATE: u64 = 0x853c_49e6_748f_ea9b;

/// The state that follows `state`.
pub open spec fn advance(state: u64) -> u64 {
    state.wrapping_add(0x9e37_79b9_7f4a_7c15)
}

/// The word a state gives out.
pub open spec fn scramble(state: u64) -> u64 {
    let a = (state ^ (state >> 30)).wrapping_mul(0xbf58_476d_1ce4_e5b9);
    let b = (a ^ (a >> 27)).wrapping_mul(0x94d0_49bb_1331_11eb);
    b ^ (b >> 31)
}

/// The height a word stands for, at most `cap`: the number of times the word
/// can be divided by the maximum degree without remainder, so that each
/// further layer is reached by one word in `MAX_DEGREE`. The word zero stands
/// for height zero.
pub open spec fn height_of(word: u64, cap: nat) -> nat
    decreases cap,
{
    if cap == 0 || word == 0 || word % (MAX_DEGREE as u64) != 0 {
        0
    } else {
        1 + height_of(word / (MAX_DEGREE as u64), (cap - 1) as nat)
    }
}

/// Moves the generator on by one step and returns the word of the new state.
pub fn draw(state: &mut u64) -> (word: u64)
    ensures
        *final(state) == advance(*old(state)),
        word == scramble(*final(state)),
{
    *state = state.wrapping_add(0x9e37_79b9_7f4a_7c15);
    let z: u64 = *state;
    let a: u64 = (z ^ (z >> 30)).wrapping_mul(0xbf58_476d_1ce4_e5b9);
    let b: u64 = (a ^ (a >> 27)).wrapping_mul(0x94d0_49bb_1331_11eb);
    b ^ (b >> 31)
}

/// The height that `word` stands for.
pub fn height(word: u64) -> (h: usize)
    ensures
        h == height_of(word, MAX_HEIGHT as nat),
        h <= MAX_HEIGHT,
{
    let mut rest: u64 = word;
    let mut h: usize = 0;
    while h < MAX_HEIGHT && rest != 0 && rest % (MAX_DEGREE as u64) == 0
        invariant
            h <= MAX_HEIGHT,
            height_of(word, MAX_HEIGHT as nat) == h + height_of(rest, (MAX_HEIGHT - h) as nat),
        decreases MAX_HEIGHT - h,
    {
        rest = rest / (MAX_DEGREE as u64);
        h += 1;
    }
    h
}

} // verus!
