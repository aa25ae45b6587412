//! What the index asks of a distance, and one ready-made distance.

use vstd::prelude::*;

verus! {

/// A distance between points of type `P`, measured in whole units. The index
/// asks nothing of it but that it is a function of the two points.
pub trait Metric<P> {
    /// The distance from `a` to `b`.
    spec fn dist(&self, a: &P, b: &P) -> u64;

    /// Computes the distance from `a` to `b`.
    fn distance(&self, a: &P, b: &P) -> (d: u64)
        ensures
            d == self.dist(a, b),
    ;
}

/// The sum of the squared coordinate differences over the first `n`
/// coordinates of `a` and `b`.
pub open spec fn squared_sum(a: Seq<i32>, b: Seq<i32>, n: nat) -> nat
    decreases n,
{
    if n == 0 {
        0
    } else {
        let d = a[n - 1] - b[n - 1];
        squared_sum(a, b, (n - 1) as nat) + (d * d) as nat
    }
}

/// The number of coordinates two points share.
pub open spec fn shared_len(a: Seq<i32>, b: Seq<i32>) -> nat {
    if a.len() <= b.len() {
        a.len()
    } else {
        b.len()
    }
}

/// The squared Euclidean distance of two points over the coordinates they
/// share, held at `u64::MAX` where the sum exceeds it.
pub open spec fn squared_euclidean(a: Seq<i32>, b: Seq<i32>) -> u64 {
    let sum = squared_sum(a, b, shared_len(a, b));
    if sum <= u64::MAX {
        sum as u64
    } else {
        u64::MAX
    }
}

/// A point is at distance zero from itself.
pub proof fn lemma_squared_euclidean_self(a: Seq<i32>)
    ensures
        squared_euclidean(a, a) == 0,
{
    lemma_squared_sum_self(a, a.len());
}

proof fn lemma_squared_sum_self(a: Seq<i32>, n: nat)
    ensures
        squared_sum(a, a, n) == 0,
    decreases n,
{
    if n > 0 {
        lemma_squared_sum_self(a, (n - 1) as nat);
    }
}

/// The squared Euclidean distance between points with integer coordinates.
#[derive(Clone, Copy, Debug)]
pub struct SquaredEuclidean;

impl Metric<Vec<i32>> for SquaredEuclidean {
    open spec fn dist(&self, a: &Vec<i32>, b: &Vec<i32>) -> u64 {
        squared_euclidean(a@, b@)
    }

    fn distance(&self, a: &Vec<i32>, b: &Vec<i32>) -> (d: u64) {
        let n = if a.len() <= b.len() {
            a.len()
        } else {
            b.len()
        };
        let mut sum: u64 = 0;
        let mut i: usize = 0;
        while i < n
            invariant
                n == shared_len(a@, b@),
                0 <= i <= n,
                sum == u64::MAX || sum == squared_sum(a@, b@, i as nat),
                sum == u64::MAX ==> squared_sum(a@, b@, i as nat) >= u64::MAX,
            decreases n - i,
        {
            let x: i64 = a[i] as i64;
            let y: i64 = b[i] as i64;
            let gap: u64 = if x >= y {
                (x - y) as u64
            } else {
                (y - x) as u64
            };
            assert(gap <= 0xffff_ffff);
            assert(gap * gap <= 0xffff_ffff * 0xffff_ffff) by (nonlinear_arith)
                requires
                    gap <= 0xffff_ffff,
            ;
            assert(gap * gap == (a@[i as int] - b@[i as int]) * (a@[i as int] - b@[i as int]))
                by (nonlinear_arith)
                requires
                    gap == a@[i as int] - b@[i as int] || gap == b@[i as int] - a@[i as int],
            ;
            let square: u64 = gap * gap;
            sum = sum.saturating_add(square);
            i += 1;
        }
        sum
    }
}

} // verus!
