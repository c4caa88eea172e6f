//! The distance metric of the vector index: squared Euclidean (L2) distance
//! over integer-component embedding vectors.

use vstd::prelude::*;

verus! {

/// The largest possible squared difference of two `i32` components.
pub const MAX_SQ_DIFF: u128 = 0xFFFF_FFFE_0000_0001;

/// Sum of squared component differences over the first `i` components.
pub open spec fn dist2_prefix(a: Seq<i32>, b: Seq<i32>, i: int) -> int
    decreases i,
{
    if i <= 0 {
        0
    } else {
        dist2_prefix(a, b, i - 1) + (a[i - 1] - b[i - 1]) * (a[i - 1] - b[i - 1])
    }
}

/// The squared Euclidean distance between two equal-length vectors.
pub open spec fn dist2(a: Seq<i32>, b: Seq<i32>) -> int {
    dist2_prefix(a, b, a.len() as int)
}

/// The distance over a prefix is bounded by the number of components times
/// the largest possible squared difference, and is never negative.
pub proof fn lemma_dist2_prefix_bound(a: Seq<i32>, b: Seq<i32>, i: int)
    requires
        0 <= i <= a.len(),
        a.len() == b.len(),
    ensures
        0 <= dist2_prefix(a, b, i) <= i * (MAX_SQ_DIFF as int),
    decreases i,
{
    if i > 0 {
        lemma_dist2_prefix_bound(a, b, i - 1);
        let d = a[i - 1] - b[i - 1];
        assert(-0xFFFF_FFFF <= d <= 0xFFFF_FFFF);
        assert(0 <= d * d <= MAX_SQ_DIFF as int) by (nonlinear_arith)
            requires
                -0xFFFF_FFFF <= d <= 0xFFFF_FFFF,
        ;
        assert(i * (MAX_SQ_DIFF as int) == (i - 1) * (MAX_SQ_DIFF as int) + MAX_SQ_DIFF as int)
            by (nonlinear_arith);
    }
}

/// The squared distance of two equal-length vectors is never negative and
/// always fits the result type of [`squared_l2`].
pub proof fn lemma_dist2_bound(a: Seq<i32>, b: Seq<i32>)
    requires
        a.len() == b.len(),
        a.len() <= usize::MAX,
    ensures
        0 <= dist2(a, b) <= u128::MAX,
{
    lemma_dist2_prefix_bound(a, b, a.len() as int);
    assert(a.len() as int * (MAX_SQ_DIFF as int) <= usize::MAX as int * (MAX_SQ_DIFF as int));
}

/// Computes the squared Euclidean distance between two equal-length vectors.
pub fn squared_l2(a: &Vec<i32>, b: &Vec<i32>) -> (r: u128)
    requires
        a@.len() == b@.len(),
    ensures
        r == dist2(a@, b@),
{
    let n = a.len();
    let mut acc: u128 = 0;
    let mut i: usize = 0;
    while i < n
        invariant
            n == a@.len(),
            n == b@.len(),
            i <= n,
            acc == dist2_prefix(a@, b@, i as int),
            acc <= i * (MAX_SQ_DIFF as int),
        decreases n - i,
    {
        let d: i64 = a[i] as i64 - b[i] as i64;
        let dd: i128 = d as i128;
        proof {
            assert(-0xFFFF_FFFF <= dd <= 0xFFFF_FFFF);
            assert(0 <= dd * dd <= MAX_SQ_DIFF as int) by (nonlinear_arith)
                requires
                    -0xFFFF_FFFF <= dd <= 0xFFFF_FFFF,
            ;
            assert((i + 1) * (MAX_SQ_DIFF as int) == i * (MAX_SQ_DIFF as int) + MAX_SQ_DIFF as int)
                by (nonlinear_arith);
            assert((i + 1) * (MAX_SQ_DIFF as int) <= usize::MAX as int * (MAX_SQ_DIFF as int))
                by (nonlinear_arith)
                requires
                    i + 1 <= usize::MAX,
            ;
        }
        let sq: i128 = dd * dd;
        acc = acc + (sq as u128);
        i = i + 1;
    }
    acc
}

} // verus!
