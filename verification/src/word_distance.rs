//! The distance between two embedding vectors.
//!
//! Positions are paired index by index up to the length of the shorter
//! vector; positions beyond it, present only because the vocabulary grew
//! after the shorter vector was computed, are deliberately not counted.
//! A paired position where either count is zero contributes one whole
//! unit (absence against presence is maximal local disagreement); any
//! other pair contributes the absolute difference of the counts. The sum
//! is divided by the shorter length, and the comparison of two empty
//! vectors is defined as the maximal distance of one.

use vstd::prelude::*;
use vstd::math::min;
use crate::ratio::Ratio;
use crate::word2vec::Repr;

verus! {

/// The contribution of the paired position `i`.
pub open spec fn dist_contrib(a: Seq<usize>, b: Seq<usize>, i: int) -> int {
    if a[i] == 0 || b[i] == 0 {
        1
    } else if a[i] >= b[i] {
        a[i] - b[i]
    } else {
        b[i] - a[i]
    }
}

/// The sum of the contributions of the first `k` paired positions.
pub open spec fn dist_num(a: Seq<usize>, b: Seq<usize>, k: int) -> int
    decreases k,
{
    if k <= 0 {
        0
    } else {
        dist_num(a, b, k - 1) + dist_contrib(a, b, k - 1)
    }
}

/// The distance of two count vectors as an exact rational: the summed
/// contributions over the shorter length, and one by convention when no
/// position can be paired.
pub open spec fn distance_of(a: Seq<usize>, b: Seq<usize>) -> Ratio {
    let n = min(a.len() as int, b.len() as int);
    if n == 0 {
        Ratio { num: 1, den: 1 }
    } else {
        Ratio { num: dist_num(a, b, n) as u128, den: n as u64 }
    }
}

/// The exact distance between two embedding vectors.
#[verifier::loop_isolation(false)]
pub fn normalized_distance(a: &Repr, b: &Repr) -> (r: Ratio)
    ensures
        r == distance_of(a@, b@),
        r.wf(),
{
    let n = if a.len() <= b.len() {
        a.len()
    } else {
        b.len()
    };
    if n == 0 {
        return Ratio::new(1, 1);
    }
    let mut sum: u128 = 0;
    let mut k: usize = 0;
    while k < n
        invariant
            k <= n,
            sum == dist_num(a@, b@, k as int),
            sum <= (k as int) * 0xffff_ffff_ffff_ffff,
        decreases n - k,
    {
        let x = a[k];
        let y = b[k];
        let c: u128 = if x == 0 || y == 0 {
            1
        } else if x >= y {
            (x - y) as u128
        } else {
            (y - x) as u128
        };
        proof {
            assert(c == dist_contrib(a@, b@, k as int));
            assert(c <= 0xffff_ffff_ffff_ffff);
            assert(sum + c <= (k + 1) * 0xffff_ffff_ffff_ffff) by (nonlinear_arith)
                requires
                    sum <= (k as int) * 0xffff_ffff_ffff_ffff,
                    c <= 0xffff_ffff_ffff_ffff,
            ;
            assert(((k + 1) as int) * 0xffff_ffff_ffff_ffff < u128::MAX) by (nonlinear_arith)
                requires
                    0 <= k,
                    (k as int) + 1 <= 0xffff_ffff_ffff_ffff,
            ;
        }
        sum = sum + c;
        k = k + 1;
    }
    Ratio::new(sum, n as u64)
}

proof fn lemma_dist_num_self_zero(v: Seq<usize>, k: int)
    requires
        k <= v.len(),
        forall|i: int| 0 <= i < v.len() ==> v[i] > 0,
    ensures
        dist_num(v, v, k) == 0,
    decreases k,
{
    if k <= 0 {
    } else {
        lemma_dist_num_self_zero(v, k - 1);
    }
}

/// A vector with no zero entry is at distance zero from itself: every
/// paired position contributes nothing.
pub proof fn lemma_distance_self_zero(v: Seq<usize>)
    requires
        0 < v.len() <= usize::MAX,
        forall|i: int| 0 <= i < v.len() ==> v[i] > 0,
    ensures
        distance_of(v, v).num == 0,
        distance_of(v, v).den > 0,
{
    lemma_dist_num_self_zero(v, v.len() as int);
}

proof fn lemma_dist_num_disjoint(a: Seq<usize>, b: Seq<usize>, k: int)
    requires
        k <= min(a.len() as int, b.len() as int),
        forall|i: int| 0 <= i < min(a.len() as int, b.len() as int) ==> a[i] == 0 || b[i] == 0,
    ensures
        dist_num(a, b, k) == if k <= 0 {
            0int
        } else {
            k
        },
    decreases k,
{
    if k <= 0 {
    } else {
        lemma_dist_num_disjoint(a, b, k - 1);
    }
}

/// Two vectors with no positional overlap of nonzero counts are at the
/// maximal distance: every paired position contributes one full unit, so
/// the sum equals the number of paired positions and the score is
/// exactly one.
pub proof fn lemma_distance_disjoint_one(a: Seq<usize>, b: Seq<usize>)
    requires
        0 < min(a.len() as int, b.len() as int),
        a.len() <= usize::MAX,
        b.len() <= usize::MAX,
        forall|i: int| 0 <= i < min(a.len() as int, b.len() as int) ==> a[i] == 0 || b[i] == 0,
    ensures
        distance_of(a, b).num == distance_of(a, b).den as u128,
        distance_of(a, b).den > 0,
{
    lemma_dist_num_disjoint(a, b, min(a.len() as int, b.len() as int));
}

} // verus!
