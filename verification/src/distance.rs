//! The distance metric: squared Euclidean distance over equal-length integer
//! vectors. It is non-negative, symmetric, and zero exactly on identical
//! vectors; the search and insertion engines order candidates by it.

use vstd::prelude::*;

verus! {

/// Squared Euclidean distance between two equal-length vectors,
/// `sum((a[i] - b[i])^2)`.
pub open spec fn sq_dist(a: Seq<i32>, b: Seq<i32>) -> int
    decreases a.len(),
{
    if a.len() == 0 {
        0
    } else {
        sq_dist(a.drop_last(), b.drop_last()) + (a.last() - b.last()) * (a.last() - b.last())
    }
}

/// One more component extends the distance by that component's squared
/// difference.
pub proof fn lemma_sq_dist_step(a: Seq<i32>, b: Seq<i32>, i: int)
    requires
        0 <= i < a.len(),
        i < b.len(),
    ensures
        sq_dist(a.take(i + 1), b.take(i + 1)) == sq_dist(a.take(i), b.take(i)) + (a[i] - b[i]) * (
        a[i] - b[i]),
{
    assert(a.take(i + 1).drop_last() =~= a.take(i));
    assert(b.take(i + 1).drop_last() =~= b.take(i));
    assert(a.take(i + 1).last() == a[i]);
    assert(b.take(i + 1).last() == b[i]);
}

/// The metric is symmetric: swapping the two vectors does not change it.
pub proof fn lemma_distance_symmetric(a: Seq<i32>, b: Seq<i32>)
    requires
        a.len() == b.len(),
    ensures
        sq_dist(a, b) == sq_dist(b, a),
    decreases a.len(),
{
    if a.len() > 0 {
        lemma_distance_symmetric(a.drop_last(), b.drop_last());
        let x = a.last();
        let y = b.last();
        assert((x - y) * (x - y) == (y - x) * (y - x)) by (nonlinear_arith);
    }
}

/// The distance of a vector to itself is zero.
pub proof fn lemma_distance_self_zero(a: Seq<i32>)
    ensures
        sq_dist(a, a) == 0,
    decreases a.len(),
{
    if a.len() > 0 {
        lemma_distance_self_zero(a.drop_last());
    }
}

/// The metric separates points: among equal-length vectors, distance zero is
/// only reached on identical ones.
pub proof fn lemma_distance_zero_only_on_equal(a: Seq<i32>, b: Seq<i32>)
    requires
        a.len() == b.len(),
        sq_dist(a, b) == 0,
    ensures
        a == b,
    decreases a.len(),
{
    if a.len() == 0 {
        assert(a =~= b);
    } else {
        lemma_distance_nonneg(a.drop_last(), b.drop_last());
        let d = a.last() - b.last();
        assert(d * d >= 0) by (nonlinear_arith);
        assert(sq_dist(a.drop_last(), b.drop_last()) == 0);
        assert(d == 0) by (nonlinear_arith)
            requires
                d * d == 0,
        ;
        lemma_distance_zero_only_on_equal(a.drop_last(), b.drop_last());
        assert(a =~= b) by {
            assert forall|i: int| 0 <= i < a.len() implies a[i] == b[i] by {
                if i < a.len() - 1 {
                    assert(a.drop_last()[i] == b.drop_last()[i]);
                }
            }
        }
    }
}

/// The metric never goes below zero.
pub proof fn lemma_distance_nonneg(a: Seq<i32>, b: Seq<i32>)
    ensures
        sq_dist(a, b) >= 0,
    decreases a.len(),
{
    if a.len() > 0 {
        lemma_distance_nonneg(a.drop_last(), b.drop_last());
        let d = a.last() - b.last();
        assert(d * d >= 0) by (nonlinear_arith);
    }
}

/// Largest possible squared difference of two `i32` components.
pub proof fn lemma_sq_diff_bound(x: i32, y: i32)
    ensures
        0 <= (x - y) * (x - y) <= 0xFFFF_FFFE_0000_0001,
{
    let d = x - y;
    assert(-0xFFFF_FFFF <= d <= 0xFFFF_FFFF);
    assert(d * d >= 0) by (nonlinear_arith);
    assert(d * d <= 0xFFFF_FFFF * 0xFFFF_FFFF) by (nonlinear_arith)
        requires
            -0xFFFF_FFFF <= d <= 0xFFFF_FFFF,
    ;
}

/// Computes the squared Euclidean distance of two equal-length vectors.
/// The result is exact: components are at most 32 bits wide, so the sum of
/// squared differences always fits in 128 bits.
pub fn squared_euclidean(a: &Vec<i32>, b: &Vec<i32>) -> (d: u128)
    requires
        a@.len() == b@.len(),
    ensures
        d == sq_dist(a@, b@),
{
    let n = a.len();
    let mut acc: u128 = 0;
    let mut i: usize = 0;
    while i < n
        invariant
            n == a@.len() == b@.len(),
            0 <= i <= n,
            acc == sq_dist(a@.take(i as int), b@.take(i as int)),
            acc <= i * 0xFFFF_FFFE_0000_0001,
        decreases n - i,
    {
        let x = a[i] as i64;
        let y = b[i] as i64;
        let diff = x - y;
        proof {
            lemma_sq_diff_bound(a@[i as int], b@[i as int]);
        }
        let term = (diff as i128 * diff as i128) as u128;
        proof {
            lemma_sq_dist_step(a@, b@, i as int);
            assert((i + 1) * 0xFFFF_FFFE_0000_0001 == i * 0xFFFF_FFFE_0000_0001
                + 0xFFFF_FFFE_0000_0001) by (nonlinear_arith);
            assert(i * 0xFFFF_FFFE_0000_0001 <= 0xFFFF_FFFF_FFFF_FFFFu128
                * 0xFFFF_FFFE_0000_0001) by (nonlinear_arith)
                requires
                    0 <= i <= 0xFFFF_FFFF_FFFF_FFFFu128,
            ;
        }
        acc = acc + term;
        i = i + 1;
    }
    proof {
        assert(a@.take(n as int) =~= a@);
        assert(b@.take(n as int) =~= b@);
    }
    acc
}

} // verus!
