//! Squared Euclidean distance between quantized vectors.
use crate::types::Vec16I;
use vstd::prelude::*;

verus! {

pub open spec fn square(d: int) -> int {
    d * d
}

/// The squared distance over the first `n` dimensions.
pub open spec fn partial_distance(a: Seq<i16>, b: Seq<i16>, n: int) -> int
    decreases n,
{
    if n <= 0 {
        0
    } else {
        partial_distance(a, b, n - 1) + square(a[n - 1] - b[n - 1])
    }
}

/// The squared distance over all sixteen dimensions.
pub open spec fn squared_distance(a: Seq<i16>, b: Seq<i16>) -> int {
    partial_distance(a, b, 16)
}

pub proof fn lemma_square(d: int)
    ensures
        square(d) >= 0,
        square(d) == square(-d),
        square(d) == 0 <==> d == 0,
        d >= 1 ==> square(d) >= d,
{
    assert(square(d) >= 0 && square(d) == square(-d) && (square(d) == 0 <==> d == 0) && (d >= 1
        ==> square(d) >= d)) by (nonlinear_arith)
        requires
            square(d) == d * d,
            square(-d) == (-d) * (-d),
    ;
}

/// A square grows with the magnitude of its base.
pub proof fn lemma_square_monotone(a: int, b: int)
    requires
        0 <= a <= b,
    ensures
        square(a) <= square(b),
{
    assert(a * a <= b * b) by (nonlinear_arith)
        requires
            0 <= a <= b,
    ;
}

pub proof fn lemma_partial_distance_monotone(a: Seq<i16>, b: Seq<i16>, m: int, n: int)
    requires
        0 <= m <= n,
    ensures
        0 <= partial_distance(a, b, m) <= partial_distance(a, b, n),
    decreases n,
{
    if n > m {
        lemma_partial_distance_monotone(a, b, m, n - 1);
        lemma_square(a[n - 1] - b[n - 1]);
    } else if n > 0 {
        lemma_partial_distance_monotone(a, b, n - 1, n - 1);
        lemma_square(a[n - 1] - b[n - 1]);
    }
}

/// The squared distance of two vectors whose distance fits into `i32`.
pub fn l2sq_scalar(query: &Vec16I, reference: &Vec16I) -> (dist_sq: i32)
    requires
        squared_distance(query@, reference@) <= i32::MAX,
    ensures
        dist_sq == squared_distance(query@, reference@),
{
    let mut sum: i32 = 0;
    let mut i: usize = 0;
    while i < 16
        invariant
            i <= 16,
            sum == partial_distance(query@, reference@, i as int),
            squared_distance(query@, reference@) <= i32::MAX,
        decreases 16 - i,
    {
        let d: i32 = (query[i] as i32) - (reference[i] as i32);
        proof {
            lemma_partial_distance_monotone(query@, reference@, i as int, i as int);
            lemma_partial_distance_monotone(query@, reference@, i + 1, 16);
            lemma_square(d as int);
            assert(square(d as int) == d * d);
        }
        sum = sum + d * d;
        i = i + 1;
    }
    sum
}

/// The distance as the scanning loops compute it; the same value as
/// [`l2sq_scalar`].
pub fn l2sq_avx2(query: &Vec16I, reference: &Vec16I) -> (dist_sq: i32)
    requires
        squared_distance(query@, reference@) <= i32::MAX,
    ensures
        dist_sq == squared_distance(query@, reference@),
{
    l2sq_scalar(query, reference)
}

/// The distance does not depend on which of the two vectors is the query.
pub proof fn law_distance_symmetric(a: Seq<i16>, b: Seq<i16>)
    ensures
        squared_distance(a, b) == squared_distance(b, a),
{
    lemma_partial_distance_symmetric(a, b, 16);
}

proof fn lemma_partial_distance_symmetric(a: Seq<i16>, b: Seq<i16>, n: int)
    ensures
        partial_distance(a, b, n) == partial_distance(b, a, n),
    decreases n,
{
    if n > 0 {
        lemma_partial_distance_symmetric(a, b, n - 1);
        lemma_square(a[n - 1] - b[n - 1]);
    }
}

/// A distance is never negative, and zero exactly between equal vectors.
pub proof fn law_distance_zero_iff_equal(a: Seq<i16>, b: Seq<i16>)
    requires
        a.len() == 16,
        b.len() == 16,
    ensures
        squared_distance(a, b) >= 0,
        squared_distance(a, b) == 0 <==> a == b,
{
    lemma_partial_distance_monotone(a, b, 0, 16);
    lemma_partial_distance_zero(a, b, 16);
    if squared_distance(a, b) == 0 {
        assert(a =~= b);
    }
}

proof fn lemma_partial_distance_zero(a: Seq<i16>, b: Seq<i16>, n: int)
    requires
        0 <= n,
    ensures
        partial_distance(a, b, n) == 0 <==> (forall|i: int| 0 <= i < n ==> a[i] == b[i]),
    decreases n,
{
    if n > 0 {
        lemma_partial_distance_zero(a, b, n - 1);
        lemma_partial_distance_monotone(a, b, 0, n - 1);
        lemma_square(a[n - 1] - b[n - 1]);
    }
}

/// The squared distance is the sum of the squared differences in all sixteen
/// dimensions.
pub proof fn law_distance_is_the_sum_of_squares(a: Seq<i16>, b: Seq<i16>)
    ensures
        squared_distance(a, b) == (a[0] - b[0]) * (a[0] - b[0]) + (a[1] - b[1]) * (a[1] - b[1]) + (
        a[2] - b[2]) * (a[2] - b[2]) + (a[3] - b[3]) * (a[3] - b[3]) + (a[4] - b[4]) * (a[4]
            - b[4]) + (a[5] - b[5]) * (a[5] - b[5]) + (a[6] - b[6]) * (a[6] - b[6]) + (a[7] - b[7])
            * (a[7] - b[7]) + (a[8] - b[8]) * (a[8] - b[8]) + (a[9] - b[9]) * (a[9] - b[9]) + (
        a[10] - b[10]) * (a[10] - b[10]) + (a[11] - b[11]) * (a[11] - b[11]) + (a[12] - b[12]) * (
        a[12] - b[12]) + (a[13] - b[13]) * (a[13] - b[13]) + (a[14] - b[14]) * (a[14] - b[14]) + (
        a[15] - b[15]) * (a[15] - b[15]),
{
    reveal_with_fuel(partial_distance, 17);
}

/// Where two vectors differ in one dimension alone, their distance is the
/// square of that difference.
pub proof fn law_distance_of_one_dimension(a: Seq<i16>, i: int, x: i16)
    requires
        a.len() == 16,
        0 <= i < 16,
    ensures
        squared_distance(a, a.update(i, x)) == (a[i] - x) * (a[i] - x),
{
    law_distance_is_the_sum_of_squares(a, a.update(i, x));
    let b = a.update(i, x);
    assert forall|k: int| 0 <= k < 16 && k != i implies #[trigger] b[k] == a[k] by {}
    assert(0int * 0int == 0);
}

/// Both ways of computing a distance give it.
pub proof fn law_distances_agree(a: Vec16I, b: Vec16I, x: i32, y: i32)
    requires
        squared_distance(a@, b@) <= i32::MAX,
        call_ensures(l2sq_scalar, (&a, &b), x),
        call_ensures(l2sq_avx2, (&a, &b), y),
    ensures
        x == y,
        x == squared_distance(a@, b@),
{
}

} // verus!
