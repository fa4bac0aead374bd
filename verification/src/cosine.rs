//! Cosine similarity over fixed-point embedding vectors.
//!
//! Components are scaled integers: a caller maps real-valued coordinates into
//! `[-VALUE_LIMIT, VALUE_LIMIT]` once, and every similarity is returned scaled
//! by `SCORE_SCALE`, so that a similarity of one is `SCORE_SCALE`.

use vstd::prelude::*;
use crate::bounded_embedding;
use crate::DIM_LIMIT;
use crate::VALUE_LIMIT;

verus! {

/// A similarity of exactly one is represented as `SCORE_SCALE`.
pub const SCORE_SCALE: i64 = 1_000_000;

/// Mathematical dot product of two equal-length vectors.
pub open spec fn spec_dot(a: Seq<i64>, b: Seq<i64>) -> int
    decreases a.len(),
{
    if a.len() == 0 || b.len() == 0 {
        0
    } else {
        a[0] * b[0] + spec_dot(a.drop_first(), b.drop_first())
    }
}

/// `r` is the integer square root of `n`.
pub open spec fn is_isqrt(n: int, r: int) -> bool {
    &&& 0 <= r
    &&& r * r <= n
    &&& n < (r + 1) * (r + 1)
}

/// The integer square root, as a value: meaningful for `n >= 0`
/// (see `lemma_isqrt_exists`).
pub open spec fn isqrt_of(n: int) -> int {
    choose|r: int| is_isqrt(n, r)
}

/// The norm of a vector, floored to an integer.
pub open spec fn spec_norm(a: Seq<i64>) -> int {
    isqrt_of(spec_dot(a, a))
}

/// Cosine similarity scaled by `SCORE_SCALE`: the scaled dot product divided
/// by the product of the floored norms, and zero when either norm is zero.
pub open spec fn spec_cosine(a: Seq<i64>, b: Seq<i64>) -> int {
    let nn = spec_norm(a) * spec_norm(b);
    if nn == 0 {
        0
    } else {
        let d = spec_dot(a, b);
        if d >= 0 {
            SCORE_SCALE * d / nn
        } else {
            -(SCORE_SCALE * (-d) / nn)
        }
    }
}

/// Every integer square root is unique.
pub proof fn lemma_isqrt_unique(n: int, r1: int, r2: int)
    requires
        is_isqrt(n, r1),
        is_isqrt(n, r2),
    ensures
        r1 == r2,
{
    assert(r1 == r2) by (nonlinear_arith)
        requires
            0 <= r1,
            0 <= r2,
            r1 * r1 <= n,
            n < (r1 + 1) * (r1 + 1),
            r2 * r2 <= n,
            n < (r2 + 1) * (r2 + 1),
    ;
}

/// Every nonnegative integer has an integer square root.
pub proof fn lemma_isqrt_exists(n: int)
    requires
        0 <= n,
    ensures
        is_isqrt(n, isqrt_of(n)),
    decreases n,
{
    if n == 0 {
        assert(is_isqrt(0, 0));
    } else {
        lemma_isqrt_exists(n - 1);
        let r = isqrt_of(n - 1);
        if n < (r + 1) * (r + 1) {
            assert(is_isqrt(n, r));
        } else {
            assert((r + 1) * (r + 1) <= n);
            assert(n < (r + 2) * (r + 2)) by (nonlinear_arith)
                requires
                    0 <= r,
                    n - 1 < (r + 1) * (r + 1),
            ;
            assert(is_isqrt(n, r + 1));
        }
    }
}

/// A dot product of bounded vectors is bounded by `len * VALUE_LIMIT^2`.
pub proof fn lemma_dot_bound(a: Seq<i64>, b: Seq<i64>)
    requires
        a.len() == b.len(),
        forall|i: int| 0 <= i < a.len() ==> -VALUE_LIMIT <= #[trigger] a[i] <= VALUE_LIMIT,
        forall|i: int| 0 <= i < b.len() ==> -VALUE_LIMIT <= #[trigger] b[i] <= VALUE_LIMIT,
    ensures
        -(a.len() as int) * VALUE_LIMIT * VALUE_LIMIT <= spec_dot(a, b),
        spec_dot(a, b) <= (a.len() as int) * VALUE_LIMIT * VALUE_LIMIT,
    decreases a.len(),
{
    if a.len() > 0 {
        assert(-VALUE_LIMIT * VALUE_LIMIT <= a[0] * b[0] <= VALUE_LIMIT * VALUE_LIMIT)
            by (nonlinear_arith)
            requires
                -VALUE_LIMIT <= a[0] <= VALUE_LIMIT,
                -VALUE_LIMIT <= b[0] <= VALUE_LIMIT,
        ;
        lemma_dot_bound(a.drop_first(), b.drop_first());
    }
}

/// The dot product of a vector with itself is nonnegative.
pub proof fn lemma_dot_self_nonneg(a: Seq<i64>)
    ensures
        0 <= spec_dot(a, a),
    decreases a.len(),
{
    if a.len() > 0 {
        assert(0 <= a[0] * a[0]) by (nonlinear_arith);
        lemma_dot_self_nonneg(a.drop_first());
    }
}

/// Dot product, computed without overflow on bounded vectors.
pub fn dot_product(a: &Vec<i64>, b: &Vec<i64>) -> (r: i64)
    requires
        a@.len() == b@.len(),
        bounded_embedding(a@),
        bounded_embedding(b@),
    ensures
        r == spec_dot(a@, b@),
{
    let n = a.len();
    let mut sum: i64 = 0;
    let mut i: usize = 0;
    proof {
        assert(a@.skip(0) =~= a@);
        assert(b@.skip(0) =~= b@);
    }
    while i < n
        invariant
            n == a@.len() == b@.len(),
            bounded_embedding(a@),
            bounded_embedding(b@),
            0 <= i <= n,
            sum + spec_dot(a@.skip(i as int), b@.skip(i as int)) == spec_dot(a@, b@),
            -(i as int) * VALUE_LIMIT * VALUE_LIMIT <= sum <= (i as int) * VALUE_LIMIT
                * VALUE_LIMIT,
        decreases n - i,
    {
        proof {
            assert(-VALUE_LIMIT * VALUE_LIMIT <= a@[i as int] * b@[i as int] <= VALUE_LIMIT
                * VALUE_LIMIT) by (nonlinear_arith)
                requires
                    -VALUE_LIMIT <= a@[i as int] <= VALUE_LIMIT,
                    -VALUE_LIMIT <= b@[i as int] <= VALUE_LIMIT,
            ;
            assert((i as int) * VALUE_LIMIT * VALUE_LIMIT <= (DIM_LIMIT as int) * VALUE_LIMIT
                * VALUE_LIMIT) by (nonlinear_arith)
                requires
                    0 <= i as int <= DIM_LIMIT as int,
            ;
            let sk_a = a@.skip(i as int);
            let sk_b = b@.skip(i as int);
            assert(sk_a.drop_first() =~= a@.skip(i as int + 1));
            assert(sk_b.drop_first() =~= b@.skip(i as int + 1));
            assert(spec_dot(sk_a, sk_b) == a@[i as int] * b@[i as int] + spec_dot(
                a@.skip(i as int + 1),
                b@.skip(i as int + 1),
            ));
        }
        sum = sum + a[i] * b[i];
        i = i + 1;
        proof {
            assert((i as int) * VALUE_LIMIT * VALUE_LIMIT == (i as int - 1) * VALUE_LIMIT
                * VALUE_LIMIT + VALUE_LIMIT * VALUE_LIMIT) by (nonlinear_arith);
        }
    }
    proof {
        assert(a@.skip(n as int) =~= Seq::<i64>::empty());
        assert(b@.skip(n as int) =~= Seq::<i64>::empty());
    }
    sum
}

/// Integer square root by counting up: exact floor of the real square root.
pub fn isqrt(n: i64) -> (r: i64)
    requires
        0 <= n <= 1_000_000_000_000,
    ensures
        is_isqrt(n as int, r as int),
        r as int == isqrt_of(n as int),
{
    let mut r: i64 = 0;
    loop
        invariant
            0 <= n <= 1_000_000_000_000,
            0 <= r <= 1_000_000,
            r * r <= n,
        ensures
            is_isqrt(n as int, r as int),
        decreases n - r * r,
    {
        proof {
            assert((r + 1) * (r + 1) <= 2_000_000_000_000int) by (nonlinear_arith)
                requires
                    0 <= r <= 1_000_000,
            ;
        }
        let s = (r + 1) * (r + 1);
        if s > n {
            break;
        }
        proof {
            assert(r < 1_000_000) by (nonlinear_arith)
                requires
                    0 <= r,
                    (r + 1) * (r + 1) <= 1_000_000_000_000int,
            ;
            assert(r * r < (r + 1) * (r + 1)) by (nonlinear_arith)
                requires
                    0 <= r,
            ;
        }
        r = r + 1;
    }
    proof {
        assert(is_isqrt(n as int, r as int));
        lemma_isqrt_exists(n as int);
        lemma_isqrt_unique(n as int, r as int, isqrt_of(n as int));
    }
    r
}

/// A vector whose components are all zero.
pub open spec fn is_zero_vec(s: Seq<i64>) -> bool {
    forall|i: int| 0 <= i < s.len() ==> #[trigger] s[i] == 0
}

/// The dot product of an all-zero vector with itself is zero.
pub proof fn lemma_dot_zero(z: Seq<i64>)
    requires
        is_zero_vec(z),
    ensures
        spec_dot(z, z) == 0,
    decreases z.len(),
{
    if z.len() > 0 {
        lemma_dot_zero(z.drop_first());
    }
}

/// Similarity against a zero vector is zero, on either side; in particular
/// the similarity of the zero vector with itself is zero, not one.
pub proof fn lemma_cosine_zero(v: Seq<i64>, z: Seq<i64>)
    requires
        is_zero_vec(z),
    ensures
        spec_cosine(v, z) == 0,
        spec_cosine(z, v) == 0,
{
    lemma_dot_zero(z);
    lemma_isqrt_exists(0);
    lemma_isqrt_unique(0, 0, isqrt_of(0));
    assert(spec_norm(z) == 0);
    assert(spec_norm(v) * spec_norm(z) == 0) by (nonlinear_arith)
        requires
            spec_norm(z) == 0,
    ;
    assert(spec_norm(z) * spec_norm(v) == 0) by (nonlinear_arith)
        requires
            spec_norm(z) == 0,
    ;
}

/// A vector with nonzero norm has similarity one with itself, up to the
/// rounding of the floored norm: the result is at least `SCORE_SCALE` and
/// overshoots by no more than `2 * SCORE_SCALE / norm`, an error that
/// vanishes as the norm grows.
pub proof fn lemma_cosine_self(v: Seq<i64>)
    requires
        bounded_embedding(v),
        spec_dot(v, v) > 0,
    ensures
        1 <= spec_norm(v),
        SCORE_SCALE <= spec_cosine(v, v),
        spec_cosine(v, v) <= SCORE_SCALE + 2 * SCORE_SCALE / spec_norm(v),
{
    let d = spec_dot(v, v);
    let s = SCORE_SCALE as int;
    lemma_isqrt_exists(d);
    let r = isqrt_of(d);
    assert(is_isqrt(d, r));
    if r == 0 {
        assert(d < (0 + 1) * (0 + 1));
        assert(false);
    }
    let nn = r * r;
    assert(nn >= 1 && nn <= d) by (nonlinear_arith)
        requires
            1 <= r,
            r * r <= d,
            nn == r * r,
    ;
    assert(spec_cosine(v, v) == s * d / nn);
    // Lower bound: d >= nn, so s * d / nn >= s * nn / nn == s.
    assert(s * nn <= s * d) by (nonlinear_arith)
        requires
            nn <= d,
            s > 0,
    ;
    vstd::arithmetic::div_mod::lemma_div_is_ordered(s * nn, s * d, nn);
    vstd::arithmetic::div_mod::lemma_div_by_multiple(s, nn);
    assert(s * nn == nn * s) by (nonlinear_arith);
    assert((s * nn) / nn == s);
    // Upper bound: d <= nn + 2r, so s * d / nn <= s + (2 * s * r) / (r * r)
    // and the last term is exactly 2 * s / r.
    assert(d <= nn + 2 * r) by (nonlinear_arith)
        requires
            d < (r + 1) * (r + 1),
            nn == r * r,
    ;
    assert(s * d <= 2 * s * r + s * nn) by (nonlinear_arith)
        requires
            d <= nn + 2 * r,
            s > 0,
    ;
    vstd::arithmetic::div_mod::lemma_div_is_ordered(s * d, 2 * s * r + s * nn, nn);
    vstd::arithmetic::div_mod::lemma_hoist_over_denominator(2 * s * r, s, nn as nat);
    assert((2 * s * r + s * nn) / nn == (2 * s * r) / nn + s);
    vstd::arithmetic::div_mod::lemma_div_denominator(2 * s * r, r, r);
    assert((2 * s * r) / nn == ((2 * s * r) / r) / r);
    assert(2 * s * r == (2 * s) * r) by (nonlinear_arith);
    vstd::arithmetic::div_mod::lemma_div_by_multiple(2 * s, r);
    assert(((2 * s) * r) / r == 2 * s);
    assert((2 * s * r) / nn == (2 * s) / r);
}

/// The Euclidean norm of a vector, floored to an integer.
pub fn norm(a: &Vec<i64>) -> (r: i64)
    requires
        bounded_embedding(a@),
    ensures
        r == spec_norm(a@),
{
    proof {
        lemma_dot_self_nonneg(a@);
        lemma_dot_bound(a@, a@);
        assert((a@.len() as int) * VALUE_LIMIT * VALUE_LIMIT <= 1_000_000_000int)
            by (nonlinear_arith)
            requires
                0 <= a@.len() as int <= 1000,
                VALUE_LIMIT == 1000,
        ;
    }
    isqrt(dot_product(a, a))
}

/// Cosine similarity scaled by `SCORE_SCALE`; zero whenever either vector has
/// zero (floored) norm, so there is never a division by zero.
pub fn cosine_similarity(a: &Vec<i64>, b: &Vec<i64>) -> (r: i64)
    requires
        a@.len() == b@.len(),
        bounded_embedding(a@),
        bounded_embedding(b@),
    ensures
        r == spec_cosine(a@, b@),
{
    proof {
        lemma_dot_self_nonneg(a@);
        lemma_dot_self_nonneg(b@);
        lemma_dot_bound(a@, a@);
        lemma_dot_bound(b@, b@);
        lemma_dot_bound(a@, b@);
        assert((a@.len() as int) * VALUE_LIMIT * VALUE_LIMIT <= 1_000_000_000int)
            by (nonlinear_arith)
            requires
                0 <= a@.len() as int <= 1000,
                VALUE_LIMIT == 1000,
        ;
    }
    let aa = dot_product(a, a);
    let bb = dot_product(b, b);
    let na = isqrt(aa);
    let nb = isqrt(bb);
    proof {
        assert(na * na <= aa && nb * nb <= bb);
        assert(0 <= na <= 1_000_000 && 0 <= nb <= 1_000_000) by (nonlinear_arith)
            requires
                is_isqrt(aa as int, na as int),
                is_isqrt(bb as int, nb as int),
                aa <= 1_000_000_000_000int,
                bb <= 1_000_000_000_000int,
        ;
        assert(na * nb <= 1_000_000_000_000int) by (nonlinear_arith)
            requires
                0 <= na <= 1_000_000,
                0 <= nb <= 1_000_000,
        ;
    }
    let nn = na * nb;
    if nn == 0 {
        return 0;
    }
    let d = dot_product(a, b);
    let neg = d < 0;
    let dd: i64 = if neg {
        -d
    } else {
        d
    };
    let scaled: i64 = SCORE_SCALE * dd;
    proof {
        assert(0 <= scaled <= 1_000_000_000_000_000int);
        vstd::arithmetic::div_mod::lemma_div_pos_is_pos(scaled as int, nn as int);
        vstd::arithmetic::div_mod::lemma_div_nonincreasing(scaled as int, nn as int);
    }
    let q: u64 = (scaled as u64) / (nn as u64);
    let qi: i64 = q as i64;
    if neg {
        -qi
    } else {
        qi
    }
}

} // verus!
