//! Fixed-point embedding vectors and cosine similarity.
//!
//! Embedding components are held in micro-units (`SIM_SCALE` micro-units to
//! one), so a unit-length model vector has components within
//! `[-SIM_SCALE, SIM_SCALE]`. Similarity scores come out in the same
//! micro-unit scale: a score of `SIM_SCALE` is a perfect match.

use vstd::prelude::*;

use vstd::arithmetic::div_mod::{
    lemma_div_by_multiple, lemma_div_is_ordered, lemma_div_multiples_vanish,
    lemma_div_pos_is_pos,
};

verus! {

/// Micro-units to one: similarity scores and vector components are scaled by
/// this factor.
pub const SIM_SCALE: i64 = 1_000_000;

/// Most words a vector may have; keeps every dot product within `i64`.
pub const MAX_DIM: usize = 65536;

/// Largest magnitude a component may have; keeps every dot product within
/// `i64`.
pub const MAX_COMPONENT: i64 = 2_000_000;

/// A vector small enough, with components small enough, that all the
/// arithmetic below stays in range.
pub open spec fn bounded_vec(a: Seq<i64>) -> bool {
    &&& a.len() <= MAX_DIM
    &&& forall|i: int| 0 <= i < a.len() ==> -MAX_COMPONENT <= #[trigger] a[i] <= MAX_COMPONENT
}

/// Dot product over the common prefix of the two vectors.
pub open spec fn dot_spec(a: Seq<i64>, b: Seq<i64>) -> int
    decreases a.len(),
{
    if a.len() == 0 || b.len() == 0 {
        0
    } else {
        a[0] * b[0] + dot_spec(a.drop_first(), b.drop_first())
    }
}

/// Squared magnitude of a vector.
pub open spec fn norm_sq(a: Seq<i64>) -> int {
    dot_spec(a, a)
}

/// A squared magnitude is never negative.
pub proof fn lemma_norm_sq_nonneg(a: Seq<i64>)
    ensures
        norm_sq(a) >= 0,
    decreases a.len(),
{
    if a.len() > 0 {
        assert(a[0] * a[0] >= 0) by (nonlinear_arith);
        lemma_norm_sq_nonneg(a.drop_first());
    }
}

/// The squared magnitude of an all-zero vector is zero.
pub proof fn lemma_norm_sq_zero(a: Seq<i64>)
    requires
        forall|i: int| 0 <= i < a.len() ==> a[i] == 0,
    ensures
        norm_sq(a) == 0,
    decreases a.len(),
{
    if a.len() > 0 {
        assert(forall|i: int|
            0 <= i < a.drop_first().len() ==> a.drop_first()[i] == a[i + 1] && a[i + 1] == 0);
        lemma_norm_sq_zero(a.drop_first());
    }
}

/// Cauchy-Schwarz: the square of a dot product never exceeds the product of
/// the squared magnitudes.
pub proof fn lemma_cauchy_schwarz(a: Seq<i64>, b: Seq<i64>)
    ensures
        dot_spec(a, b) * dot_spec(a, b) <= norm_sq(a) * norm_sq(b),
    decreases a.len(),
{
    if a.len() == 0 || b.len() == 0 {
        lemma_norm_sq_nonneg(a);
        lemma_norm_sq_nonneg(b);
        assert(norm_sq(a) * norm_sq(b) >= 0) by (nonlinear_arith)
            requires
                norm_sq(a) >= 0,
                norm_sq(b) >= 0,
        ;
    } else {
        let x = a[0] as int;
        let y = b[0] as int;
        let a1 = a.drop_first();
        let b1 = b.drop_first();
        let c = dot_spec(a1, b1);
        let qa = norm_sq(a1);
        let qb = norm_sq(b1);
        lemma_cauchy_schwarz(a1, b1);
        lemma_norm_sq_nonneg(a1);
        lemma_norm_sq_nonneg(b1);
        assert(b.drop_first() == b1);
        assert(dot_spec(a, b) == x * y + c);
        assert(norm_sq(a) == x * x + qa) by {
            assert(dot_spec(a, a) == x * x + dot_spec(a1, a1));
        }
        assert(norm_sq(b) == y * y + qb) by {
            assert(dot_spec(b, b) == y * y + dot_spec(b1, b1));
        }
        // 2xyc <= x*x*qb + y*y*qa, by comparing squares.
        assert((2 * x * y * c) * (2 * x * y * c) <= (x * x * qb + y * y * qa) * (x * x * qb + y * y
            * qa)) by (nonlinear_arith)
            requires
                c * c <= qa * qb,
                qa >= 0,
                qb >= 0,
        ;
        assert(x * x * qb >= 0 && y * y * qa >= 0) by (nonlinear_arith)
            requires
                qa >= 0,
                qb >= 0,
        ;
        assert(2 * x * y * c <= x * x * qb + y * y * qa) by (nonlinear_arith)
            requires
                (2 * x * y * c) * (2 * x * y * c) <= (x * x * qb + y * y * qa) * (x * x * qb + y * y
                    * qa),
                x * x * qb + y * y * qa >= 0,
        ;
        assert((x * y + c) * (x * y + c) == x * x * y * y + 2 * x * y * c + c * c)
            by (nonlinear_arith);
        assert((x * x + qa) * (y * y + qb) == x * x * y * y + x * x * qb + y * y * qa + qa * qb)
            by (nonlinear_arith);
        assert((x * y + c) * (x * y + c) <= (x * x + qa) * (y * y + qb));
    }
}

/// The integer square root: the largest `r` with `r * r <= x` (zero for
/// non-positive `x`).
pub open spec fn isqrt_spec(x: int) -> int
    decreases x,
{
    if x <= 0 {
        0
    } else {
        let p = isqrt_spec(x - 1);
        if (p + 1) * (p + 1) <= x {
            p + 1
        } else {
            p
        }
    }
}

/// The integer square root is sandwiched by the squares around `x`.
pub proof fn lemma_isqrt_bounds(x: int)
    requires
        x >= 0,
    ensures
        isqrt_spec(x) >= 0,
        isqrt_spec(x) * isqrt_spec(x) <= x,
        x < (isqrt_spec(x) + 1) * (isqrt_spec(x) + 1),
    decreases x,
{
    if x > 0 {
        lemma_isqrt_bounds(x - 1);
        let p = isqrt_spec(x - 1);
        if (p + 1) * (p + 1) <= x {
            assert(x < ((p + 1) + 1) * ((p + 1) + 1)) by (nonlinear_arith)
                requires
                    x - 1 < (p + 1) * (p + 1),
                    p >= 0,
            ;
        }
    }
}

/// Any `r` sandwiched by the squares around `x` is the integer square root.
pub proof fn lemma_isqrt_unique(x: int, r: int)
    requires
        x >= 0,
        r >= 0,
        r * r <= x,
        x < (r + 1) * (r + 1),
    ensures
        r == isqrt_spec(x),
{
    let s = isqrt_spec(x);
    lemma_isqrt_bounds(x);
    if r < s {
        assert((r + 1) * (r + 1) <= s * s) by (nonlinear_arith)
            requires
                0 <= r + 1 <= s,
        ;
    }
    if s < r {
        assert((s + 1) * (s + 1) <= r * r) by (nonlinear_arith)
            requires
                0 <= s + 1 <= r,
        ;
    }
}

/// Integer square root by binary search.
pub fn isqrt(x: u128) -> (r: u128)
    ensures
        r as int == isqrt_spec(x as int),
        r * r <= x,
{
    let mut lo: u128 = 0;
    let mut hi: u128 = 18446744073709551615;
    while lo < hi
        invariant
            lo <= hi <= 18446744073709551615,
            (lo as int) * (lo as int) <= x as int,
            (x as int) < (hi as int + 1) * (hi as int + 1),
        decreases hi - lo,
    {
        let mid = lo + (hi - lo + 1) / 2;
        proof {
            assert(lo < mid <= hi);
            assert((mid as int) * (mid as int) <= 18446744073709551615int
                * 18446744073709551615int) by (nonlinear_arith)
                requires
                    0 <= mid <= 18446744073709551615int,
            ;
        }
        if mid * mid <= x {
            lo = mid;
        } else {
            hi = mid - 1;
        }
    }
    proof {
        lemma_isqrt_unique(x as int, lo as int);
    }
    lo
}

/// Dot product of the common prefix of two bounded vectors.
pub fn dot_product(a: &Vec<i64>, b: &Vec<i64>) -> (d: i64)
    requires
        bounded_vec(a@),
        bounded_vec(b@),
    ensures
        d as int == dot_spec(a@, b@),
        -(MAX_DIM as int) * (MAX_COMPONENT as int) * (MAX_COMPONENT as int) <= d as int <= (
        MAX_DIM as int) * (MAX_COMPONENT as int) * (MAX_COMPONENT as int),
{
    let m = if a.len() <= b.len() {
        a.len()
    } else {
        b.len()
    };
    let mut sum: i64 = 0;
    let mut j: usize = 0;
    proof {
        assert(a@.skip(0) =~= a@);
        assert(b@.skip(0) =~= b@);
    }
    while j < m
        invariant
            j <= m,
            m <= a@.len(),
            m <= b@.len(),
            m <= MAX_DIM,
            m == if a@.len() <= b@.len() {
                a@.len()
            } else {
                b@.len()
            },
            bounded_vec(a@),
            bounded_vec(b@),
            -(j as int) * (MAX_COMPONENT as int) * (MAX_COMPONENT as int) <= sum as int <= (
            j as int) * (MAX_COMPONENT as int) * (MAX_COMPONENT as int),
            dot_spec(a@, b@) == sum + dot_spec(a@.skip(j as int), b@.skip(j as int)),
        decreases m - j,
    {
        proof {
            let av = a@[j as int] as int;
            let bv = b@[j as int] as int;
            assert(av * bv <= (MAX_COMPONENT as int) * (MAX_COMPONENT as int) && -(
            MAX_COMPONENT as int) * (MAX_COMPONENT as int) <= av * bv) by (nonlinear_arith)
                requires
                    -MAX_COMPONENT <= av <= MAX_COMPONENT,
                    -MAX_COMPONENT <= bv <= MAX_COMPONENT,
            ;
            assert(a@.skip(j as int).drop_first() =~= a@.skip(j as int + 1));
            assert(b@.skip(j as int).drop_first() =~= b@.skip(j as int + 1));
            assert(a@.skip(j as int)[0] == a@[j as int]);
            assert(b@.skip(j as int)[0] == b@[j as int]);
            assert((j as int + 1) * (MAX_COMPONENT as int) * (MAX_COMPONENT as int) == (j as int) * (
            MAX_COMPONENT as int) * (MAX_COMPONENT as int) + (MAX_COMPONENT as int) * (
            MAX_COMPONENT as int)) by (nonlinear_arith);
        }
        let p = a[j] * b[j];
        sum = sum + p;
        j += 1;
    }
    proof {
        assert(a@.skip(m as int).len() == 0 || b@.skip(m as int).len() == 0);
        assert((m as int) * (MAX_COMPONENT as int) * (MAX_COMPONENT as int) <= (MAX_DIM as int) * (
        MAX_COMPONENT as int) * (MAX_COMPONENT as int) && -(MAX_DIM as int) * (MAX_COMPONENT as int)
            * (MAX_COMPONENT as int) <= -(m as int) * (MAX_COMPONENT as int) * (
        MAX_COMPONENT as int)) by (nonlinear_arith)
            requires
                0 <= m <= MAX_DIM,
        ;
    }
    sum
}

/// The scaled cosine similarity: the dot product over the square root of
/// the product of the squared magnitudes, in micro-units, rounded toward
/// zero; zero whenever either vector has zero magnitude, so a zero
/// denominator is never formed. Taking the root after the product (rather
/// than multiplying the two rounded roots) keeps self-similarity exact and
/// every score within one.
pub open spec fn spec_cosine(a: Seq<i64>, b: Seq<i64>) -> int {
    let d = dot_spec(a, b);
    let den = isqrt_spec(norm_sq(a) * norm_sq(b));
    if norm_sq(a) == 0 || norm_sq(b) == 0 {
        0
    } else if d >= 0 {
        (d * SIM_SCALE) / den
    } else {
        -((-d * SIM_SCALE) / den)
    }
}

/// Scaled cosine similarity always lies within one unit: Cauchy-Schwarz
/// bounds the dot product by the denominator, and the division rounds
/// toward zero.
pub proof fn lemma_cosine_range(a: Seq<i64>, b: Seq<i64>)
    ensures
        -SIM_SCALE <= spec_cosine(a, b) <= SIM_SCALE,
{
    let d = dot_spec(a, b);
    let qa = norm_sq(a);
    let qb = norm_sq(b);
    lemma_norm_sq_nonneg(a);
    lemma_norm_sq_nonneg(b);
    if qa == 0 || qb == 0 {
    } else {
        let den = isqrt_spec(qa * qb);
        assert(qa * qb >= 1) by (nonlinear_arith)
            requires
                qa >= 1,
                qb >= 1,
        ;
        lemma_isqrt_bounds(qa * qb);
        assert(den >= 1) by (nonlinear_arith)
            requires
                den >= 0,
                qa * qb >= 1,
                qa * qb < (den + 1) * (den + 1),
        ;
        lemma_cauchy_schwarz(a, b);
        assert(-den <= d <= den) by (nonlinear_arith)
            requires
                d * d <= qa * qb,
                qa * qb < (den + 1) * (den + 1),
                den >= 1,
        ;
        if d >= 0 {
            assert(d * SIM_SCALE <= (SIM_SCALE as int) * den) by (nonlinear_arith)
                requires
                    0 <= d <= den,
                    SIM_SCALE > 0,
            ;
            lemma_div_is_ordered(d * SIM_SCALE, (SIM_SCALE as int) * den, den);
            lemma_div_by_multiple(SIM_SCALE as int, den);
            assert(((SIM_SCALE as int) * den) / den == SIM_SCALE);
            lemma_div_pos_is_pos(d * SIM_SCALE, den);
        } else {
            assert(-d * SIM_SCALE <= (SIM_SCALE as int) * den) by (nonlinear_arith)
                requires
                    0 < -d <= den,
                    SIM_SCALE > 0,
            ;
            lemma_div_is_ordered(-d * SIM_SCALE, (SIM_SCALE as int) * den, den);
            lemma_div_by_multiple(SIM_SCALE as int, den);
            assert(((SIM_SCALE as int) * den) / den == SIM_SCALE);
            lemma_div_pos_is_pos(-d * SIM_SCALE, den);
        }
    }
}

/// The scaled cosine similarity of two bounded vectors: their dot product
/// over the square root of the product of their squared magnitudes, in
/// micro-units; zero when either vector has zero magnitude. Always within
/// one, and exactly one for a non-zero vector against itself.
pub fn cosine_similarity(a: &Vec<i64>, b: &Vec<i64>) -> (s: i64)
    requires
        bounded_vec(a@),
        bounded_vec(b@),
    ensures
        s as int == spec_cosine(a@, b@),
        -SIM_SCALE <= s <= SIM_SCALE,
{
    let d = dot_product(a, b);
    let qa = dot_product(a, a);
    let qb = dot_product(b, b);
    proof {
        lemma_norm_sq_nonneg(a@);
        lemma_norm_sq_nonneg(b@);
        lemma_cosine_range(a@, b@);
    }
    if qa == 0 || qb == 0 {
        return 0;
    }
    proof {
        let bound = (MAX_DIM as int) * (MAX_COMPONENT as int) * (MAX_COMPONENT as int);
        assert((qa as int) * (qb as int) <= bound * bound && 1 <= (qa as int) * (qb as int))
            by (nonlinear_arith)
            requires
                1 <= qa as int <= bound,
                1 <= qb as int <= bound,
        ;
    }
    let prod: u128 = (qa as u128) * (qb as u128);
    let den: u128 = isqrt(prod);
    proof {
        lemma_isqrt_bounds(prod as int);
        let di = den as int;
        let pi = prod as int;
        assert(di >= 1) by (nonlinear_arith)
            requires
                di >= 0,
                pi >= 1,
                pi < (di + 1) * (di + 1),
        ;
    }
    let dm: u128 = if d >= 0 {
        d as u128
    } else {
        (-d) as u128
    };
    let num: u128 = dm * 1000000u128;
    let q: u128 = num / den;
    proof {
        assert(num as int == (dm as int) * (SIM_SCALE as int));
        assert(prod as int == (qa as int) * (qb as int));
        if d >= 0 {
            assert(q as int == ((d as int) * SIM_SCALE) / (den as int));
            assert(q as int == spec_cosine(a@, b@));
        } else {
            assert(q as int == ((-(d as int)) * SIM_SCALE) / (den as int));
            assert(-(q as int) == spec_cosine(a@, b@));
        }
        assert(q <= SIM_SCALE);
    }
    if d >= 0 {
        q as i64
    } else {
        -(q as i64)
    }
}

/// A non-zero vector has similarity exactly one with itself: the dot
/// product with itself is its squared magnitude, whose square the
/// denominator's integer square root recovers exactly.
pub proof fn lemma_cosine_self(a: Seq<i64>)
    requires
        norm_sq(a) > 0,
    ensures
        spec_cosine(a, a) == SIM_SCALE,
{
    let q = norm_sq(a);
    assert(q * q >= 0 && q * q < (q + 1) * (q + 1)) by (nonlinear_arith)
        requires
            q >= 1,
    ;
    lemma_isqrt_unique(q * q, q);
    lemma_div_multiples_vanish(SIM_SCALE as int, q);
    assert((q * (SIM_SCALE as int)) / q == SIM_SCALE);
    assert(spec_cosine(a, a) == (q * SIM_SCALE) / q);
}

/// Similarity against an all-zero vector is exactly zero, on either side:
/// the zero-magnitude guard fires instead of dividing by zero.
pub proof fn lemma_cosine_zero(a: Seq<i64>, b: Seq<i64>)
    requires
        forall|i: int| 0 <= i < b.len() ==> b[i] == 0,
    ensures
        spec_cosine(a, b) == 0,
        spec_cosine(b, a) == 0,
{
    lemma_norm_sq_zero(b);
}

} // verus!
