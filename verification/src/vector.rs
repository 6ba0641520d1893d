//! Exact integer vector arithmetic for the similarity ranker: dot products,
//! squared norms, and the Cauchy-Schwarz inequality that keeps every cosine
//! between minus one and one.

use vstd::prelude::*;

verus! {

/// Largest squared norm the ranker accepts; products of two such norms and
/// their thousandfold threshold scalings stay within 128 bits.
pub const NORM_LIMIT: i128 = 0x10_0000_0000_0000;

/// A weight vector as mathematical integers.
pub open spec fn ints_of(v: Seq<i64>) -> Seq<int> {
    v.map_values(|x: i64| x as int)
}

pub open spec fn dot(q: Seq<int>, r: Seq<int>) -> int
    decreases q.len(),
{
    if q.len() == 0 || r.len() == 0 {
        0
    } else {
        dot(q.drop_last(), r.drop_last()) + q.last() * r.last()
    }
}

pub open spec fn norm_sq(v: Seq<int>) -> int
    decreases v.len(),
{
    if v.len() == 0 {
        0
    } else {
        norm_sq(v.drop_last()) + v.last() * v.last()
    }
}

pub proof fn lemma_norm_sq_nonneg(v: Seq<int>)
    ensures
        norm_sq(v) >= 0,
    decreases v.len(),
{
    if v.len() == 0 {
    } else {
        lemma_norm_sq_nonneg(v.drop_last());
        assert(v.last() * v.last() >= 0) by (nonlinear_arith);
    }
}

/// The inductive step behind Cauchy-Schwarz: extending both vectors by one
/// coordinate keeps the inequality.
proof fn lemma_cs_step(d: int, a: int, b: int, x: int, y: int)
    requires
        a >= 0,
        b >= 0,
        d * d <= a * b,
    ensures
        (d + x * y) * (d + x * y) <= (a + x * x) * (b + y * y),
{
    if b == 0 {
        assert(d == 0) by (nonlinear_arith)
            requires d * d <= a * 0 * b || d * d <= a * b, a >= 0, b == 0;
        assert((x * y) * (x * y) <= (a + x * x) * (y * y)) by (nonlinear_arith)
            requires a >= 0;
    } else {
        assert(b * (a * (y * y) + b * (x * x) - 2 * d * (x * y)) >= 0) by (nonlinear_arith)
            requires b > 0, d * d <= a * b;
        assert(a * (y * y) + b * (x * x) - 2 * d * (x * y) >= 0) by (nonlinear_arith)
            requires b > 0, b * (a * (y * y) + b * (x * x) - 2 * d * (x * y)) >= 0;
        assert((d + x * y) * (d + x * y) == d * d + 2 * d * (x * y) + (x * y) * (x * y))
            by (nonlinear_arith);
        assert((a + x * x) * (b + y * y) == a * b + a * (y * y) + b * (x * x) + (x * x) * (y * y))
            by (nonlinear_arith);
        assert((x * y) * (x * y) == (x * x) * (y * y)) by (nonlinear_arith);
        assert((d + x * y) * (d + x * y) <= (a + x * x) * (b + y * y));
    }
}

/// Cauchy-Schwarz: the squared dot product never exceeds the product of the
/// squared norms, so every cosine lies between minus one and one.
pub proof fn lemma_cauchy_schwarz(q: Seq<int>, r: Seq<int>)
    requires
        q.len() == r.len(),
    ensures
        dot(q, r) * dot(q, r) <= norm_sq(q) * norm_sq(r),
    decreases q.len(),
{
    if q.len() == 0 {
    } else {
        lemma_cauchy_schwarz(q.drop_last(), r.drop_last());
        lemma_norm_sq_nonneg(q.drop_last());
        lemma_norm_sq_nonneg(r.drop_last());
        lemma_cs_step(
            dot(q.drop_last(), r.drop_last()),
            norm_sq(q.drop_last()),
            norm_sq(r.drop_last()),
            q.last(),
            r.last(),
        );
    }
}

/// A vector with squared norm zero is the zero vector, so its dot product
/// with anything is zero: an all-out-of-vocabulary query scores zero
/// against every document.
pub proof fn lemma_zero_norm_zero_dot(q: Seq<int>, r: Seq<int>)
    requires
        q.len() == r.len(),
        norm_sq(q) == 0,
    ensures
        dot(q, r) == 0,
    decreases q.len(),
{
    if q.len() == 0 {
    } else {
        lemma_norm_sq_nonneg(q.drop_last());
        assert(q.last() * q.last() >= 0) by (nonlinear_arith);
        assert(norm_sq(q.drop_last()) == 0);
        assert(q.last() == 0) by (nonlinear_arith)
            requires q.last() * q.last() <= 0;
        lemma_zero_norm_zero_dot(q.drop_last(), r.drop_last());
    }
}

/// A vector's dot product with itself is its squared norm.
pub proof fn lemma_dot_self(q: Seq<int>)
    ensures
        dot(q, q) == norm_sq(q),
    decreases q.len(),
{
    if q.len() == 0 {
    } else {
        lemma_dot_self(q.drop_last());
    }
}

/// No entry's square exceeds the squared norm.
pub proof fn lemma_norm_sq_element(v: Seq<int>, j: int)
    requires
        0 <= j < v.len(),
    ensures
        v[j] * v[j] <= norm_sq(v),
    decreases v.len(),
{
    if j == v.len() - 1 {
        lemma_norm_sq_nonneg(v.drop_last());
    } else {
        lemma_norm_sq_element(v.drop_last(), j);
        assert(v.drop_last()[j] == v[j]);
        assert(v.last() * v.last() >= 0) by (nonlinear_arith);
    }
}

/// Squared norms only grow as a vector is extended.
pub proof fn lemma_norm_sq_take_le(v: Seq<int>, k: int)
    requires
        0 <= k <= v.len(),
    ensures
        norm_sq(v.take(k)) <= norm_sq(v),
    decreases v.len() - k,
{
    if k == v.len() {
        assert(v.take(k) =~= v);
    } else {
        lemma_norm_sq_take_le(v, k + 1);
        assert(v.take(k + 1).drop_last() =~= v.take(k));
        assert(v.take(k + 1).last() == v[k]);
        assert(v[k] * v[k] >= 0) by (nonlinear_arith);
    }
}

/// The dot product and the two squared norms of a pair of weight vectors,
/// computed exactly.
pub fn dot_and_norms(q: &Vec<i64>, r: &Vec<i64>) -> (res: (i128, i128, i128))
    requires
        q@.len() == r@.len(),
        norm_sq(ints_of(q@)) <= NORM_LIMIT,
        norm_sq(ints_of(r@)) <= NORM_LIMIT,
    ensures
        res.0 == dot(ints_of(q@), ints_of(r@)),
        res.1 == norm_sq(ints_of(q@)),
        res.2 == norm_sq(ints_of(r@)),
        res.0 * res.0 <= res.1 * res.2,
        0 <= res.1 <= NORM_LIMIT,
        0 <= res.2 <= NORM_LIMIT,
{
    let ghost qv = ints_of(q@);
    let ghost rv = ints_of(r@);
    let n = q.len();
    let mut pd: i128 = 0;
    let mut pa: i128 = 0;
    let mut pb: i128 = 0;
    let mut k: usize = 0;
    proof {
        assert(qv.take(0) =~= Seq::<int>::empty());
        assert(rv.take(0) =~= Seq::<int>::empty());
    }
    while k < n
        invariant
            n == q@.len(),
            n == r@.len(),
            qv == ints_of(q@),
            rv == ints_of(r@),
            norm_sq(qv) <= NORM_LIMIT,
            norm_sq(rv) <= NORM_LIMIT,
            k <= n,
            pd == dot(qv.take(k as int), rv.take(k as int)),
            pa == norm_sq(qv.take(k as int)),
            pb == norm_sq(rv.take(k as int)),
            0 <= pa <= NORM_LIMIT,
            0 <= pb <= NORM_LIMIT,
            pd * pd <= pa * pb,
            -NORM_LIMIT <= pd <= NORM_LIMIT,
        decreases n - k,
    {
        let ghost x = qv[k as int];
        let ghost y = rv[k as int];
        proof {
            assert(qv.take(k + 1).drop_last() =~= qv.take(k as int));
            assert(rv.take(k + 1).drop_last() =~= rv.take(k as int));
            assert(qv.take(k + 1).last() == x);
            assert(rv.take(k + 1).last() == y);
            lemma_cs_step(pd as int, pa as int, pb as int, x, y);
            lemma_norm_sq_take_le(qv, k + 1);
            lemma_norm_sq_take_le(rv, k + 1);
            lemma_norm_sq_nonneg(qv.take(k + 1));
            lemma_norm_sq_nonneg(rv.take(k + 1));
            assert(x * x >= 0) by (nonlinear_arith);
            assert(y * y >= 0) by (nonlinear_arith);
            assert(x == q@[k as int] as int);
            assert(y == r@[k as int] as int);
            // the products of two signed 64-bit values stay within 128 bits
            assert(x * y <= 0x4000_0000_0000_0000_0000_0000_0000_0000
                && x * y >= -0x4000_0000_0000_0000_0000_0000_0000_0000) by (nonlinear_arith)
                requires
                    -0x8000_0000_0000_0000 <= x <= 0x7FFF_FFFF_FFFF_FFFF,
                    -0x8000_0000_0000_0000 <= y <= 0x7FFF_FFFF_FFFF_FFFF;
            assert(x * x <= 0x4000_0000_0000_0000_0000_0000_0000_0000) by (nonlinear_arith)
                requires -0x8000_0000_0000_0000 <= x <= 0x7FFF_FFFF_FFFF_FFFF;
            assert(y * y <= 0x4000_0000_0000_0000_0000_0000_0000_0000) by (nonlinear_arith)
                requires -0x8000_0000_0000_0000 <= y <= 0x7FFF_FFFF_FFFF_FFFF;
        }
        let qe = q[k] as i128;
        let re = r[k] as i128;
        pd = pd + qe * re;
        pa = pa + qe * qe;
        pb = pb + re * re;
        proof {
            // the restored invariant bounds the running dot product again
            assert(pd * pd <= pa * pb);
            assert(pd <= NORM_LIMIT && pd >= -NORM_LIMIT) by (nonlinear_arith)
                requires
                    pd * pd <= pa * pb,
                    0 <= pa <= NORM_LIMIT,
                    0 <= pb <= NORM_LIMIT,
                    NORM_LIMIT == 0x10_0000_0000_0000int;
        }
        k = k + 1;
    }
    proof {
        assert(qv.take(n as int) =~= qv);
        assert(rv.take(n as int) =~= rv);
    }
    (pd, pa, pb)
}

} // verus!
