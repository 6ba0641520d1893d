//! Inverse document frequency in exact fixed-point arithmetic.
//!
//! `idf(t) = ln(N / (1 + df(t)))`, with add-one smoothing in the
//! denominator. The logarithm is computed in thousandths: the ratio is
//! reduced to `2^k * m` with `m` in `[1, 2)`, giving `k * ln 2` plus an
//! odd-power series in `z = (m - 1) / (m + 1) <= 1/3`. When the ratio is
//! above one the result is at least one thousandth, so the sign of the
//! logarithm is kept exactly; [`lemma_idf_sign`](crate::laws) rests on that.

use vstd::prelude::*;
use vstd::arithmetic::power2::pow2;

verus! {

/// Upper bound (exclusive) on the numerator and denominator the fixed-point
/// logarithm accepts.
pub const LN_ARG_LIMIT: u64 = 0x1_0000_0000;

/// Every fixed-point logarithm value lies within this bound (inclusive).
pub const IDF_LIMIT: i64 = 32767;

/// How many doublings of `b` stay at or below `a`.
pub open spec fn log2_floor(a: nat, b: nat) -> nat
    decreases a - b,
{
    if b == 0 {
        0
    } else if a < 2 * b {
        0
    } else {
        1 + log2_floor(a, 2 * b)
    }
}

/// The series part: `ln` of `a / b` for `b <= a < 2b`, in thousandths,
/// computed from `z = 1000 * (a - b') / (a + b')` by three odd-power terms.
pub open spec fn ln_series_spec(a: nat, c: nat) -> int {
    let z = 1000 * (a - c) / (a + c as int);
    let zsq = z * z / 1000;
    let p3 = z * zsq / 1000;
    let p5 = p3 * zsq / 1000;
    let p7 = p5 * zsq / 1000;
    z + p3 / 3 + p5 / 5 + p7 / 7
}

/// `ln(a / b)` in thousandths for `a > b >= 1`, before the floor-at-one
/// adjustment.
pub open spec fn ln_core_spec(a: nat, b: nat) -> int {
    let k = log2_floor(a, b);
    let c = b * pow2(k);
    k * 693 + 2 * ln_series_spec(a, c)
}

/// `ln(a / b)` in thousandths. Zero exactly when `a == b`, positive exactly
/// when `a > b`, negative exactly when `a < b`.
pub open spec fn ln_fixed_spec(a: nat, b: nat) -> int {
    if a == b {
        0
    } else if a > b {
        if ln_core_spec(a, b) == 0 {
            1
        } else {
            ln_core_spec(a, b)
        }
    } else {
        if ln_core_spec(b, a) == 0 {
            -1
        } else {
            -ln_core_spec(b, a)
        }
    }
}

/// The inverse document frequency of a term seen in `df` of `n` documents.
pub open spec fn idf_spec(n: nat, df: nat) -> int {
    ln_fixed_spec(n, df + 1)
}

/// Doubling `b` by the measured count stays at or below `a`.
pub proof fn lemma_log2_floor_le(a: nat, b: nat)
    requires
        1 <= b <= a,
    ensures
        b * pow2(log2_floor(a, b)) <= a,
    decreases a - b,
{
    if a < 2 * b {
        vstd::arithmetic::power2::lemma2_to64();
        assert(b * pow2(0) == b);
    } else {
        lemma_log2_floor_le(a, 2 * b);
        vstd::arithmetic::power2::lemma_pow2_adds(1, log2_floor(a, 2 * b));
        assert(pow2(1) == 2) by {
            vstd::arithmetic::power2::lemma2_to64();
        }
        assert(b * (2 * pow2(log2_floor(a, 2 * b))) == (2 * b) * pow2(log2_floor(a, 2 * b)))
            by (nonlinear_arith);
    }
}

/// The raw fixed-point logarithm is nonnegative whenever the ratio is at
/// least one.
pub proof fn lemma_ln_core_nonneg(a: nat, b: nat)
    requires
        1 <= b < a,
    ensures
        ln_core_spec(a, b) >= 0,
{
    let k = log2_floor(a, b);
    let c = b * pow2(k);
    lemma_log2_floor_le(a, b);
    vstd::arithmetic::power2::lemma_pow2_pos(k);
    assert(c >= 1) by (nonlinear_arith)
        requires b >= 1, pow2(k) >= 1, c == b * pow2(k);
    let z = 1000 * (a - c) / (a + c as int);
    vstd::arithmetic::div_mod::lemma_div_pos_is_pos(1000 * (a - c), a + c as int);
    let zsq = z * z / 1000;
    vstd::arithmetic::div_mod::lemma_div_pos_is_pos(z * z, 1000);
    assert(z * z >= 0) by (nonlinear_arith);
    let p3 = z * zsq / 1000;
    assert(z * zsq >= 0) by (nonlinear_arith)
        requires z >= 0, zsq >= 0;
    vstd::arithmetic::div_mod::lemma_div_pos_is_pos(z * zsq, 1000);
    let p5 = p3 * zsq / 1000;
    assert(p3 * zsq >= 0) by (nonlinear_arith)
        requires p3 >= 0, zsq >= 0;
    vstd::arithmetic::div_mod::lemma_div_pos_is_pos(p3 * zsq, 1000);
    let p7 = p5 * zsq / 1000;
    assert(p5 * zsq >= 0) by (nonlinear_arith)
        requires p5 >= 0, zsq >= 0;
    vstd::arithmetic::div_mod::lemma_div_pos_is_pos(p5 * zsq, 1000);
    vstd::arithmetic::div_mod::lemma_div_pos_is_pos(p3, 3);
    vstd::arithmetic::div_mod::lemma_div_pos_is_pos(p5, 5);
    vstd::arithmetic::div_mod::lemma_div_pos_is_pos(p7, 7);
    assert(k * 693 >= 0) by (nonlinear_arith);
}

/// The fixed-point logarithm is exact in sign: positive, zero or negative
/// exactly as the ratio is above, at or below one.
pub proof fn lemma_ln_fixed_sign(a: nat, b: nat)
    requires
        1 <= a,
        1 <= b,
    ensures
        (ln_fixed_spec(a, b) > 0) <==> (a > b),
        (ln_fixed_spec(a, b) == 0) <==> (a == b),
        (ln_fixed_spec(a, b) < 0) <==> (a < b),
{
    if a > b {
        lemma_ln_core_nonneg(a, b);
    } else if a < b {
        lemma_ln_core_nonneg(b, a);
    }
}

fn ln_core(a: u64, b: u64) -> (r: u64)
    requires
        1 <= b < a < LN_ARG_LIMIT,
    ensures
        r == ln_core_spec(a as nat, b as nat),
        r <= 23000,
{
    let mut c: u64 = b;
    let mut k: u64 = 0;
    proof {
        vstd::arithmetic::power2::lemma2_to64();
        assert(c == b * pow2(0));
    }
    while c * 2 <= a
        invariant
            1 <= b <= c <= a < LN_ARG_LIMIT,
            c == b * pow2(k as nat),
            k <= 32,
            log2_floor(a as nat, b as nat) == k + log2_floor(a as nat, c as nat),
        decreases a - c,
    {
        proof {
            vstd::arithmetic::power2::lemma_pow2_adds(k as nat, 1);
            vstd::arithmetic::power2::lemma2_to64();
            assert(b * pow2((k + 1) as nat) == b * pow2(k as nat) * 2) by (nonlinear_arith)
                requires pow2((k + 1) as nat) == pow2(k as nat) * 2;
            assert(log2_floor(a as nat, c as nat) == 1 + log2_floor(a as nat, 2 * c as nat));
            if k + 1 > 32 {
                assert(pow2(33) == 0x2_0000_0000) by {
                    vstd::arithmetic::power2::lemma_pow2_adds(32, 1);
                    vstd::arithmetic::power2::lemma2_to64();
                }
                assert(b * pow2(33) >= 0x2_0000_0000) by (nonlinear_arith)
                    requires b >= 1, pow2(33) == 0x2_0000_0000;
                assert(false);
            }
        }
        c = c * 2;
        k = k + 1;
    }
    proof {
        assert(log2_floor(a as nat, c as nat) == 0);
        assert(log2_floor(a as nat, b as nat) == k);
    }
    // now c <= a < 2 * c, so z is at most a third, in thousandths
    let z: u64 = 1000 * (a - c) / (a + c);
    proof {
        assert(3 * (a - c) <= (a + c));
        let x = 1000 * (a - c) as int;
        let y = (a + c) as int;
        vstd::arithmetic::div_mod::lemma_fundamental_div_mod(x, y);
        assert(x / y * y <= x) by (nonlinear_arith)
            requires y > 0, x == x / y * y + x % y, 0 <= x % y;
        assert(x * 3 <= 1000 * y) by (nonlinear_arith)
            requires x == 1000 * ((a - c) as int), 3 * (a - c) <= y;
        assert(x / y <= 333) by (nonlinear_arith)
            requires y > 0, x / y * y <= x, x * 3 <= 1000 * y;
        assert(z as int == x / y);
        assert(z <= 333);
    }
    proof {
        assert(z * z <= 110889) by (nonlinear_arith)
            requires 0 <= z <= 333;
    }
    let zsq: u64 = z * z / 1000;
    proof {
        vstd::arithmetic::div_mod::lemma_div_is_ordered(z * z as int, 110889, 1000);
        assert(zsq <= 110);
        assert(z * zsq <= 36630) by (nonlinear_arith)
            requires 0 <= z <= 333, 0 <= zsq <= 110;
    }
    let p3: u64 = z * zsq / 1000;
    proof {
        vstd::arithmetic::div_mod::lemma_div_is_ordered(z * zsq as int, 36630, 1000);
        assert(p3 <= 36);
        assert(p3 * zsq <= 3960) by (nonlinear_arith)
            requires 0 <= p3 <= 36, 0 <= zsq <= 110;
    }
    let p5: u64 = p3 * zsq / 1000;
    proof {
        vstd::arithmetic::div_mod::lemma_div_is_ordered(p3 * zsq as int, 3960, 1000);
        assert(p5 <= 3);
        assert(p5 * zsq <= 330) by (nonlinear_arith)
            requires 0 <= p5 <= 3, 0 <= zsq <= 110;
    }
    let p7: u64 = p5 * zsq / 1000;
    proof {
        vstd::arithmetic::div_mod::lemma_div_is_ordered(p5 * zsq as int, 330, 1000);
        assert(p7 <= 0);
    }
    let s: u64 = z + p3 / 3 + p5 / 5 + p7 / 7;
    proof {
        vstd::arithmetic::div_mod::lemma_div_is_ordered(p3 as int, 36, 3);
        vstd::arithmetic::div_mod::lemma_div_is_ordered(p5 as int, 3, 5);
        vstd::arithmetic::div_mod::lemma_div_is_ordered(p7 as int, 0, 7);
        assert(s <= 345);
        assert(k * 693 <= 22176) by (nonlinear_arith)
            requires 0 <= k <= 32;
    }
    let r: u64 = k * 693 + 2 * s;
    proof {
        assert(s == ln_series_spec(a as nat, c as nat));
        assert(r == ln_core_spec(a as nat, b as nat));
    }
    r
}

/// `ln(a / b)` in thousandths, exact in sign: positive, zero or negative
/// exactly as `a` is above, at or below `b`.
pub fn ln_fixed(a: u64, b: u64) -> (r: i64)
    requires
        1 <= a < LN_ARG_LIMIT,
        1 <= b < LN_ARG_LIMIT,
    ensures
        r == ln_fixed_spec(a as nat, b as nat),
        -IDF_LIMIT <= r <= IDF_LIMIT,
        (r > 0) <==> (a > b),
        (r == 0) <==> (a == b),
        (r < 0) <==> (a < b),
{
    if a == b {
        0
    } else if a > b {
        let v = ln_core(a, b);
        if v == 0 {
            1
        } else {
            v as i64
        }
    } else {
        let v = ln_core(b, a);
        if v == 0 {
            -1
        } else {
            -(v as i64)
        }
    }
}

/// The inverse document frequency, in thousandths, of a term that occurs in
/// `df` of `n` documents: `ln(n / (1 + df))` with add-one smoothing.
pub fn idf_milli(n: u64, df: u64) -> (r: i64)
    requires
        1 <= n < LN_ARG_LIMIT,
        df + 1 < LN_ARG_LIMIT,
    ensures
        r == idf_spec(n as nat, df as nat),
        -IDF_LIMIT <= r <= IDF_LIMIT,
        (r > 0) <==> (n > df + 1),
        (r == 0) <==> (n == df + 1),
        (r < 0) <==> (n < df + 1),
{
    ln_fixed(n, df + 1)
}

} // verus!
