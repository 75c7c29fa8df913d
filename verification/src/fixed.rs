//! Q20 fixed-point arithmetic core.
//!
//! A signal value `v` is carried as the integer `v * SCALE` with
//! `SCALE == 2^20`.  All operations truncate toward zero, exactly like the
//! hardware they would run on, and every function states its result as an
//! exact function of its inputs, so the higher layers can reason about the
//! engine sample by sample.

use vstd::arithmetic::div_mod::*;
use vstd::arithmetic::mul::*;
use vstd::arithmetic::power2::*;
use vstd::prelude::*;

verus! {

/// One fixed-point unit: values are carried as `v * SCALE`.
pub const SCALE: i64 = 1048576;

/// Largest magnitude (2^41) accepted by the fixed-point helpers; the product
/// of two such magnitudes divided by `SCALE` still fits an `i64`.
pub const FP_MAX: i64 = 0x200_0000_0000;

pub open spec fn abs_i(a: int) -> int {
    if a < 0 {
        -a
    } else {
        a
    }
}

pub open spec fn min_i(a: int, b: int) -> int {
    if a <= b {
        a
    } else {
        b
    }
}

pub open spec fn max_i(a: int, b: int) -> int {
    if a >= b {
        a
    } else {
        b
    }
}

/// Fixed-point product `a * b / SCALE`, truncated toward zero.
pub open spec fn spec_mul_fp(a: int, b: int) -> int {
    let m = (abs_i(a) * abs_i(b)) / (SCALE as int);
    if (a < 0) != (b < 0) {
        -m
    } else {
        m
    }
}

/// Fixed-point quotient `a * SCALE / b`, truncated toward zero.
pub open spec fn spec_div_fp(a: int, b: int) -> int {
    let m = (abs_i(a) * (SCALE as int)) / abs_i(b);
    if (a < 0) != (b < 0) {
        -m
    } else {
        m
    }
}

pub fn mul_fp(a: i64, b: i64) -> (r: i64)
    requires
        -FP_MAX <= a <= FP_MAX,
        -FP_MAX <= b <= FP_MAX,
    ensures
        r == spec_mul_fp(a as int, b as int),
{
    let neg: bool = (a < 0) != (b < 0);
    let aa: u64 = if a < 0 {
        (-a) as u64
    } else {
        a as u64
    };
    let bb: u64 = if b < 0 {
        (-b) as u64
    } else {
        b as u64
    };
    proof {
        lemma_mul_upper_bound(aa as int, FP_MAX as int, bb as int, FP_MAX as int);
        lemma_mul_nonnegative(aa as int, bb as int);
    }
    let prod: u128 = (aa as u128) * (bb as u128);
    proof {
        lemma_div_is_ordered(prod as int, (FP_MAX * FP_MAX) as int, SCALE as int);
        lemma_div_pos_is_pos(prod as int, SCALE as int);
    }
    let m: u64 = (prod / (SCALE as u128)) as u64;
    if neg {
        -(m as i64)
    } else {
        m as i64
    }
}

pub fn div_fp(a: i64, b: i64) -> (r: i64)
    requires
        -FP_MAX <= a <= FP_MAX,
        -FP_MAX <= b <= FP_MAX,
        b != 0,
    ensures
        r == spec_div_fp(a as int, b as int),
{
    let neg: bool = (a < 0) != (b < 0);
    let aa: u64 = if a < 0 {
        (-a) as u64
    } else {
        a as u64
    };
    let bb: u64 = if b < 0 {
        (-b) as u64
    } else {
        b as u64
    };
    proof {
        lemma_mul_upper_bound(aa as int, FP_MAX as int, SCALE as int, SCALE as int);
        lemma_mul_nonnegative(aa as int, SCALE as int);
    }
    let num: u128 = (aa as u128) * (SCALE as u128);
    proof {
        lemma_div_is_ordered_by_denominator(num as int, 1, bb as int);
        lemma_div_pos_is_pos(num as int, bb as int);
    }
    let m: u64 = (num / (bb as u128)) as u64;
    if neg {
        -(m as i64)
    } else {
        m as i64
    }
}

/// The magnitude of a fixed-point product is bounded by the product of the
/// operand bounds, rescaled.
pub proof fn lemma_mul_fp_range(a: int, b: int, bd_a: int, bd_b: int)
    requires
        abs_i(a) <= bd_a,
        abs_i(b) <= bd_b,
    ensures
        abs_i(spec_mul_fp(a, b)) <= (bd_a * bd_b) / (SCALE as int),
        (a >= 0 && b >= 0) ==> spec_mul_fp(a, b) >= 0,
        (a <= 0 && b >= 0) ==> spec_mul_fp(a, b) <= 0,
        (a >= 0 && b <= 0) ==> spec_mul_fp(a, b) <= 0,
{
    lemma_mul_upper_bound(abs_i(a), bd_a, abs_i(b), bd_b);
    lemma_div_is_ordered(abs_i(a) * abs_i(b), bd_a * bd_b, SCALE as int);
    lemma_div_pos_is_pos(abs_i(a) * abs_i(b), SCALE as int);
    if a == 0 {
        lemma_mul_by_zero_is_zero(abs_i(b));
        lemma_div_of0(SCALE as int);
    } else if b == 0 {
        lemma_mul_by_zero_is_zero(abs_i(a));
        lemma_div_of0(SCALE as int);
    }
}

/// The sign of a fixed-point product follows the signs of its operands.
pub proof fn lemma_mul_fp_sign(a: int, b: int)
    ensures
        (a >= 0 && b >= 0) ==> spec_mul_fp(a, b) >= 0,
        (a <= 0 && b >= 0) ==> spec_mul_fp(a, b) <= 0,
        (a >= 0 && b <= 0) ==> spec_mul_fp(a, b) <= 0,
        (a <= 0 && b <= 0) ==> spec_mul_fp(a, b) >= 0,
{
    lemma_mul_nonnegative(abs_i(a), abs_i(b));
    lemma_div_pos_is_pos(abs_i(a) * abs_i(b), SCALE as int);
    if a == 0 {
        lemma_mul_by_zero_is_zero(abs_i(b));
        lemma_div_of0(SCALE as int);
    } else if b == 0 {
        lemma_mul_by_zero_is_zero(abs_i(a));
        lemma_div_of0(SCALE as int);
    }
}

/// Multiplying by a factor in `[0, SCALE]` cannot grow a value's magnitude,
/// keeps its sign, and shrinks it in exact proportion to the factor.
pub proof fn lemma_mul_fp_shrinks(c: int, d: int)
    requires
        0 <= c <= SCALE,
    ensures
        abs_i(spec_mul_fp(c, d)) <= abs_i(d),
        d >= 0 ==> 0 <= spec_mul_fp(c, d) <= d,
        d <= 0 ==> d <= spec_mul_fp(c, d) <= 0,
        (SCALE as int) * abs_i(spec_mul_fp(c, d)) <= c * abs_i(d),
{
    let da = abs_i(d);
    let m = (c * da) / (SCALE as int);
    lemma_mul_inequality(c, SCALE as int, da);
    lemma_div_is_ordered(c * da, (SCALE as int) * da, SCALE as int);
    lemma_div_multiples_vanish(da, SCALE as int);
    lemma_div_pos_is_pos(c * da, SCALE as int);
    lemma_fundamental_div_mod(c * da, SCALE as int);
    lemma_mul_nonnegative(c, da);
}

/// Fixed-point multiplication is monotone when all operands are nonnegative.
pub proof fn lemma_mul_fp_mono_nonneg(a1: int, a2: int, b1: int, b2: int)
    requires
        0 <= a1 <= a2,
        0 <= b1 <= b2,
    ensures
        0 <= spec_mul_fp(a1, b1) <= spec_mul_fp(a2, b2),
{
    lemma_mul_upper_bound(a1, a2, b1, b2);
    lemma_div_is_ordered(a1 * b1, a2 * b2, SCALE as int);
    lemma_div_pos_is_pos(a1 * b1, SCALE as int);
    lemma_mul_nonnegative(a1, b1);
}

/// Cubic coefficients for `2^t` on `t` in `[0, 1)`; they sum to exactly
/// `SCALE`, so the polynomial meets `2` exactly at `t == 1`.
pub const EXP2_A1: i64 = 729784;

pub const EXP2_A2: i64 = 235399;

pub const EXP2_A3: i64 = 83393;

/// Largest exponent (in octaves, Q20) accepted by `exp2_fp`.
pub const EXP2_IN_MAX: i64 = 41943040;

/// Most negative exponent accepted by `exp2_fp` (2^45 units, about -2^25
/// octaves; anything below a few dozen octaves underflows to zero anyway).
pub const EXP2_IN_MIN: i64 = -0x2000_0000_0000;

/// `2^(f / SCALE) * SCALE` for the fractional part `f` in `[0, SCALE)`,
/// as the cubic polynomial `1 + t*(a1 + t*(a2 + t*a3))` evaluated in Q20.
pub open spec fn spec_exp2_frac(f: int) -> int {
    (SCALE as int) + (f * ((EXP2_A1 as int) + (f * ((EXP2_A2 as int) + (f * (EXP2_A3 as int)) / (
    SCALE as int))) / (SCALE as int))) / (SCALE as int)
}

/// `2^(x / SCALE) * SCALE`: split `x` into integer octaves and a fractional
/// part, evaluate the fractional polynomial, then shift by the octave count.
pub open spec fn spec_exp2_fp(x: int) -> int {
    let n = x / (SCALE as int);
    let f = x % (SCALE as int);
    let p = spec_exp2_frac(f);
    if n >= 0 {
        p * (pow2(n as nat) as int)
    } else {
        p / (pow2((-n) as nat) as int)
    }
}

/// The fractional polynomial stays within one octave: its value lies in
/// `[SCALE, 2 * SCALE - 3]`, and is exactly `SCALE` at `f == 0`.
pub proof fn lemma_exp2_frac_bounds(f: int)
    requires
        0 <= f < SCALE,
    ensures
        SCALE <= spec_exp2_frac(f) <= 2 * SCALE - 3,
        f == 0 ==> spec_exp2_frac(f) == SCALE,
{
    let s = SCALE as int;
    let t3 = (f * (EXP2_A3 as int)) / s;
    lemma_mul_nonnegative(f, EXP2_A3 as int);
    lemma_div_pos_is_pos(f * (EXP2_A3 as int), s);
    lemma_mul_inequality(f, s - 1, EXP2_A3 as int);
    lemma_div_is_ordered(f * (EXP2_A3 as int), (s - 1) * (EXP2_A3 as int), s);
    assert(((s - 1) * (EXP2_A3 as int)) / s == (EXP2_A3 as int) - 1);
    let i2 = (EXP2_A2 as int) + t3;
    let t2 = (f * i2) / s;
    lemma_mul_nonnegative(f, i2);
    lemma_div_pos_is_pos(f * i2, s);
    lemma_mul_upper_bound(f, s - 1, i2, (EXP2_A2 as int) + (EXP2_A3 as int) - 1);
    lemma_div_is_ordered(f * i2, (s - 1) * ((EXP2_A2 as int) + (EXP2_A3 as int) - 1), s);
    assert(((s - 1) * ((EXP2_A2 as int) + (EXP2_A3 as int) - 1)) / s == (EXP2_A2 as int) + (
    EXP2_A3 as int) - 2);
    let i1 = (EXP2_A1 as int) + t2;
    let t1 = (f * i1) / s;
    lemma_mul_nonnegative(f, i1);
    lemma_div_pos_is_pos(f * i1, s);
    lemma_mul_upper_bound(f, s - 1, i1, s - 2);
    lemma_div_is_ordered(f * i1, (s - 1) * (s - 2), s);
    assert(((s - 1) * (s - 2)) / s == s - 3);
    if f == 0 {
        lemma_mul_by_zero_is_zero(EXP2_A3 as int);
        lemma_div_of0(s);
        lemma_mul_by_zero_is_zero(i2);
        lemma_mul_by_zero_is_zero(i1);
    }
}

/// Fixed-point base-2 exponential, `2^(x / SCALE) * SCALE`, truncated.
pub fn exp2_fp(x: i64) -> (r: i64)
    requires
        EXP2_IN_MIN <= x <= EXP2_IN_MAX,
    ensures
        r == spec_exp2_fp(x as int),
        0 <= r,
        x < 0 ==> r < SCALE,
        x == 0 ==> r == SCALE,
        x >= 0 ==> SCALE <= r,
        x >= 0 ==> r <= 2 * (SCALE as int) * (pow2((x as int / (SCALE as int)) as nat) as int),
        r <= 0x4000_0000_0000_0000,
{
    let s64: u64 = SCALE as u64;
    let ghost xi = x as int;
    let ghost s = SCALE as int;

    // Split x into integer octaves nn (floor) and fractional part ff in [0, S).
    let nn: i64;
    let ff: i64;
    if x >= 0 {
        let xu: u64 = x as u64;
        let q: u64 = xu / s64;
        let rem: u64 = xu % s64;
        nn = q as i64;
        ff = rem as i64;
        proof {
            lemma_fundamental_div_mod(xu as int, s);
            lemma_fundamental_div_mod_converse_div(xi, s, nn as int, ff as int);
            lemma_fundamental_div_mod_converse_mod(xi, s, nn as int, ff as int);
        }
    } else {
        let y: u64 = (-x) as u64;
        let q: u64 = y / s64;
        let rem: u64 = y % s64;
        if rem == 0 {
            nn = -(q as i64);
            ff = 0;
        } else {
            nn = -(q as i64) - 1;
            ff = (s64 - rem) as i64;
        }
        proof {
            lemma_fundamental_div_mod(y as int, s);
            lemma_fundamental_div_mod_converse_div(xi, s, nn as int, ff as int);
            lemma_fundamental_div_mod_converse_mod(xi, s, nn as int, ff as int);
        }
    }
    assert(nn == xi / s && ff == xi % s);
    assert(0 <= ff < SCALE);
    assert(-0x2000000 <= nn <= 40);

    // Fractional polynomial, all operands nonnegative and far below overflow.
    let fu: u64 = ff as u64;
    proof {
        lemma_mul_upper_bound(fu as int, s - 1, EXP2_A3 as int, EXP2_A3 as int);
    }
    let t3: u64 = (fu * (EXP2_A3 as u64)) / s64;
    proof {
        lemma_div_pos_is_pos(fu as int * (EXP2_A3 as int), s);
        lemma_div_is_ordered(fu as int * (EXP2_A3 as int), (s - 1) * (EXP2_A3 as int), s);
        assert(((s - 1) * (EXP2_A3 as int)) / s == (EXP2_A3 as int) - 1);
        lemma_mul_upper_bound(fu as int, s - 1, (EXP2_A2 as int) + t3, 318791);
    }
    let t2: u64 = (fu * ((EXP2_A2 as u64) + t3)) / s64;
    proof {
        lemma_div_pos_is_pos(fu as int * ((EXP2_A2 as int) + t3), s);
        lemma_div_is_ordered(fu as int * ((EXP2_A2 as int) + t3), (s - 1) * 318791, s);
        assert(((s - 1) * 318791int) / s == 318790int);
        lemma_mul_upper_bound(fu as int, s - 1, (EXP2_A1 as int) + t2, s - 2);
    }
    let p: u64 = s64 + (fu * ((EXP2_A1 as u64) + t2)) / s64;
    proof {
        lemma_div_pos_is_pos(fu as int * ((EXP2_A1 as int) + t2), s);
        lemma_exp2_frac_bounds(ff as int);
        assert(p == spec_exp2_frac(xi % s));
        assert(SCALE <= p <= 2 * SCALE - 3);
    }

    if nn >= 0 {
        // Shift the polynomial value up by nn octaves.
        let nu: u64 = nn as u64;
        let mut r: u64 = p;
        let mut i: u64 = 0;
        proof {
            lemma2_to64();
        }
        while i < nu
            invariant
                0 <= i <= nu <= 40,
                SCALE <= p <= 2 * SCALE - 3,
                r == p * (pow2(i as nat) as int),
            decreases nu - i,
        {
            proof {
                lemma_pow2_pos(i as nat);
                lemma_pow2_unfold((i + 1) as nat);
                lemma_pow2_strictly_increases(i as nat, 40);
                lemma2_to64_rest();
                lemma_mul_upper_bound(p as int, 2 * (SCALE as int), pow2(i as nat) as int, pow2(40) as int);
                lemma_mul_is_associative(2, p as int, pow2(i as nat) as int);
                lemma_mul_is_commutative(2, p as int);
                lemma_mul_is_associative(p as int, 2, pow2(i as nat) as int);
            }
            r = r * 2;
            i = i + 1;
        }
        proof {
            lemma_pow2_pos(nu as nat);
            lemma_mul_inequality(SCALE as int, p as int, pow2(nu as nat) as int);
            lemma_mul_inequality(p as int, 2 * (SCALE as int), pow2(nu as nat) as int);
            lemma2_to64_rest();
            if nu < 40 {
                lemma_pow2_strictly_increases(nu as nat, 40);
            }
            lemma_mul_upper_bound(p as int, 2 * (SCALE as int), pow2(nu as nat) as int, pow2(
            40) as int);
            if x == 0 {
                assert(pow2(0) == 1) by {
                    lemma2_to64();
                }
            }
            assert(SCALE as int <= (SCALE as int) * (pow2(nu as nat) as int)) by {
                lemma_pow2_pos(nu as nat);
                lemma_mul_ordering(SCALE as int, pow2(nu as nat) as int);
            }
        }
        r as i64
    } else {
        // Shift the polynomial value down; below 21 octaves everything
        // truncates to zero because p < 2^21.
        let m: u64 = (-nn) as u64;
        proof {
            lemma2_to64();
        }
        if m >= 21 {
            proof {
                if m > 21 {
                    lemma_pow2_strictly_increases(21, m as nat);
                }
                lemma_basic_div(p as int, pow2(m as nat) as int);
            }
            0
        } else {
            let mut r: u64 = p;
            let mut i: u64 = 0;
            while i < m
                invariant
                    0 <= i <= m <= 20,
                    SCALE <= p <= 2 * SCALE - 3,
                    r == p as int / (pow2(i as nat) as int),
                decreases m - i,
            {
                proof {
                    lemma_pow2_pos(i as nat);
                    lemma_pow2_unfold((i + 1) as nat);
                    lemma_div_denominator(p as int, pow2(i as nat) as int, 2);
                    lemma_mul_is_commutative(pow2(i as nat) as int, 2);
                    lemma_div_pos_is_pos(p as int, pow2(i as nat) as int);
                }
                r = r / 2;
                i = i + 1;
            }
            proof {
                lemma_pow2_pos(m as nat);
                lemma_div_pos_is_pos(p as int, pow2(m as nat) as int);
                assert(pow2(1) == 2) by {
                    lemma2_to64();
                }
                if m >= 1 {
                    lemma_div_is_ordered_by_denominator(p as int, 2, pow2(m as nat) as int);
                    if m > 1 {
                        lemma_pow2_strictly_increases(1, m as nat);
                    }
                    lemma_div_is_ordered((p as int), 2 * (SCALE as int) - 3, 2);
                }
            }
            r as i64
        }
    }
}

/// Normalization of the logarithm argument, upper side: halve until the
/// mantissa falls below two units.
pub open spec fn spec_log2_shrink(m: int) -> int
    decreases m,
{
    if m >= 2 * SCALE {
        spec_log2_shrink(m / 2)
    } else {
        m
    }
}

/// Number of halvings `spec_log2_shrink` performs.
pub open spec fn spec_log2_shrink_n(m: int) -> nat
    decreases m,
{
    if m >= 2 * SCALE {
        1 + spec_log2_shrink_n(m / 2)
    } else {
        0
    }
}

/// Normalization, lower side: double until the mantissa reaches one unit.
pub open spec fn spec_log2_grow(m: int) -> int
    decreases 2 * SCALE - m,
{
    if 1 <= m && m < SCALE {
        spec_log2_grow(2 * m)
    } else {
        m
    }
}

/// Number of doublings `spec_log2_grow` performs.
pub open spec fn spec_log2_grow_n(m: int) -> nat
    decreases 2 * SCALE - m,
{
    if 1 <= m && m < SCALE {
        1 + spec_log2_grow_n(2 * m)
    } else {
        0
    }
}

/// `k` binary fraction bits of `log2(m / SCALE)` for a mantissa `m` in
/// `[SCALE, 2 * SCALE)`, by repeated squaring.
pub open spec fn spec_log2_frac(m: int, k: nat) -> int
    decreases k,
{
    if k == 0 {
        0
    } else {
        let m2 = (m * m) / (SCALE as int);
        if m2 >= 2 * SCALE {
            pow2((k - 1) as nat) + spec_log2_frac(m2 / 2, (k - 1) as nat)
        } else {
            spec_log2_frac(m2, (k - 1) as nat)
        }
    }
}

/// `log2(g / SCALE) * SCALE`, truncated: integer octaves from the
/// normalization, twenty fraction bits from repeated squaring.
pub open spec fn spec_log2_fp(g: int) -> int {
    let m1 = spec_log2_shrink(g);
    let m2 = spec_log2_grow(m1);
    let n = spec_log2_shrink_n(g) - spec_log2_grow_n(m1);
    n * (SCALE as int) + spec_log2_frac(m2, 20)
}

/// Fixed-point base-2 logarithm of a positive value.
pub fn log2_fp(g: i64) -> (r: i64)
    requires
        1 <= g <= FP_MAX,
    ensures
        r == spec_log2_fp(g as int),
        -20 * SCALE <= r < 22 * SCALE,
        g == SCALE ==> r == 0,
        g >= SCALE ==> r >= 0,
        g < SCALE ==> r < 0,
        g >= SCALE ==> (SCALE as int) * (pow2((r as int / (SCALE as int)) as nat) as int) <= g,
{
    let ghost gi = g as int;
    let mut m: u64 = g as u64;
    let mut sh: u64 = 0;
    proof {
        lemma2_to64();
        lemma_mul_basics(m as int);
    }
    while m >= 2 * (SCALE as u64)
        invariant
            1 <= gi <= FP_MAX,
            1 <= m <= FP_MAX,
            0 <= sh <= 21,
            spec_log2_shrink(m as int) == spec_log2_shrink(gi),
            sh + spec_log2_shrink_n(m as int) == spec_log2_shrink_n(gi),
            (m as int) * (pow2(sh as nat) as int) <= gi,
            sh > 0 ==> m >= SCALE,
            sh == 0 ==> m == gi,
        decreases m,
    {
        proof {
            let pk = pow2(sh as nat) as int;
            lemma_pow2_pos(sh as nat);
            lemma_pow2_unfold((sh + 1) as nat);
            lemma_fundamental_div_mod(m as int, 2);
            // (m / 2) * pow2(sh + 1) <= m * pow2(sh) because 2 * (m / 2) <= m
            assert(((m as int) / 2) * (2 * pk) <= (m as int) * pk) by (nonlinear_arith)
                requires
                    pk > 0,
                    2 * ((m as int) / 2) <= m as int,
            ;
            // A 22nd halving is impossible: m * pow2(sh) would then exceed
            // FP_MAX, against the invariant tying it to the argument.
            if sh >= 21 {
                assert(pow2(21) == 0x200000) by {
                    lemma2_to64();
                }
                assert((m as int) * pk >= 2097152 * 2097152) by (nonlinear_arith)
                    requires
                        m as int >= 2097152,
                        pk >= 2097152,
                ;
                assert(false);
            }
        }
        m = m / 2;
        sh = sh + 1;
    }
    let ghost m1 = m as int;
    proof {
        assert(spec_log2_shrink(gi) == m1);
        assert(spec_log2_shrink_n(gi) == sh);
    }
    let mut gr: u64 = 0;
    while m < (SCALE as u64)
        invariant
            1 <= m < 2 * SCALE,
            0 <= gr <= 20,
            spec_log2_grow(m as int) == spec_log2_grow(m1),
            gr + spec_log2_grow_n(m as int) == spec_log2_grow_n(m1),
            m as int >= pow2(gr as nat),
            gr == 0 ==> m == m1,
            gi == SCALE ==> (m == SCALE && gr == 0),
        decreases 2 * SCALE as int - m,
    {
        proof {
            lemma_pow2_pos(gr as nat);
            lemma_pow2_unfold((gr + 1) as nat);
            if gr >= 20 {
                lemma_pow2_strictly_increases(19, gr as nat);
                lemma2_to64();
            }
        }
        m = 2 * m;
        gr = gr + 1;
    }
    let ghost m2 = m as int;
    proof {
        assert(spec_log2_grow(m1) == m2);
        assert(spec_log2_grow_n(m1) == gr);
    }

    // Twenty fraction bits by repeated squaring of the mantissa.
    let mut frac: u64 = 0;
    let mut j: u64 = 0;
    proof {
        lemma2_to64();
    }
    while j < 20
        invariant
            0 <= j <= 20,
            SCALE <= m < 2 * SCALE,
            0 <= frac < pow2(j as nat),
            frac * (pow2((20 - j) as nat) as int) + spec_log2_frac(m as int, (20 - j) as nat)
                == spec_log2_frac(m2, 20),
            gi == SCALE ==> (m == SCALE && frac == 0),
        decreases 20 - j,
    {
        let ghost mi = m as int;
        let ghost k = (20 - j) as nat;
        let ghost fi = frac as int;
        proof {
            let s = SCALE as int;
            assert(mi * mi <= (2 * s - 1) * (2 * s - 1) && mi * mi >= s * s) by (nonlinear_arith)
                requires
                    s <= mi < 2 * s,
                    s == SCALE as int,
            ;
            lemma_div_is_ordered(s * s, mi * mi, s);
            lemma_div_is_ordered(mi * mi, (2 * s - 1) * (2 * s - 1), s);
            lemma_div_multiples_vanish(s, s);
            assert(((2 * s - 1) * (2 * s - 1)) / s == 4 * s - 4) by (nonlinear_arith)
                requires
                    s == SCALE as int,
            ;
        }
        let msq: u64 = m * m;
        let m2v: u64 = msq / (SCALE as u64);
        proof {
            let s = SCALE as int;
            let pk1 = pow2((k - 1) as nat) as int;
            let pk = pow2(k) as int;
            lemma_pow2_pos((k - 1) as nat);
            lemma_pow2_unfold(k);
            lemma_pow2_unfold((j + 1) as nat);
            lemma_pow2_pos(j as nat);
            lemma_pow2_strictly_increases(j as nat, 20);
            lemma2_to64();
            if m2v >= 2 * (SCALE as u64) {
                assert((2 * fi + 1) * pk1 == fi * pk + pk1) by (nonlinear_arith)
                    requires
                        pk == 2 * pk1,
                ;
            } else {
                assert((2 * fi) * pk1 == fi * pk) by (nonlinear_arith)
                    requires
                        pk == 2 * pk1,
                ;
            }
        }
        if m2v >= 2 * (SCALE as u64) {
            m = m2v / 2;
            frac = 2 * frac + 1;
        } else {
            m = m2v;
            frac = 2 * frac;
        }
        j = j + 1;
    }

    let n: i64 = (sh as i64) - (gr as i64);
    let r: i64 = n * SCALE + (frac as i64);
    proof {
        lemma2_to64();
        lemma2_to64_rest();
        assert(frac < SCALE) by {
            assert(pow2(20) == 0x100000);
        }
        // After twenty bits the fraction accumulator is the whole fraction.
        lemma_mul_basics(frac as int);
        assert(frac == spec_log2_frac(m2, 20));
        assert(r == spec_log2_fp(gi));
        // The quotient r / SCALE recovers the octave count n.
        lemma_fundamental_div_mod_converse_div(r as int, SCALE as int, n as int, frac as int);
        if g >= SCALE {
            // Either no doubling happened (n == sh) or g was already in
            // [SCALE, 2 * SCALE) and both counters are zero.
            assert(gr == 0);
            lemma_pow2_pos(sh as nat);
            lemma_mul_inequality(SCALE as int, m1, pow2(sh as nat) as int);
            lemma_mul_is_commutative(SCALE as int, pow2(sh as nat) as int);
            lemma_mul_is_commutative(m1, pow2(sh as nat) as int);
        }
        if g < SCALE {
            assert(sh == 0);
            assert(gr >= 1);
        }
    }
    r
}

/// `log2(e)` in Q20, for switching between natural and base-2 exponentials.
pub const LOG2_E_FP: i64 = 1512775;

/// `log2(10) / 20` in Q20: octaves per decibel.
pub const OCT_PER_DB: i64 = 174165;

/// `20 * log10(2)` in Q20: decibels per octave.
pub const DB_PER_OCT: i64 = 6313057;

/// Saturation cutoff for `tanh_fp`: beyond eight units the curve is within
/// one Q20 step of its asymptote, so the result is pinned to one unit.
pub const TANH_SAT_IN: i64 = 8388608;

/// `tanh(xa / SCALE) * SCALE` for nonnegative `xa`, through
/// `1 - 2 / (e^(2 xa) + 1)`.
pub open spec fn spec_tanh_mag(xa: int) -> int {
    if xa >= TANH_SAT_IN {
        SCALE as int
    } else {
        let t = spec_exp2_fp(spec_mul_fp(2 * xa, LOG2_E_FP as int));
        (SCALE as int) - (2 * (SCALE as int) * (SCALE as int)) / (t + (SCALE as int))
    }
}

/// `tanh(x / SCALE) * SCALE`; odd by construction.
pub open spec fn spec_tanh_fp(x: int) -> int {
    if x < 0 {
        -spec_tanh_mag(-x)
    } else {
        spec_tanh_mag(x)
    }
}

/// Fixed-point hyperbolic tangent; always within one unit.
pub fn tanh_fp(x: i64) -> (r: i64)
    requires
        -FP_MAX <= x <= FP_MAX,
    ensures
        r == spec_tanh_fp(x as int),
        -SCALE <= r <= SCALE,
        x == 0 ==> r == 0,
        x >= 0 ==> r >= 0,
        x <= 0 ==> r <= 0,
{
    let xa: i64 = if x < 0 {
        -x
    } else {
        x
    };
    let mag: i64;
    if xa >= TANH_SAT_IN {
        mag = SCALE;
    } else {
        proof {
            lemma_mul_fp_range(2 * (xa as int), LOG2_E_FP as int, 2 * (TANH_SAT_IN as int),
            LOG2_E_FP as int);
        }
        let oct: i64 = mul_fp(2 * xa, LOG2_E_FP);
        let t: i64 = exp2_fp(oct);
        let num: u64 = 2 * (SCALE as u64) * (SCALE as u64);
        let den: u64 = (t as u64) + (SCALE as u64);
        proof {
            lemma_div_pos_is_pos(num as int, den as int);
            lemma_div_is_ordered_by_denominator(num as int, 2 * (SCALE as int), den as int);
            lemma_div_multiples_vanish(SCALE as int, 2 * (SCALE as int));
        }
        let q: u64 = num / den;
        mag = SCALE - (q as i64);
        proof {
            if xa == 0 {
                assert(oct == 0);
            }
        }
    }
    if x < 0 {
        -mag
    } else {
        mag
    }
}

/// `10^(db / (20 * SCALE)) * SCALE`: decibels to a linear gain factor.  The
/// octave argument is clamped to the exponential's domain, a pure overflow
/// guard far outside any audible gain.
pub open spec fn spec_db_to_gain_fp(db: int) -> int {
    let oct = spec_mul_fp(db, OCT_PER_DB as int);
    let c = if oct > EXP2_IN_MAX {
        EXP2_IN_MAX as int
    } else if oct < EXP2_IN_MIN {
        EXP2_IN_MIN as int
    } else {
        oct
    };
    spec_exp2_fp(c)
}

/// Fixed-point decibel-to-gain conversion.
pub fn db_to_gain_fp(db: i64) -> (r: i64)
    requires
        -FP_MAX <= db <= FP_MAX,
    ensures
        r == spec_db_to_gain_fp(db as int),
        0 <= r <= 0x4000_0000_0000_0000,
        db <= 0 ==> r <= SCALE,
        db == 0 ==> r == SCALE,
        0 <= db < 31 * SCALE ==> r <= 64 * SCALE,
        0 <= db <= 12 * SCALE ==> r <= 4 * SCALE,
{
    proof {
        lemma_mul_fp_range(db as int, OCT_PER_DB as int, FP_MAX as int, OCT_PER_DB as int);
    }
    let oct: i64 = mul_fp(db, OCT_PER_DB);
    let c: i64 = if oct > EXP2_IN_MAX {
        EXP2_IN_MAX
    } else if oct < EXP2_IN_MIN {
        EXP2_IN_MIN
    } else {
        oct
    };
    let r: i64 = exp2_fp(c);
    proof {
        lemma2_to64();
        if db >= 0 {
            if db < 31 * SCALE {
                lemma_mul_fp_range(db as int, OCT_PER_DB as int, 31 * (SCALE as int),
                OCT_PER_DB as int);
                lemma_div_is_ordered(c as int, 5399115, SCALE as int);
                assert(c as int / (SCALE as int) <= 5);
                if (c as int / (SCALE as int)) < 5 {
                    lemma_pow2_strictly_increases((c as int / (SCALE as int)) as nat, 5);
                }
            }
            if db <= 12 * SCALE {
                lemma_mul_fp_range(db as int, OCT_PER_DB as int, 12 * (SCALE as int),
                OCT_PER_DB as int);
                lemma_div_is_ordered(c as int, 2089980, SCALE as int);
                assert(c as int / (SCALE as int) <= 1);
                if (c as int / (SCALE as int)) < 1 {
                    lemma_pow2_strictly_increases((c as int / (SCALE as int)) as nat, 1);
                }
            }
        }
    }
    r
}

/// `20 * log10(g / SCALE) * SCALE`: a linear gain factor to decibels.
/// Values below one Q20 step are floored to one step before the logarithm,
/// so a silent sample maps to about -120.4 dB instead of a negative-infinity
/// hazard.
pub open spec fn spec_gain_to_db_fp(g: int) -> int {
    let gf = if g < 1 {
        1
    } else {
        g
    };
    spec_mul_fp(spec_log2_fp(gf), DB_PER_OCT as int)
}

/// Fixed-point gain-to-decibel conversion.
pub fn gain_to_db_fp(g: i64) -> (r: i64)
    requires
        -FP_MAX <= g <= FP_MAX,
    ensures
        r == spec_gain_to_db_fp(g as int),
        -121 * SCALE <= r < 133 * SCALE,
        g == SCALE ==> r == 0,
        g >= SCALE ==> r >= 0,
        g < 32 * SCALE ==> r < 31 * SCALE,
        g <= 8 * SCALE ==> r < 25 * SCALE,
{
    let gf: i64 = if g < 1 {
        1
    } else {
        g
    };
    let l: i64 = log2_fp(gf);
    proof {
        lemma_mul_fp_range(l as int, DB_PER_OCT as int, 22 * (SCALE as int) - 1, DB_PER_OCT as int);
        lemma2_to64();
        let s = SCALE as int;
        if gf >= SCALE {
            // l / SCALE octaves of headroom translate into a dB ceiling.
            let n = (l as int) / s;
            lemma_div_pos_is_pos(l as int, s);
            if gf < 32 * SCALE {
                if n >= 5 {
                    if n > 5 {
                        lemma_pow2_strictly_increases(5, n as nat);
                    }
                    lemma_pow2_pos(n as nat);
                    assert((SCALE as int) * (pow2(n as nat) as int) >= s * 32) by (nonlinear_arith)
                        requires
                            pow2(n as nat) as int >= 32,
                            s == SCALE as int,
                    ;
                }
                assert(n <= 4);
                lemma_fundamental_div_mod(l as int, s);
                lemma_mod_division_less_than_divisor(l as int, s);
                assert(l as int <= 5 * s - 1);
                lemma_mul_fp_range(l as int, DB_PER_OCT as int, 5 * s - 1, DB_PER_OCT as int);
            }
            if gf <= 8 * SCALE {
                let nn = (l as int) / s;
                if nn >= 4 {
                    if nn > 4 {
                        lemma_pow2_strictly_increases(4, nn as nat);
                    }
                    lemma_pow2_pos(nn as nat);
                    assert((SCALE as int) * (pow2(nn as nat) as int) >= s * 16) by (nonlinear_arith)
                        requires
                            pow2(nn as nat) as int >= 16,
                            s == SCALE as int,
                    ;
                }
                assert(nn <= 3);
                lemma_fundamental_div_mod(l as int, s);
                lemma_mod_division_less_than_divisor(l as int, s);
                assert(l as int <= 4 * s - 1);
                lemma_mul_fp_range(l as int, DB_PER_OCT as int, 4 * s - 1, DB_PER_OCT as int);
            }
        } else {
            // gf below one unit: the logarithm is negative, so the dB value
            // is nonpositive and the upper bounds hold at once.
            lemma_mul_fp_range(l as int, DB_PER_OCT as int, 20 * s, DB_PER_OCT as int);
        }
    }
    mul_fp(l, DB_PER_OCT)
}

/// Denominator cap for the one-pole coefficient inputs (2^40).
pub const COEFF_DP_MAX: i64 = 0x100_0000_0000;

/// The engine's one-pole smoothing coefficient,
/// `(1 - e^(-10 / dp)) ^ (1000 / sr)` in Q20, computed as
/// `exp2((1000 / sr) * log2(1 - exp2(-10 * log2(e) / dp)))`.
/// `dp` is the product of a time constant and the sample rate (the decay
/// denominator); `sr` is the sample rate in hertz.  A degenerate base is
/// floored to one Q20 step before the logarithm.
pub open spec fn spec_one_pole_coeff(dp: int, sr: int) -> int {
    let a = -((10 * (SCALE as int)) / dp);
    let e = spec_exp2_fp(spec_mul_fp(a, LOG2_E_FP as int));
    let base_raw = (SCALE as int) - e;
    let base = if base_raw < 1 {
        1
    } else {
        base_raw
    };
    let l = spec_log2_fp(base);
    let ec = (1000 * (SCALE as int)) / sr;
    spec_exp2_fp(spec_mul_fp(ec, l))
}

/// Executable one-pole coefficient; always within `[0, SCALE]`.
pub fn one_pole_coeff(dp: i64, sr: i64) -> (r: i64)
    requires
        1 <= dp <= COEFF_DP_MAX,
        1 <= sr <= 1000000,
    ensures
        r == spec_one_pole_coeff(dp as int, sr as int),
        0 <= r <= SCALE,
{
    let an: u64 = (10 * (SCALE as u64)) / (dp as u64);
    proof {
        lemma_div_pos_is_pos(10 * (SCALE as int), dp as int);
        lemma_div_nonincreasing(10 * (SCALE as int), dp as int);
    }
    let a: i64 = -(an as i64);
    proof {
        lemma_mul_fp_range(a as int, LOG2_E_FP as int, 10 * (SCALE as int), LOG2_E_FP as int);
    }
    let e: i64 = exp2_fp(mul_fp(a, LOG2_E_FP));
    let base_raw: i64 = SCALE - e;
    let base: i64 = if base_raw < 1 {
        1
    } else {
        base_raw
    };
    let l: i64 = log2_fp(base);
    let ec: i64 = ((1000 * (SCALE as u64)) / (sr as u64)) as i64;
    proof {
        lemma_div_pos_is_pos(1000 * (SCALE as int), sr as int);
        lemma_div_nonincreasing(1000 * (SCALE as int), sr as int);
        lemma_mul_fp_range(ec as int, l as int, 1000 * (SCALE as int), 20 * (SCALE as int));
    }
    let oct: i64 = mul_fp(ec, l);
    exp2_fp(oct)
}

/// The exponential is never negative.
pub proof fn lemma_exp2_nonneg(x: int)
    ensures
        spec_exp2_fp(x) >= 0,
{
    let s = SCALE as int;
    let n = x / s;
    let f = x % s;
    lemma_mod_division_less_than_divisor(x, s);
    lemma_exp2_frac_bounds(f);
    let p = spec_exp2_frac(f);
    if n >= 0 {
        lemma_pow2_pos(n as nat);
        lemma_mul_nonnegative(p, pow2(n as nat) as int);
    } else {
        lemma_pow2_pos((-n) as nat);
        lemma_div_pos_is_pos(p, pow2((-n) as nat) as int);
    }
}

/// For a nonpositive exponent the exponential stays within one unit, and is
/// exactly one unit at zero.
pub proof fn lemma_exp2_le_scale(x: int)
    requires
        x <= 0,
    ensures
        0 <= spec_exp2_fp(x) <= SCALE,
        x == 0 ==> spec_exp2_fp(x) == SCALE,
{
    lemma_exp2_nonneg(x);
    let s = SCALE as int;
    let n = x / s;
    let f = x % s;
    lemma_mod_division_less_than_divisor(x, s);
    lemma_exp2_frac_bounds(f);
    let p = spec_exp2_frac(f);
    if x == 0 {
        lemma_basic_div(0, s);
        lemma_small_mod(0, s as nat);
        assert(pow2(0) == 1) by {
            lemma2_to64();
        }
        lemma_mul_basics(p);
    } else {
        // x < 0: at least one halving, so the value is at most p / 2.
        lemma_div_is_ordered(x, -1, s);
        assert((-1) / s == -1) by {
            lemma_fundamental_div_mod_converse_div(-1, s, -1, s - 1);
        }
        let m = (-n) as nat;
        assert(pow2(1) == 2) by {
            lemma2_to64();
        }
        if m > 1 {
            lemma_pow2_strictly_increases(1, m);
        }
        lemma_div_is_ordered_by_denominator(p, 2, pow2(m) as int);
        lemma_div_is_ordered(p, 2 * s - 3, 2);
    }
}

/// The linear gain factor of a dB value is never negative.
pub proof fn lemma_db_to_gain_nonneg(db: int)
    ensures
        spec_db_to_gain_fp(db) >= 0,
{
    let oct = spec_mul_fp(db, OCT_PER_DB as int);
    let c = if oct > EXP2_IN_MAX {
        EXP2_IN_MAX as int
    } else if oct < EXP2_IN_MIN {
        EXP2_IN_MIN as int
    } else {
        oct
    };
    lemma_exp2_nonneg(c);
}

/// The fraction bits of the logarithm stay below `pow2(k)` for a normalized
/// mantissa.
pub proof fn lemma_log2_frac_bounds(m: int, k: nat)
    requires
        SCALE <= m < 2 * SCALE,
    ensures
        0 <= spec_log2_frac(m, k) < pow2(k),
    decreases k,
{
    let s = SCALE as int;
    lemma_pow2_pos(k);
    if k > 0 {
        assert(m * m <= (2 * s - 1) * (2 * s - 1) && m * m >= s * s) by (nonlinear_arith)
            requires
                s <= m < 2 * s,
                s == SCALE as int,
        ;
        lemma_div_is_ordered(s * s, m * m, s);
        lemma_div_is_ordered(m * m, (2 * s - 1) * (2 * s - 1), s);
        lemma_div_multiples_vanish(s, s);
        assert(((2 * s - 1) * (2 * s - 1)) / s == 4 * s - 4) by (nonlinear_arith)
            requires
                s == SCALE as int,
        ;
        let m2 = (m * m) / s;
        lemma_pow2_unfold(k);
        if m2 >= 2 * s {
            lemma_log2_frac_bounds(m2 / 2, (k - 1) as nat);
        } else {
            lemma_log2_frac_bounds(m2, (k - 1) as nat);
        }
    }
}

/// The fraction bits of a mantissa of exactly one unit are all zero.
pub proof fn lemma_log2_frac_of_scale(k: nat)
    ensures
        spec_log2_frac(SCALE as int, k) == 0,
    decreases k,
{
    let s = SCALE as int;
    if k > 0 {
        lemma_div_multiples_vanish(s, s);
        assert((s * s) / s == s);
        lemma_log2_frac_of_scale((k - 1) as nat);
    }
}

/// The doubling normalization lands in `[SCALE, 2 * SCALE)`.
pub proof fn lemma_log2_grow_range(m: int)
    requires
        1 <= m < 2 * SCALE,
    ensures
        SCALE <= spec_log2_grow(m) < 2 * SCALE,
    decreases 2 * SCALE - m,
{
    if 1 <= m && m < SCALE {
        lemma_log2_grow_range(2 * m);
    }
}

/// The logarithm of a value between one step and one unit is nonpositive,
/// and exactly zero at one unit.
pub proof fn lemma_log2_nonpos(g: int)
    requires
        1 <= g <= SCALE,
    ensures
        spec_log2_fp(g) <= 0,
        g == SCALE ==> spec_log2_fp(g) == 0,
{
    let s = SCALE as int;
    assert(spec_log2_shrink(g) == g);
    assert(spec_log2_shrink_n(g) == 0);
    if g == s {
        assert(spec_log2_grow(g) == g);
        assert(spec_log2_grow_n(g) == 0);
        lemma_log2_frac_of_scale(20);
    } else {
        // g < SCALE: at least one doubling, so the octave count is negative
        // and the fraction bits cannot make up a whole octave.
        assert(spec_log2_grow_n(g) >= 1);
        lemma_log2_grow_range(g);
        lemma_log2_frac_bounds(spec_log2_grow(g), 20);
        assert(pow2(20) == 0x100000) by {
            lemma2_to64();
        }
        let n = 0 - spec_log2_grow_n(g);
        assert(n <= -1);
        lemma_mul_inequality(n, -1, s);
        lemma_mul_is_commutative(n, s);
    }
}

/// The smoothing coefficient is a true fraction: always within `[0, SCALE]`.
pub proof fn lemma_one_pole_coeff_range(dp: int, sr: int)
    requires
        1 <= dp,
        1 <= sr,
    ensures
        0 <= spec_one_pole_coeff(dp, sr) <= SCALE,
{
    let s = SCALE as int;
    let a = -((10 * s) / dp);
    lemma_div_pos_is_pos(10 * s, dp);
    lemma_mul_fp_sign(a, LOG2_E_FP as int);
    let arg = spec_mul_fp(a, LOG2_E_FP as int);
    lemma_exp2_le_scale(arg);
    let e = spec_exp2_fp(arg);
    let base_raw = s - e;
    let base = if base_raw < 1 {
        1
    } else {
        base_raw
    };
    lemma_log2_nonpos(base);
    let l = spec_log2_fp(base);
    let ec = (1000 * s) / sr;
    lemma_div_pos_is_pos(1000 * s, sr);
    lemma_mul_fp_sign(ec, l);
    lemma_exp2_le_scale(spec_mul_fp(ec, l));
}

/// One step of the exponential one-pole smoother: the state moves from
/// `prev` toward `target`, keeping the fraction `coeff / SCALE` of the
/// remaining distance.
pub open spec fn spec_one_pole_step(prev: int, target: int, coeff: int) -> int {
    target + spec_mul_fp(coeff, prev - target)
}

/// Executable one-pole smoothing step (shared by every topology).
pub fn one_pole_step(prev: i64, target: i64, coeff: i64) -> (r: i64)
    requires
        -(FP_MAX / 2) <= prev <= FP_MAX / 2,
        -(FP_MAX / 2) <= target <= FP_MAX / 2,
        0 <= coeff <= SCALE,
    ensures
        r == spec_one_pole_step(prev as int, target as int, coeff as int),
        min_i(prev as int, target as int) <= r <= max_i(prev as int, target as int),
{
    proof {
        lemma_mul_fp_shrinks(coeff as int, prev - target);
    }
    let d: i64 = prev - target;
    target + mul_fp(coeff, d)
}

} // verus!
