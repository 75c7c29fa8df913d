//! The stateless saturation curve bank.
//!
//! Five selectable waveshaping curves, each a pure function of the sample
//! and its baked parameters.  The tape, symmetrical and Chebyshev curves end
//! in a soft clip (or a tanh) and therefore stay within one unit; the golden
//! cubic curve grows without bound above its threshold by design.

use crate::fixed::{
    abs_i,
    db_to_gain_fp,
    div_fp,
    lemma_mul_fp_range,
    lemma_mul_fp_shrinks,
    min_i,
    mul_fp,
    spec_db_to_gain_fp,
    spec_div_fp,
    spec_mul_fp,
    spec_tanh_fp,
    tanh_fp,
    FP_MAX,
    SCALE,
};
use vstd::prelude::*;

verus! {

/// Selects which saturation curve shapes the compressor's output.
#[derive(Clone, Copy, Debug, PartialEq, Eq, Structural)]
#[allow(non_camel_case_types)]
pub enum SaturationModeEnum {
    NONESAT,
    TAPESAT,
    SYMMETRICAL,
    CHEBYSHEV,
    GOLDENCUBIC,
}

/// The golden ratio in Q20.
pub const GOLDEN_RATIO_FP: i64 = 1696632;

/// Chebyshev-style polynomial coefficients (1/6, 1/120, 0.000198413) in Q20.
pub const CHEB_C3: i64 = 174763;

pub const CHEB_C5: i64 = 8738;

pub const CHEB_C6: i64 = 208;

/// Baked drive amounts for the dispatch (0.6, 0.8 and 0.4 in Q20).
pub const DRIVE_TAPE: i64 = 629146;

pub const DRIVE_SYMMETRICAL: i64 = 838861;

pub const DRIVE_CHEBYSHEV: i64 = 419430;

/// The -12 dB output trim applied after the tape curve.
pub const TRIM_DB_TAPE: i64 = -12582912;

/// Largest sample magnitude the curves accept (2^30, far above full scale).
pub const SAT_IN_MAX: i64 = 0x4000_0000;

/// Input cap for the polynomial cores (8 units): an overflow guard that only
/// engages on signals far beyond full scale, where the soft clip saturates
/// anyway.
pub const POLY_IN_MAX: i64 = 8388608;

pub open spec fn sign_i(a: int) -> int {
    if a > 0 {
        1
    } else if a < 0 {
        -1
    } else {
        0
    }
}

/// The soft clip `y / (1 + |y|)` in Q20; always strictly within one unit.
pub open spec fn spec_soft_clip(y: int) -> int {
    spec_div_fp(y, (SCALE as int) + abs_i(y))
}

/// Executable soft clip.
pub fn soft_clip_fp(y: i64) -> (r: i64)
    requires
        -(FP_MAX / 2) <= y <= FP_MAX / 2,
    ensures
        r == spec_soft_clip(y as int),
        -SCALE < r < SCALE,
        y == 0 ==> r == 0,
        y >= 0 ==> r >= 0,
        y <= 0 ==> r <= 0,
{
    let ya: i64 = if y < 0 {
        -y
    } else {
        y
    };
    proof {
        let s = SCALE as int;
        let num = (ya as int) * s;
        let den = s + (ya as int);
        vstd::arithmetic::mul::lemma_mul_nonnegative(ya as int, s);
        vstd::arithmetic::div_mod::lemma_div_pos_is_pos(num, den);
        assert(num < den * s) by (nonlinear_arith)
            requires
                s > 0,
                ya >= 0,
                num == (ya as int) * s,
                den == s + (ya as int),
        ;
        vstd::arithmetic::div_mod::lemma_multiply_divide_lt(num, den, s);
        if y == 0 {
            vstd::arithmetic::mul::lemma_mul_by_zero_is_zero(s);
            vstd::arithmetic::div_mod::lemma_div_of0(den);
        }
    }
    div_fp(y, SCALE + ya)
}

/// Tape-style saturation: a normalized tanh transfer curve, a soft clip and
/// a fixed -12 dB trim.  A vanishing transfer denominator is floored to one
/// Q20 step so the normalization can never divide by zero.
pub open spec fn spec_tape_saturation(input_signal: int, drive: int, threshold: int) -> int {
    let num = spec_tanh_fp(spec_mul_fp(input_signal, drive));
    let den_raw = spec_tanh_fp(spec_mul_fp(threshold, drive));
    let den = if den_raw == 0 {
        1
    } else {
        den_raw
    };
    let y = spec_div_fp(num, den);
    spec_mul_fp(spec_soft_clip(y), spec_db_to_gain_fp(TRIM_DB_TAPE as int))
}

/// Executable tape saturation; bounded to one unit.
pub fn tape_saturation(input_signal: i64, drive: i64, threshold: i64) -> (r: i64)
    requires
        -SAT_IN_MAX <= input_signal <= SAT_IN_MAX,
        0 <= drive <= 2 * SCALE,
        -128 * SCALE <= threshold <= 128 * SCALE,
    ensures
        r == spec_tape_saturation(input_signal as int, drive as int, threshold as int),
        -SCALE <= r <= SCALE,
{
    proof {
        lemma_mul_fp_range(input_signal as int, drive as int, 0x4000_0000, 0x20_0000);
        lemma_mul_fp_range(threshold as int, drive as int, 0x800_0000, 0x20_0000);
    }
    let num: i64 = tanh_fp(mul_fp(input_signal, drive));
    let den_raw: i64 = tanh_fp(mul_fp(threshold, drive));
    let den: i64 = if den_raw == 0 {
        1
    } else {
        den_raw
    };
    proof {
        let s = SCALE as int;
        let m = (abs_i(num as int) * s) / abs_i(den as int);
        vstd::arithmetic::mul::lemma_mul_upper_bound(abs_i(num as int), s, s, s);
        vstd::arithmetic::div_mod::lemma_div_is_ordered_by_denominator(abs_i(num as int) * s, 1,
        abs_i(den as int));
        vstd::arithmetic::div_mod::lemma_div_pos_is_pos(abs_i(num as int) * s, abs_i(den as int));
    }
    let y: i64 = div_fp(num, den);
    let clipped: i64 = soft_clip_fp(y);
    let trim: i64 = db_to_gain_fp(TRIM_DB_TAPE);
    proof {
        lemma_mul_fp_shrinks(trim as int, clipped as int);
    }
    mul_fp(clipped, trim)
}

/// Symmetrical saturation: drive only above the threshold, then a tanh and a
/// normalization by `max(|tanh|, 1)`.
pub open spec fn spec_symmetrical_saturate(sample: int, drive: int, threshold: int) -> int {
    let scaled = if abs_i(sample) < threshold {
        sample
    } else {
        spec_mul_fp(sample, drive)
    };
    let sat = spec_tanh_fp(scaled);
    let m = if abs_i(sat) >= SCALE {
        abs_i(sat)
    } else {
        SCALE as int
    };
    spec_div_fp(sat, m)
}

/// Executable symmetrical saturation; bounded to one unit.
pub fn symmetrical_saturate(sample: i64, drive: i64, threshold: i64) -> (r: i64)
    requires
        -SAT_IN_MAX <= sample <= SAT_IN_MAX,
        0 <= drive <= 2 * SCALE,
        -128 * SCALE <= threshold <= 128 * SCALE,
    ensures
        r == spec_symmetrical_saturate(sample as int, drive as int, threshold as int),
        -SCALE <= r <= SCALE,
{
    let sample_abs: i64 = if sample < 0 {
        -sample
    } else {
        sample
    };
    proof {
        lemma_mul_fp_range(sample as int, drive as int, 0x4000_0000, 0x20_0000);
    }
    let scaled: i64 = if sample_abs < threshold {
        sample
    } else {
        mul_fp(sample, drive)
    };
    let sat: i64 = tanh_fp(scaled);
    let sat_abs: i64 = if sat < 0 {
        -sat
    } else {
        sat
    };
    let m: i64 = if sat_abs >= SCALE {
        sat_abs
    } else {
        SCALE
    };
    proof {
        let s = SCALE as int;
        vstd::arithmetic::mul::lemma_mul_upper_bound(abs_i(sat as int), s, s, s);
        vstd::arithmetic::div_mod::lemma_div_is_ordered(abs_i(sat as int) * s, s * s, m as int);
        vstd::arithmetic::div_mod::lemma_div_is_ordered_by_denominator(s * s, s, m as int);
        vstd::arithmetic::div_mod::lemma_div_multiples_vanish(s, s);
        vstd::arithmetic::div_mod::lemma_div_pos_is_pos(abs_i(sat as int) * s, m as int);
    }
    div_fp(sat, m)
}

/// Chebyshev-style odd-polynomial saturation with a soft-clipped output.
/// The normalized input is capped at eight units: a pure overflow guard for
/// the sixth-power term, beyond the range where the soft clip saturates.
pub open spec fn spec_chebyshev_tape(sample: int, drive: int) -> int {
    let k = spec_div_fp(SCALE as int, (SCALE as int) + drive);
    let x0 = spec_mul_fp(sample, k);
    let x = if x0 > POLY_IN_MAX {
        POLY_IN_MAX as int
    } else if x0 < -POLY_IN_MAX {
        -POLY_IN_MAX as int
    } else {
        x0
    };
    let x2 = spec_mul_fp(x, x);
    let x3 = spec_mul_fp(x, x2);
    let x5 = spec_mul_fp(x3, x2);
    let x6 = spec_mul_fp(x3, x3);
    let y = x - spec_mul_fp(CHEB_C3 as int, x3) + spec_mul_fp(CHEB_C5 as int, x5) - spec_mul_fp(
    CHEB_C6 as int, x6);
    spec_soft_clip(y)
}

/// Executable Chebyshev saturation; bounded to one unit and exactly zero at
/// a zero input (an odd curve through the origin).
pub fn chebyshev_tape(sample: i64, drive: i64) -> (r: i64)
    requires
        -SAT_IN_MAX <= sample <= SAT_IN_MAX,
        0 <= drive <= 2 * SCALE,
    ensures
        r == spec_chebyshev_tape(sample as int, drive as int),
        -SCALE <= r <= SCALE,
        sample == 0 ==> r == 0,
{
    proof {
        let s = SCALE as int;
        vstd::arithmetic::mul::lemma_mul_upper_bound(s, s, s, s);
        vstd::arithmetic::div_mod::lemma_div_is_ordered_by_denominator(s * s, s, s + drive);
        vstd::arithmetic::div_mod::lemma_div_multiples_vanish(s, s);
        vstd::arithmetic::div_mod::lemma_div_pos_is_pos(s * s, s + drive);
    }
    let k: i64 = div_fp(SCALE, SCALE + drive);
    proof {
        lemma_mul_fp_range(sample as int, k as int, 0x4000_0000, 0x10_0000);
        if sample == 0 {
            lemma_mul_fp_range(sample as int, k as int, 0, SCALE as int);
        }
    }
    let x0: i64 = mul_fp(sample, k);
    let x: i64 = if x0 > POLY_IN_MAX {
        POLY_IN_MAX
    } else if x0 < -POLY_IN_MAX {
        -POLY_IN_MAX
    } else {
        x0
    };
    proof {
        lemma_mul_fp_range(x as int, x as int, 0x80_0000, 0x80_0000);
    }
    let x2: i64 = mul_fp(x, x);
    proof {
        lemma_mul_fp_range(x as int, x2 as int, 0x80_0000, 0x400_0000);
    }
    let x3: i64 = mul_fp(x, x2);
    proof {
        lemma_mul_fp_range(x3 as int, x2 as int, 0x20000000, 0x4000000);
        lemma_mul_fp_range(x3 as int, x3 as int, 0x20000000, 0x20000000);
    }
    let x5: i64 = mul_fp(x3, x2);
    let x6: i64 = mul_fp(x3, x3);
    proof {
        lemma_mul_fp_shrinks(CHEB_C3 as int, x3 as int);
        lemma_mul_fp_shrinks(CHEB_C5 as int, x5 as int);
        lemma_mul_fp_shrinks(CHEB_C6 as int, x6 as int);
        if sample == 0 {
            lemma_mul_fp_range(0, 0, 0, 0);
            lemma_mul_fp_range(CHEB_C3 as int, 0, CHEB_C3 as int, 0);
            lemma_mul_fp_range(CHEB_C5 as int, 0, CHEB_C5 as int, 0);
            lemma_mul_fp_range(CHEB_C6 as int, 0, CHEB_C6 as int, 0);
        }
    }
    let y: i64 = x - mul_fp(CHEB_C3, x3) + mul_fp(CHEB_C5, x5) - mul_fp(CHEB_C6, x6);
    soft_clip_fp(y)
}

/// Golden-ratio cubic saturation: below the threshold the sample passes
/// through; above it the excess is cubed, scaled by the threshold times the
/// golden ratio, and grows without bound by design.  The excess is capped at
/// eight units as an overflow guard far outside the audible range.
pub open spec fn spec_golden_cubic(sample: int, threshold: int) -> int {
    let abs_input = abs_i(sample);
    if abs_input > threshold {
        let excess0 = abs_input - threshold;
        let excess = min_i(excess0, POLY_IN_MAX as int);
        let cube = spec_mul_fp(excess, spec_mul_fp(excess, excess));
        let shaped = spec_mul_fp(spec_mul_fp(threshold, GOLDEN_RATIO_FP as int), cube);
        sign_i(sample) * (threshold + shaped)
    } else {
        sample
    }
}

/// Executable golden cubic saturation; passes samples at or below the
/// threshold through unchanged.
pub fn golden_cubic(sample: i64, threshold: i64) -> (r: i64)
    requires
        -SAT_IN_MAX <= sample <= SAT_IN_MAX,
        -128 * SCALE <= threshold <= 128 * SCALE,
    ensures
        r == spec_golden_cubic(sample as int, threshold as int),
        abs_i(sample as int) <= threshold ==> r == sample,
        -0x100_0000_0000 <= r <= 0x100_0000_0000,
{
    let abs_input: i64 = if sample < 0 {
        -sample
    } else {
        sample
    };
    if abs_input > threshold {
        let excess0: i64 = abs_input - threshold;
        let excess: i64 = if excess0 <= POLY_IN_MAX {
            excess0
        } else {
            POLY_IN_MAX
        };
        proof {
            lemma_mul_fp_range(excess as int, excess as int, 0x80_0000, 0x80_0000);
            lemma_mul_fp_range(excess as int, spec_mul_fp(excess as int, excess as int),
            0x80_0000, 0x400_0000);
            lemma_mul_fp_range(threshold as int, GOLDEN_RATIO_FP as int, 0x800_0000, 1696632);
        }
        let cube: i64 = mul_fp(excess, mul_fp(excess, excess));
        let scale_factor: i64 = mul_fp(threshold, GOLDEN_RATIO_FP);
        proof {
            lemma_mul_fp_range(scale_factor as int, cube as int, 0x10000000, 0x20000000);
        }
        let shaped: i64 = mul_fp(scale_factor, cube);
        let magnitude: i64 = threshold + shaped;
        if sample > 0 {
            magnitude
        } else if sample < 0 {
            -magnitude
        } else {
            0
        }
    } else {
        sample
    }
}

/// The saturation dispatch: which curve the engine applies, with the baked
/// drive amounts the engine uses.
pub open spec fn spec_saturate(mode: SaturationModeEnum, x: int, threshold: int) -> int {
    match mode {
        SaturationModeEnum::NONESAT => x,
        SaturationModeEnum::TAPESAT => spec_tape_saturation(x, DRIVE_TAPE as int, threshold),
        SaturationModeEnum::SYMMETRICAL => spec_symmetrical_saturate(x, DRIVE_SYMMETRICAL as int,
        threshold),
        SaturationModeEnum::CHEBYSHEV => spec_chebyshev_tape(x, DRIVE_CHEBYSHEV as int),
        SaturationModeEnum::GOLDENCUBIC => spec_golden_cubic(x, threshold),
    }
}

} // verus!
