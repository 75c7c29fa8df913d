//! Engine-wide laws, stated over the specification functions that the
//! executable functions are proved equal to.
//!
//! - the one-pole smoother converges geometrically toward its target (the
//!   steady-state/identity behavior of the LINEAR divider);
//! - iterated smoothing moves monotonically: rising on attack, falling on
//!   release, never leaving the interval between the start and the target;
//! - the VCA level follower obeys the same monotonicity, and on release
//!   never falls below the instantaneous level;
//! - the golden-cube gain memory relaxes toward zero and never rises above
//!   zero (gain reduction only);
//! - the golden cubic saturation curve grows monotonically with the excess
//!   over its threshold.

use crate::compressor::{
    spec_compress_golden,
    spec_compress_linear,
    spec_compress_vca,
    spec_div_trunc,
    Compressor,
    KNEE_WIDTH_DB,
    KNEE_WIDTH_DB_FP,
    LN2_OVER_4PI,
};
use crate::fixed::{
    abs_i,
    lemma_db_to_gain_nonneg,
    lemma_mul_fp_mono_nonneg,
    lemma_mul_fp_shrinks,
    lemma_mul_fp_sign,
    lemma_one_pole_coeff_range,
    max_i,
    min_i,
    spec_db_to_gain_fp,
    spec_gain_to_db_fp,
    spec_mul_fp,
    spec_one_pole_coeff,
    spec_one_pole_step,
    SCALE,
};
use crate::sat::{sign_i, spec_golden_cubic, GOLDEN_RATIO_FP, POLY_IN_MAX};
use vstd::arithmetic::div_mod::{lemma_div_multiples_vanish, lemma_div_pos_is_pos};
use vstd::arithmetic::mul::{lemma_mul_basics, lemma_mul_is_commutative};
use vstd::arithmetic::power::{lemma0_pow, lemma_pow0, lemma_pow1, lemma_pow_adds, lemma_pow_positive, pow};
use vstd::prelude::*;

verus! {

/// The one-pole smoother iterated `k` times from `prev` toward `target`.
pub open spec fn spec_one_pole_iter(prev: int, target: int, coeff: int, k: nat) -> int
    decreases k,
{
    if k == 0 {
        prev
    } else {
        spec_one_pole_step(spec_one_pole_iter(prev, target, coeff, (k - 1) as nat), target, coeff)
    }
}

/// One smoothing step stays between the state and the target, and contracts
/// the remaining distance in exact proportion to the coefficient.
pub proof fn lemma_one_pole_step_toward_target(prev: int, target: int, coeff: int)
    requires
        0 <= coeff <= SCALE,
    ensures
        min_i(prev, target) <= spec_one_pole_step(prev, target, coeff) <= max_i(prev, target),
        abs_i(spec_one_pole_step(prev, target, coeff) - target) <= abs_i(prev - target),
        (SCALE as int) * abs_i(spec_one_pole_step(prev, target, coeff) - target) <= coeff * abs_i(
        prev - target),
{
    lemma_mul_fp_shrinks(coeff, prev - target);
}

/// The target is a fixed point of the smoother: once the state has reached
/// it, every further step stays there exactly.
pub proof fn lemma_one_pole_fixed_point(target: int, coeff: int)
    requires
        0 <= coeff <= SCALE,
    ensures
        spec_one_pole_step(target, target, coeff) == target,
{
    lemma_mul_fp_shrinks(coeff, 0);
}

/// Monotonic attack/release law: iterating the smoother never leaves the
/// interval between the start and the target, rises monotonically on attack
/// (start below target) and falls monotonically on release.
pub proof fn lemma_one_pole_iter_monotone(prev: int, target: int, coeff: int, k: nat)
    requires
        0 <= coeff <= SCALE,
    ensures
        min_i(prev, target) <= spec_one_pole_iter(prev, target, coeff, k) <= max_i(prev, target),
        prev <= target ==> spec_one_pole_iter(prev, target, coeff, k) <= spec_one_pole_iter(prev,
        target, coeff, (k + 1) as nat),
        prev >= target ==> spec_one_pole_iter(prev, target, coeff, k) >= spec_one_pole_iter(prev,
        target, coeff, (k + 1) as nat),
    decreases k,
{
    if k > 0 {
        lemma_one_pole_iter_monotone(prev, target, coeff, (k - 1) as nat);
        lemma_one_pole_step_toward_target(spec_one_pole_iter(prev, target, coeff, (k - 1) as nat),
        target, coeff);
    }
    let cur = spec_one_pole_iter(prev, target, coeff, k);
    lemma_one_pole_step_toward_target(cur, target, coeff);
}

/// Geometric convergence law (the steady-state property behind the LINEAR
/// divider): after `k` smoothing steps the distance to the target has shrunk
/// at least by the factor `(coeff / SCALE)^k`.
pub proof fn lemma_one_pole_iter_converges(prev: int, target: int, coeff: int, k: nat)
    requires
        0 <= coeff <= SCALE,
    ensures
        pow(SCALE as int, k) * abs_i(spec_one_pole_iter(prev, target, coeff, k) - target) <= pow(
        coeff, k) * abs_i(prev - target),
    decreases k,
{
    let s = SCALE as int;
    if k == 0 {
        lemma_pow0(s);
        lemma_pow0(coeff);
        lemma_mul_basics(abs_i(prev - target));
    } else {
        let km = (k - 1) as nat;
        lemma_one_pole_iter_converges(prev, target, coeff, km);
        let cur = spec_one_pole_iter(prev, target, coeff, km);
        lemma_mul_fp_shrinks(coeff, cur - target);
        let dk = abs_i(spec_one_pole_iter(prev, target, coeff, k) - target);
        let dc = abs_i(cur - target);
        let d0 = abs_i(prev - target);
        let pk1 = pow(s, km);
        let ck1 = pow(coeff, km);
        lemma_pow_adds(s, 1, km);
        lemma_pow1(s);
        lemma_pow_adds(coeff, 1, km);
        lemma_pow1(coeff);
        lemma_pow_positive(s, km);
        if coeff > 0 {
            lemma_pow_positive(coeff, km);
        } else if km == 0 {
            lemma_pow0(coeff);
        } else {
            lemma0_pow(km);
        }
        assert((s * pk1) * dk <= (coeff * ck1) * d0) by (nonlinear_arith)
            requires
                s * dk <= coeff * dc,
                pk1 * dc <= ck1 * d0,
                0 <= coeff,
                0 <= dc,
                0 <= pk1,
                0 <= ck1,
                0 <= s,
                0 <= dk,
                0 <= d0,
        ;
    }
}

/// The LINEAR topology's output is one smoothing step toward the divider
/// target `sample / ratio`, so the iteration laws above describe its
/// steady-state behavior directly.
pub proof fn lemma_linear_is_one_pole_step(c: Compressor, sample: int)
    requires
        c.wf(),
    ensures
        ({
            let target = spec_div_trunc(sample, c.ratio as int);
            let out = spec_compress_linear(c, sample);
            &&& min_i(c.prev_gain as int, target) <= out <= max_i(c.prev_gain as int, target)
            &&& abs_i(out - target) <= abs_i(c.prev_gain - target)
        }),
{
    vstd::arithmetic::mul::lemma_mul_strictly_positive(c.attack_time_ms as int,
    c.sample_rate as int);
    vstd::arithmetic::mul::lemma_mul_strictly_positive(c.release_time_ms as int,
    c.sample_rate as int);
    lemma_one_pole_coeff_range((c.attack_time_ms as int) * (c.sample_rate as int),
    c.sample_rate as int);
    lemma_one_pole_coeff_range((c.release_time_ms as int) * (c.sample_rate as int),
    c.sample_rate as int);
    let target = spec_div_trunc(sample, c.ratio as int);
    let ca = spec_one_pole_coeff((c.attack_time_ms as int) * (c.sample_rate as int),
    c.sample_rate as int);
    let cr = spec_one_pole_coeff((c.release_time_ms as int) * (c.sample_rate as int),
    c.sample_rate as int);
    lemma_one_pole_step_toward_target(c.prev_gain as int, target, ca);
    lemma_one_pole_step_toward_target(c.prev_gain as int, target, cr);
}

/// Feeding a constant sample keeps the LINEAR topology on one coefficient,
/// so its gain memory follows the smoother iteration exactly: if the engine
/// state `d` holds the `k`-step iterate of `c` (same configuration, rising
/// toward the divider target), the next engine step produces the
/// `k + 1`-step iterate.  Together with the laws above this pins the
/// steady-state behavior: the memory climbs monotonically and converges
/// geometrically to `sample / ratio`.
pub proof fn lemma_linear_constant_input_step(c: Compressor, d: Compressor, sample: int, k: nat)
    requires
        c.wf(),
        d.wf(),
        d.ratio == c.ratio,
        d.attack_time_ms == c.attack_time_ms,
        d.release_time_ms == c.release_time_ms,
        d.sample_rate == c.sample_rate,
        c.prev_gain <= spec_div_trunc(sample, c.ratio as int),
        d.prev_gain == spec_one_pole_iter(c.prev_gain as int, spec_div_trunc(sample,
        c.ratio as int), spec_one_pole_coeff((c.attack_time_ms as int) * (c.sample_rate as int),
        c.sample_rate as int), k),
    ensures
        spec_compress_linear(d, sample) == spec_one_pole_iter(c.prev_gain as int, spec_div_trunc(
        sample, c.ratio as int), spec_one_pole_coeff((c.attack_time_ms as int) * (
        c.sample_rate as int), c.sample_rate as int), (k + 1) as nat),
{
    vstd::arithmetic::mul::lemma_mul_strictly_positive(c.attack_time_ms as int,
    c.sample_rate as int);
    lemma_one_pole_coeff_range((c.attack_time_ms as int) * (c.sample_rate as int),
    c.sample_rate as int);
    let target = spec_div_trunc(sample, c.ratio as int);
    let ca = spec_one_pole_coeff((c.attack_time_ms as int) * (c.sample_rate as int),
    c.sample_rate as int);
    // The iterate never passes the target, so the rising branch (and with it
    // the attack coefficient) stays selected.
    lemma_one_pole_iter_monotone(c.prev_gain as int, target, ca, k);
}

/// Monotonic attack/release of the VCA level follower: the new envelope
/// always lies between the old envelope and the instantaneous level, and on
/// release it never falls below the instantaneous level.
pub proof fn lemma_vca_envelope_monotone(c: Compressor, sample: int)
    requires
        c.wf(),
    ensures
        ({
            let sdb = spec_gain_to_db_fp(abs_i(sample));
            let env = spec_compress_vca(c, sample).1;
            &&& min_i(c.envelope as int, sdb) <= env <= max_i(c.envelope as int, sdb)
            &&& (sdb > c.envelope ==> c.envelope <= env <= sdb)
            &&& (sdb <= c.envelope ==> sdb <= env <= c.envelope)
        }),
{
    let sdb = spec_gain_to_db_fp(abs_i(sample));
    let dpa = max_i((c.attack_time_ms as int) * (c.sample_rate as int) / 1000, 1);
    let dpr = max_i((c.release_time_ms as int) * (c.sample_rate as int) / 1000, 1);
    lemma_one_pole_coeff_range(dpa, c.sample_rate as int);
    lemma_one_pole_coeff_range(dpr, c.sample_rate as int);
    let ar = spec_one_pole_coeff(dpa, c.sample_rate as int);
    let rr = spec_one_pole_coeff(dpr, c.sample_rate as int);
    lemma_one_pole_step_toward_target(c.envelope as int, sdb, ar);
    lemma_one_pole_step_toward_target(c.envelope as int, sdb, rr);
}

/// Release law of the golden-cube gain memory: the stored gain is never
/// above zero (gain reduction only), and it never falls — from a reduced
/// state it relaxes monotonically back toward zero.
pub proof fn lemma_golden_cube_gain_release(c: Compressor, sample: int)
    requires
        c.wf(),
    ensures
        ({
            let pg = spec_compress_golden(c, sample).1;
            &&& pg <= 0
            &&& min_i(c.prev_gain as int, 0) <= pg
            &&& (c.prev_gain <= 0 ==> c.prev_gain <= pg)
        }),
{
    let s = SCALE as int;
    let input_db = spec_gain_to_db_fp(abs_i(sample));
    if input_db > c.threshold {
        let ratio_fp = (c.ratio as int) * s;
        let ratio_eff = spec_mul_fp(GOLDEN_RATIO_FP as int, ratio_fp);
        lemma_mul_fp_mono_nonneg(GOLDEN_RATIO_FP as int, GOLDEN_RATIO_FP as int, s, ratio_fp);
        lemma_div_multiples_vanish(GOLDEN_RATIO_FP as int, s);
        lemma_mul_is_commutative(s, GOLDEN_RATIO_FP as int);
        assert(ratio_eff >= GOLDEN_RATIO_FP);
        let x = (input_db - c.threshold) / (KNEE_WIDTH_DB as int);
        lemma_div_pos_is_pos(input_db - c.threshold, KNEE_WIDTH_DB as int);
        lemma_mul_fp_sign(x, x);
        lemma_mul_fp_sign(x, spec_mul_fp(x, x));
        let x3 = spec_mul_fp(x, spec_mul_fp(x, x));
        lemma_mul_fp_sign(ratio_eff - s, x3);
        let slope0 = spec_mul_fp(ratio_eff - s, x3) + s;
        let knee_w = spec_db_to_gain_fp(KNEE_WIDTH_DB_FP as int);
        lemma_db_to_gain_nonneg(KNEE_WIDTH_DB_FP as int);
        lemma_mul_fp_sign(LN2_OVER_4PI as int, knee_w);
        let shape = spec_mul_fp(LN2_OVER_4PI as int, knee_w);
        lemma_mul_fp_sign(slope0, shape);
    }
}

/// Above its threshold the golden cubic saturation curve grows monotonically
/// with the excess magnitude.
pub proof fn lemma_golden_cubic_monotone(x1: int, x2: int, threshold: int)
    requires
        0 < threshold,
        threshold < x1 <= x2,
    ensures
        spec_golden_cubic(x1, threshold) <= spec_golden_cubic(x2, threshold),
        spec_golden_cubic(x1, threshold) >= threshold,
{
    let e1 = min_i(x1 - threshold, POLY_IN_MAX as int);
    let e2 = min_i(x2 - threshold, POLY_IN_MAX as int);
    lemma_mul_fp_mono_nonneg(e1, e2, e1, e2);
    lemma_mul_fp_mono_nonneg(e1, e2, spec_mul_fp(e1, e1), spec_mul_fp(e2, e2));
    let cube1 = spec_mul_fp(e1, spec_mul_fp(e1, e1));
    let cube2 = spec_mul_fp(e2, spec_mul_fp(e2, e2));
    let tg = spec_mul_fp(threshold, GOLDEN_RATIO_FP as int);
    lemma_mul_fp_sign(threshold, GOLDEN_RATIO_FP as int);
    lemma_mul_fp_mono_nonneg(tg, tg, cube1, cube2);
    lemma_mul_basics(threshold + spec_mul_fp(tg, cube1));
    lemma_mul_basics(threshold + spec_mul_fp(tg, cube2));
}

} // verus!
