//! Exact-value checks of the fixed-point core.

use duro_console::fixed::{
    db_to_gain_fp, div_fp, exp2_fp, gain_to_db_fp, log2_fp, mul_fp, one_pole_coeff, one_pole_step,
    tanh_fp, SCALE,
};

#[test]
fn mul_fp_is_exact_on_whole_units() {
    assert_eq!(mul_fp(3 * SCALE, 2 * SCALE), 6 * SCALE);
    assert_eq!(mul_fp(-3 * SCALE, 2 * SCALE), -6 * SCALE);
    assert_eq!(mul_fp(-3 * SCALE, -2 * SCALE), 6 * SCALE);
    assert_eq!(mul_fp(0, 123456), 0);
}

#[test]
fn mul_fp_truncates_toward_zero() {
    // One ulp times one ulp underflows to zero from both sides.
    assert_eq!(mul_fp(1, 1), 0);
    assert_eq!(mul_fp(-1, 1), 0);
    // 1.5 * 1.5 = 2.25, and -1.5 * 1.5 truncates toward zero symmetrically.
    let one_and_half: i64 = SCALE + SCALE / 2;
    assert_eq!(mul_fp(one_and_half, one_and_half), 2 * SCALE + SCALE / 4);
    assert_eq!(mul_fp(-one_and_half, one_and_half), -(2 * SCALE + SCALE / 4));
}

#[test]
fn div_fp_is_exact_on_powers_of_two() {
    assert_eq!(div_fp(SCALE, 2 * SCALE), SCALE / 2);
    assert_eq!(div_fp(-SCALE, 2 * SCALE), -(SCALE / 2));
    assert_eq!(div_fp(3 * SCALE, SCALE), 3 * SCALE);
}

#[test]
fn exp2_hits_whole_octaves_exactly() {
    assert_eq!(exp2_fp(0), SCALE);
    assert_eq!(exp2_fp(SCALE), 2 * SCALE);
    assert_eq!(exp2_fp(-SCALE), SCALE / 2);
    assert_eq!(exp2_fp(3 * SCALE), 8 * SCALE);
}

#[test]
fn log2_hits_whole_octaves_exactly() {
    assert_eq!(log2_fp(SCALE), 0);
    assert_eq!(log2_fp(2 * SCALE), SCALE);
    assert_eq!(log2_fp(4 * SCALE), 2 * SCALE);
    assert_eq!(log2_fp(SCALE / 2), -SCALE);
}

#[test]
fn log2_is_close_to_the_real_logarithm() {
    // log2(3) = 1.58496...; twenty fraction bits give about 1e-5 accuracy.
    let r: i64 = log2_fp(3 * SCALE);
    let expected: f64 = 3.0f64.log2() * (SCALE as f64);
    assert!(((r as f64) - expected).abs() < 64.0);
}

#[test]
fn db_to_gain_matches_known_points() {
    assert_eq!(db_to_gain_fp(0), SCALE);
    // -6 dB is 0.50119 linear; -12 dB is 0.25119 linear.
    assert_eq!(db_to_gain_fp(-6 * SCALE), 525537);
    assert_eq!(db_to_gain_fp(-12 * SCALE), 263394);
    let true_m6: f64 = 10f64.powf(-0.3) * (SCALE as f64);
    assert!((525537f64 - true_m6).abs() < 16.0);
}

#[test]
fn gain_to_db_matches_known_points() {
    assert_eq!(gain_to_db_fp(SCALE), 0);
    // A zero (or negative) gain is floored to one step: about -120.4 dB.
    assert_eq!(gain_to_db_fp(0), -126261140);
    assert_eq!(gain_to_db_fp(-5), -126261140);
    let r: i64 = gain_to_db_fp(2 * SCALE);
    let true_db: f64 = 20.0 * 2.0f64.log10() * (SCALE as f64);
    assert!(((r as f64) - true_db).abs() < 256.0);
}

#[test]
fn tanh_is_odd_and_bounded() {
    assert_eq!(tanh_fp(0), 0);
    assert_eq!(tanh_fp(SCALE), 798605);
    assert_eq!(tanh_fp(-SCALE), -798605);
    let true_tanh1: f64 = 1.0f64.tanh() * (SCALE as f64);
    assert!((798605f64 - true_tanh1).abs() < 64.0);
    let mut x: i64 = -(1 << 30);
    while x <= (1 << 30) {
        let t: i64 = tanh_fp(x);
        assert!(-SCALE <= t && t <= SCALE);
        assert_eq!(t, -tanh_fp(-x));
        x += 99999999;
    }
}

#[test]
fn one_pole_coefficient_is_a_fraction() {
    // 60 ms attack at 44.1 kHz under the engine's formula: about 0.7535.
    assert_eq!(one_pole_coeff(60 * 44100, 44100), 790117);
    let mut ms: i64 = 1;
    while ms <= 100000 {
        let c: i64 = one_pole_coeff(ms * 48000, 48000);
        assert!(0 <= c && c <= SCALE);
        ms *= 10;
    }
}

#[test]
fn exp2_and_log2_invert_each_other_closely() {
    // Round trips accumulate only the polynomial and truncation error:
    // a few hundred ulps over the audio-relevant range.
    let mut x: i64 = -10 * SCALE;
    while x <= 10 * SCALE {
        let roundtrip: i64 = log2_fp(exp2_fp(x).max(1));
        assert!((roundtrip - x).abs() < 512, "octave round trip drifted");
        x += 777777;
    }
}

#[test]
fn db_and_gain_invert_each_other_closely() {
    let mut db: i64 = -60 * SCALE;
    while db <= 20 * SCALE {
        let roundtrip: i64 = gain_to_db_fp(db_to_gain_fp(db));
        assert!((roundtrip - db).abs() < 8192, "dB round trip drifted");
        db += 3333333;
    }
}

#[test]
fn one_pole_step_has_the_target_as_fixed_point() {
    let coeff: i64 = one_pole_coeff(60 * 44100, 44100);
    assert_eq!(one_pole_step(235929, 235929, coeff), 235929);
    assert_eq!(one_pole_step(-500, -500, coeff), -500);
}

#[test]
fn one_pole_step_moves_between_state_and_target() {
    let half: i64 = SCALE / 2;
    assert_eq!(one_pole_step(0, 1000, half), 500);
    assert_eq!(one_pole_step(1000, 0, half), 500);
    // coefficient 0: jumps to the target; coefficient 1: stays put.
    assert_eq!(one_pole_step(1000, 64, 0), 64);
    assert_eq!(one_pole_step(1000, 64, SCALE), 1000);
}
