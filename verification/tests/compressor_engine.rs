//! The compressor state machine: construction, configuration, the scenario
//! checks of each topology, and long random runs through every topology and
//! saturation combination.

use duro_console::compressor::{Compressor, ThresholdMode, ENVELOPE_SEED, SAMPLE_MAX};
use duro_console::fixed::SCALE;
use duro_console::sat::SaturationModeEnum;

fn engine(threshold: i64, ratio: i32, attack_ms: i32, release_ms: i32, sr: i64) -> Compressor {
    let mut c = Compressor::new(threshold, ratio, attack_ms, release_ms, ThresholdMode::LINEAR, sr);
    c.update_vals(threshold, ratio, attack_ms, release_ms, ThresholdMode::LINEAR, sr);
    c
}

#[test]
fn new_seeds_the_state() {
    let c = Compressor::new(524288, 4, 60, 30, ThresholdMode::VCA, 44100);
    assert_eq!(c.envelope, ENVELOPE_SEED);
    assert_eq!(c.prev_gain, 0);
    // The constructor always starts on the LINEAR topology; the per-call
    // argument of duro_compress selects the branch that actually runs.
    assert!(matches!(c.compressor_type, ThresholdMode::LINEAR));
    assert_eq!(c.threshold, 524288);
    assert_eq!(c.ratio, 4);
}

#[test]
fn update_vals_refreshes_config_and_keeps_state() {
    let mut c = engine(524288, 4, 60, 30, 44100);
    c.duro_compress(943718, SaturationModeEnum::NONESAT, ThresholdMode::LINEAR);
    let pg: i64 = c.prev_gain;
    let env: i64 = c.envelope;
    c.update_vals(-6 * SCALE, 8, 10, 50, ThresholdMode::GOLDENCUBE, 48000);
    assert_eq!(c.threshold, -6 * SCALE);
    assert_eq!(c.ratio, 8);
    assert_eq!(c.attack_time_ms, 10);
    assert_eq!(c.release_time_ms, 50);
    assert_eq!(c.sample_rate, 48000);
    assert!(matches!(c.compressor_type, ThresholdMode::GOLDENCUBE));
    assert_eq!(c.prev_gain, pg);
    assert_eq!(c.envelope, env);
}

#[test]
fn linear_settles_at_the_divided_constant() {
    // Scenario: threshold -6 dB, ratio 4, attack 60 ms, release 30 ms,
    // 44.1 kHz; a constant 0.9 for 10000 samples settles at 0.9 / 4.
    let mut c = engine(525537, 4, 60, 30, 44100);
    let sample: i64 = 943718;
    let mut i: i32 = 0;
    while i < 10000 {
        c.duro_compress(sample, SaturationModeEnum::NONESAT, ThresholdMode::LINEAR);
        i += 1;
    }
    let target: i64 = sample / 4;
    assert_eq!(c.prev_gain, target);
    let err: i64 = (c.prev_gain - 235930i64).abs();
    assert!(err <= 2359, "not within 1% of 0.225");
}

#[test]
fn linear_attack_is_monotone_and_settles() {
    // A step from silence to a sustained 0.9: the gain memory rises
    // monotonically toward the target and is within 1% well inside the
    // one-pole settling horizon.
    let mut c = engine(525537, 4, 60, 30, 44100);
    let sample: i64 = 943718;
    let target: i64 = sample / 4;
    let mut prev: i64 = c.prev_gain;
    let mut within_after: i32 = -1;
    let mut i: i32 = 0;
    while i < 2000 {
        c.duro_compress(sample, SaturationModeEnum::NONESAT, ThresholdMode::LINEAR);
        assert!(c.prev_gain >= prev, "attack must rise monotonically");
        assert!(c.prev_gain <= target);
        prev = c.prev_gain;
        if within_after < 0 && (target - c.prev_gain) * 100 <= target {
            within_after = i;
        }
        i += 1;
    }
    assert!(within_after >= 0 && within_after < 200, "settling took too long");
}

#[test]
fn linear_release_is_monotone() {
    let mut c = engine(525537, 4, 60, 30, 44100);
    let mut i: i32 = 0;
    while i < 500 {
        c.duro_compress(943718, SaturationModeEnum::NONESAT, ThresholdMode::LINEAR);
        i += 1;
    }
    let mut prev: i64 = c.prev_gain;
    i = 0;
    while i < 500 {
        c.duro_compress(0, SaturationModeEnum::NONESAT, ThresholdMode::LINEAR);
        assert!(c.prev_gain <= prev, "release must fall monotonically");
        assert!(c.prev_gain >= 0);
        prev = c.prev_gain;
        i += 1;
    }
}

#[test]
fn linear_identity_at_ratio_one() {
    // With no saturation and a ratio of one the steady state converges to
    // the input itself.
    let mut c = engine(8 * SCALE, 1, 20, 20, 48000);
    let sample: i64 = 524288;
    let mut out: i64 = 0;
    let mut i: i32 = 0;
    while i < 2000 {
        out = c.duro_compress(sample, SaturationModeEnum::NONESAT, ThresholdMode::LINEAR);
        i += 1;
    }
    assert_eq!(out, sample);
    assert_eq!(c.prev_gain, sample);
}

#[test]
fn golden_cube_gain_never_rises_above_zero_and_relaxes() {
    // Scenario: a loud burst, then 1000 samples of silence; the stored gain
    // relaxes toward zero monotonically and never overshoots above it.
    let mut c = engine(-6 * SCALE, 4, 60, 30, 44100);
    let mut i: i32 = 0;
    while i < 200 {
        c.duro_compress(943718, SaturationModeEnum::NONESAT, ThresholdMode::GOLDENCUBE);
        assert!(c.prev_gain <= 0);
        i += 1;
    }
    let mut prev: i64 = c.prev_gain;
    i = 0;
    while i < 1000 {
        c.duro_compress(0, SaturationModeEnum::NONESAT, ThresholdMode::GOLDENCUBE);
        assert!(c.prev_gain <= 0, "gain reduction only, never boost");
        assert!(c.prev_gain >= prev, "must relax toward zero monotonically");
        prev = c.prev_gain;
        i += 1;
    }
}

#[test]
fn vca_reduces_a_loud_signal() {
    // Four units in (12 dB over full scale) against a -6 dB threshold: the
    // steady-state output must come back well below the input.
    let mut c = engine(-6 * SCALE, 4, 10, 50, 48000);
    let sample: i64 = 4 * SCALE;
    let mut out: i64 = 0;
    let mut i: i32 = 0;
    while i < 3000 {
        out = c.duro_compress(sample, SaturationModeEnum::NONESAT, ThresholdMode::VCA);
        i += 1;
    }
    assert_eq!(out, 1163652);
    assert!(out < sample);
    assert!(out > 0);
}

#[test]
fn vca_envelope_tracks_between_old_level_and_new() {
    let mut c = engine(-6 * SCALE, 4, 10, 50, 48000);
    let mut i: i32 = 0;
    let mut prev_env: i64 = c.envelope;
    while i < 200 {
        c.duro_compress(4 * SCALE, SaturationModeEnum::NONESAT, ThresholdMode::VCA);
        assert!(c.envelope >= prev_env, "attack: the envelope rises");
        prev_env = c.envelope;
        i += 1;
    }
    i = 0;
    while i < 200 {
        c.duro_compress(0, SaturationModeEnum::NONESAT, ThresholdMode::VCA);
        assert!(c.envelope <= prev_env, "release: the envelope falls");
        prev_env = c.envelope;
        i += 1;
    }
}

#[test]
fn vca_preserves_the_sign_of_the_sample() {
    let mut c = engine(-6 * SCALE, 4, 10, 50, 48000);
    let pos: i64 = c.duro_compress(4 * SCALE, SaturationModeEnum::NONESAT, ThresholdMode::VCA);
    assert!(pos > 0);
    let neg: i64 = c.duro_compress(-4 * SCALE, SaturationModeEnum::NONESAT, ThresholdMode::VCA);
    assert!(neg < 0);
    let zero: i64 = c.duro_compress(0, SaturationModeEnum::NONESAT, ThresholdMode::VCA);
    assert_eq!(zero, 0);
}

#[test]
fn long_random_run_never_degenerates() {
    // A pseudo-random stream (zeros included) through every topology and
    // saturation combination: the state and output always stay within the
    // engine's proved bounds — the integer counterpart of the no-NaN
    // invariant.
    let topologies = [ThresholdMode::LINEAR, ThresholdMode::VCA, ThresholdMode::GOLDENCUBE];
    let modes = [
        SaturationModeEnum::NONESAT,
        SaturationModeEnum::TAPESAT,
        SaturationModeEnum::SYMMETRICAL,
        SaturationModeEnum::CHEBYSHEV,
        SaturationModeEnum::GOLDENCUBIC,
    ];
    let mut seed: u64 = 1;
    for topo in topologies {
        for mode in modes {
            let mut c = engine(525537, 4, 60, 30, 44100);
            let mut i: i32 = 0;
            while i < 2000 {
                seed = seed.wrapping_mul(6364136223846793005).wrapping_add(1442695040888963407);
                let mut sample: i64 = ((seed >> 20) % ((2 * SAMPLE_MAX + 1) as u64)) as i64
                    - SAMPLE_MAX;
                if i % 7 == 0 {
                    sample = 0;
                }
                if i % 11 == 0 {
                    sample = 400000;
                }
                let out: i64 = c.duro_compress(sample, mode, topo);
                assert!(-8 * SCALE <= c.prev_gain && c.prev_gain <= 8 * SCALE);
                assert!(-256 * SCALE <= c.envelope && c.envelope <= 31 * SCALE);
                assert!(out.abs() <= (1i64 << 40));
                i += 1;
            }
        }
    }
}

#[test]
fn saturation_modes_dispatch_from_the_same_state() {
    // One compressor per mode, identical streams: the NONE output feeds the
    // bank, so a bounded mode can never exceed one unit.
    let modes = [
        SaturationModeEnum::TAPESAT,
        SaturationModeEnum::SYMMETRICAL,
        SaturationModeEnum::CHEBYSHEV,
    ];
    for mode in modes {
        let mut c = engine(525537, 4, 60, 30, 44100);
        let mut i: i32 = 0;
        while i < 300 {
            let out: i64 = c.duro_compress(943718, mode, ThresholdMode::LINEAR);
            assert!(-SCALE <= out && out <= SCALE);
            i += 1;
        }
    }
}

#[test]
fn topology_switch_keeps_the_state_slots() {
    // Switching topology between samples must not reset the slots; one
    // sample of discontinuity is accepted behavior.
    let mut c = engine(-6 * SCALE, 4, 60, 30, 44100);
    let mut i: i32 = 0;
    while i < 100 {
        c.duro_compress(943718, SaturationModeEnum::NONESAT, ThresholdMode::LINEAR);
        i += 1;
    }
    let pg: i64 = c.prev_gain;
    assert!(pg > 0);
    // VCA does not touch prev_gain at all.
    c.duro_compress(943718, SaturationModeEnum::NONESAT, ThresholdMode::VCA);
    assert_eq!(c.prev_gain, pg);
    // GOLDEN_CUBE reinterprets the slot as a dB gain and clamps it to zero
    // or below on its first sample.
    c.duro_compress(943718, SaturationModeEnum::NONESAT, ThresholdMode::GOLDENCUBE);
    assert!(c.prev_gain <= 0);
}
