//! The stateful compressor: three selectable topologies over two state
//! slots.
//!
//! The two slots, `envelope` and `prev_gain`, are reinterpreted per
//! topology (a linear sample memory, a dB-domain level follower, or a
//! dB-domain gain memory).  Switching the topology between samples does not
//! reset them, so one sample of discontinuity after a switch is accepted
//! behavior.
//!
//! The one-pole coefficient formulas follow each topology's own unit
//! convention: LINEAR and GOLDEN_CUBE divide the decay constant by
//! `attack_ms * sample_rate`, while VCA divides by the per-millisecond
//! product `attack_ms * sample_rate / 1000` — the settling behavior is
//! pinned by the convergence laws rather than by dimensional analysis.
//!
//! Every per-sample step is specified exactly: `duro_compress` returns and
//! stores precisely the values of [`spec_compress_state`], so the engine's
//! behavior is pinned down sample by sample, and the state always stays
//! inside the well-formedness bounds of [`Compressor::wf`] — the
//! fixed-point counterpart of "no NaN ever enters the recursion".

use crate::fixed::{
    abs_i,
    db_to_gain_fp,
    gain_to_db_fp,
    lemma_mul_fp_mono_nonneg,
    lemma_mul_fp_range,
    max_i,
    mul_fp,
    one_pole_coeff,
    one_pole_step,
    spec_db_to_gain_fp,
    spec_gain_to_db_fp,
    spec_mul_fp,
    spec_one_pole_coeff,
    spec_one_pole_step,
    SCALE,
};
use crate::sat::{
    chebyshev_tape,
    golden_cubic,
    sign_i,
    spec_saturate,
    symmetrical_saturate,
    tape_saturation,
    SaturationModeEnum,
    DRIVE_CHEBYSHEV,
    DRIVE_SYMMETRICAL,
    DRIVE_TAPE,
    GOLDEN_RATIO_FP,
};
use vstd::arithmetic::div_mod::{lemma_div_is_ordered, lemma_div_nonincreasing, lemma_div_pos_is_pos};
use vstd::arithmetic::mul::{lemma_mul_nonnegative, lemma_mul_strictly_positive, lemma_mul_upper_bound};
use vstd::prelude::*;

verus! {

/// Selects which compressor topology runs for a sample.
#[derive(Clone, Copy, Debug, PartialEq, Eq, Structural)]
#[allow(non_camel_case_types)]
pub enum ThresholdMode {
    LINEAR,
    VCA,
    GOLDENCUBE,
}

/// Largest accepted input sample: eight units, about 18 dB above full scale.
pub const SAMPLE_MAX: i64 = 8388608;

/// Knee width of the golden-cube topology, in whole decibels and in Q20.
pub const KNEE_WIDTH_DB: i64 = 12;

pub const KNEE_WIDTH_DB_FP: i64 = 12582912;

/// `ln(2) / (4 * pi)` in Q20: the golden-cube spectral shaping constant.
pub const LN2_OVER_4PI: i64 = 57838;

/// The fixed -6 dB golden-cube output trim (the formulation runs hot).
pub const TRIM_DB_GOLDEN: i64 = -6291456;

/// Small positive envelope seed (about 1e-4), so the first logarithmic
/// conversion sees a nonzero level.
pub const ENVELOPE_SEED: i64 = 105;

/// Per-sample dynamic-range compressor with two persistent state slots.
pub struct Compressor {
    /// Linear amplitude or dB reference level, per topology.
    pub threshold: i64,
    /// Integer compression ratio.
    pub ratio: i32,
    /// Attack time constant in milliseconds.
    pub attack_time_ms: i32,
    /// Release time constant in milliseconds.
    pub release_time_ms: i32,
    /// Smoothed detected level (dB-domain in the VCA topology).
    pub envelope: i64,
    /// Topology selected at configuration time (the per-call argument of
    /// `duro_compress` decides which branch actually runs).
    pub compressor_type: ThresholdMode,
    /// Sample rate in hertz.
    pub sample_rate: i64,
    /// Last gain value: a linear sample memory under LINEAR, a dB gain
    /// memory under GOLDEN_CUBE.
    pub prev_gain: i64,
}

impl Compressor {
    /// Configuration ranges the engine accepts, and the state bounds every
    /// processing step preserves.
    pub open spec fn wf(self) -> bool {
        &&& -128 * (SCALE as int) <= self.threshold <= 128 * (SCALE as int)
        &&& 1 <= self.ratio <= 100
        &&& 1 <= self.attack_time_ms <= 100000
        &&& 1 <= self.release_time_ms <= 100000
        &&& 1 <= self.sample_rate <= 1000000
        &&& -8 * (SCALE as int) <= self.prev_gain <= 8 * (SCALE as int)
        &&& -256 * (SCALE as int) <= self.envelope <= 31 * (SCALE as int)
    }
}

/// Truncating integer division (toward zero), the ratio divider semantics.
pub open spec fn spec_div_trunc(a: int, b: int) -> int {
    if a < 0 {
        -((-a) / b)
    } else {
        a / b
    }
}

/// LINEAR topology: the instantaneous target `sample / ratio` approached by
/// the one-pole smoother, with the attack coefficient on a rising signal and
/// the release coefficient on a falling one.  The smoothed value is both the
/// output and the new `prev_gain`.
pub open spec fn spec_compress_linear(c: Compressor, sample: int) -> int {
    let ca = spec_one_pole_coeff((c.attack_time_ms as int) * (c.sample_rate as int),
    c.sample_rate as int);
    let cr = spec_one_pole_coeff((c.release_time_ms as int) * (c.sample_rate as int),
    c.sample_rate as int);
    let target = spec_div_trunc(sample, c.ratio as int);
    let coeff = if target >= c.prev_gain {
        ca
    } else {
        cr
    };
    spec_one_pole_step(c.prev_gain as int, target, coeff)
}

/// VCA topology, returning `(output, new envelope)`: a dB-domain level
/// follower (release never falls below the instantaneous level), a gain
/// reduction curve above the threshold, and a linear gain applied to the
/// signed sample.  The per-millisecond decay denominator is floored to one.
pub open spec fn spec_compress_vca(c: Compressor, sample: int) -> (int, int) {
    let sdb = spec_gain_to_db_fp(abs_i(sample));
    let dpa = max_i((c.attack_time_ms as int) * (c.sample_rate as int) / 1000, 1);
    let dpr = max_i((c.release_time_ms as int) * (c.sample_rate as int) / 1000, 1);
    let ar = spec_one_pole_coeff(dpa, c.sample_rate as int);
    let rr = spec_one_pole_coeff(dpr, c.sample_rate as int);
    let env = if sdb > c.envelope {
        spec_one_pole_step(c.envelope as int, sdb, ar)
    } else {
        max_i(spec_one_pole_step(c.envelope as int, sdb, rr), sdb)
    };
    let env_db = spec_gain_to_db_fp(env);
    let grdb = if env_db > c.threshold {
        c.threshold + (env_db - c.threshold) / (c.ratio as int) - max_i(sdb, 0)
    } else {
        0
    };
    let gain = spec_db_to_gain_fp(grdb);
    let out = sign_i(sample) * spec_mul_fp(abs_i(sample), gain);
    (out, env)
}

/// GOLDEN_CUBE topology, returning `(output, new prev_gain)`: a cubic knee
/// normalized by the 12 dB knee width, blended with the previous gain value
/// (the topology's recursive memory), clamped to gain reduction only, and
/// applied together with a single-sample local envelope and a -6 dB trim.
pub open spec fn spec_compress_golden(c: Compressor, sample: int) -> (int, int) {
    let ratio_eff = spec_mul_fp(GOLDEN_RATIO_FP as int, (c.ratio as int) * (SCALE as int));
    let knee_w = spec_db_to_gain_fp(KNEE_WIDTH_DB_FP as int);
    let input_db = spec_gain_to_db_fp(abs_i(sample));
    let ga = spec_one_pole_coeff((c.attack_time_ms as int) * (c.sample_rate as int),
    c.sample_rate as int);
    let gr = spec_one_pole_coeff((c.release_time_ms as int) * (c.sample_rate as int),
    c.sample_rate as int);
    let coeff = if 0 < input_db {
        ga
    } else {
        gr
    };
    let env_out = spec_one_pole_step(0, input_db, coeff);
    let gain_db = if input_db > c.threshold {
        let x = (input_db - c.threshold) / (KNEE_WIDTH_DB as int);
        let x3 = spec_mul_fp(x, spec_mul_fp(x, x));
        let slope0 = spec_mul_fp(ratio_eff - (SCALE as int), x3) + (SCALE as int);
        let slope = spec_mul_fp(slope0, spec_mul_fp(LN2_OVER_4PI as int, knee_w));
        let g = c.prev_gain + slope;
        if g > 0 {
            0
        } else {
            g
        }
    } else {
        0
    };
    let gain = spec_db_to_gain_fp(gain_db);
    let out = spec_mul_fp(spec_mul_fp(spec_mul_fp(sample, gain), env_out), spec_db_to_gain_fp(
    TRIM_DB_GOLDEN as int));
    (out, gain_db)
}

/// One full compressor step before saturation:
/// `(output, new prev_gain, new envelope)` for the selected topology.
pub open spec fn spec_compress_state(c: Compressor, sample: int, topo: ThresholdMode) -> (
    int,
    int,
    int,
) {
    match topo {
        ThresholdMode::LINEAR => {
            let o = spec_compress_linear(c, sample);
            (o, o, c.envelope as int)
        },
        ThresholdMode::VCA => {
            let r = spec_compress_vca(c, sample);
            (r.0, c.prev_gain as int, r.1)
        },
        ThresholdMode::GOLDENCUBE => {
            let r = spec_compress_golden(c, sample);
            (r.0, r.1, c.envelope as int)
        },
    }
}

impl Compressor {
    /// Builds a compressor with placeholder state: the envelope seeded just
    /// above zero, no remembered gain, and the LINEAR topology (the per-call
    /// topology argument of `duro_compress` is what selects the branch).
    pub fn new(
        threshold: i64,
        ratio: i32,
        attack_time_ms: i32,
        release_time_ms: i32,
        compressor_type: ThresholdMode,
        sample_rate: i64,
    ) -> (c: Self)
        requires
            -128 * (SCALE as int) <= threshold <= 128 * (SCALE as int),
            1 <= ratio <= 100,
            1 <= attack_time_ms <= 100000,
            1 <= release_time_ms <= 100000,
            1 <= sample_rate <= 1000000,
        ensures
            c.threshold == threshold,
            c.ratio == ratio,
            c.attack_time_ms == attack_time_ms,
            c.release_time_ms == release_time_ms,
            c.sample_rate == sample_rate,
            c.envelope == ENVELOPE_SEED,
            c.prev_gain == 0,
            c.compressor_type == ThresholdMode::LINEAR,
            c.wf(),
    {
        Self {
            threshold,
            ratio,
            attack_time_ms,
            release_time_ms,
            envelope: ENVELOPE_SEED,
            compressor_type: ThresholdMode::LINEAR,
            sample_rate,
            prev_gain: 0,
        }
    }

    /// Refreshes the configuration once per processing block; the state
    /// slots persist untouched.
    pub fn update_vals(
        &mut self,
        threshold: i64,
        ratio: i32,
        attack_time_ms: i32,
        release_time_ms: i32,
        compressor_type: ThresholdMode,
        sample_rate: i64,
    )
        requires
            old(self).wf(),
            -128 * (SCALE as int) <= threshold <= 128 * (SCALE as int),
            1 <= ratio <= 100,
            1 <= attack_time_ms <= 100000,
            1 <= release_time_ms <= 100000,
            1 <= sample_rate <= 1000000,
        ensures
            final(self).threshold == threshold,
            final(self).ratio == ratio,
            final(self).attack_time_ms == attack_time_ms,
            final(self).release_time_ms == release_time_ms,
            final(self).compressor_type == compressor_type,
            final(self).sample_rate == sample_rate,
            final(self).envelope == old(self).envelope,
            final(self).prev_gain == old(self).prev_gain,
            final(self).wf(),
    {
        self.threshold = threshold;
        self.ratio = ratio;
        self.sample_rate = sample_rate;
        self.compressor_type = compressor_type;
        self.attack_time_ms = attack_time_ms;
        self.release_time_ms = release_time_ms;
    }

    /// LINEAR topology step; the smoothed divider output is stored and
    /// returned.
    fn step_linear(&mut self, sample: i64) -> (out: i64)
        requires
            old(self).wf(),
            -SAMPLE_MAX <= sample <= SAMPLE_MAX,
        ensures
            final(self).wf(),
            *final(self) == (Compressor { prev_gain: final(self).prev_gain, ..*old(self) }),
            final(self).prev_gain == spec_compress_linear(*old(self), sample as int),
            out == spec_compress_linear(*old(self), sample as int),
            -8 * (SCALE as int) <= out <= 8 * (SCALE as int),
    {
        let sample_abs: i64 = if sample < 0 {
            -sample
        } else {
            sample
        };
        proof {
            lemma_mul_strictly_positive(self.attack_time_ms as int, self.sample_rate as int);
            lemma_mul_upper_bound(self.attack_time_ms as int, 100000, self.sample_rate as int,
            1000000);
            lemma_mul_strictly_positive(self.release_time_ms as int, self.sample_rate as int);
            lemma_mul_upper_bound(self.release_time_ms as int, 100000, self.sample_rate as int,
            1000000);
            lemma_div_pos_is_pos(sample_abs as int, self.ratio as int);
            lemma_div_nonincreasing(sample_abs as int, self.ratio as int);
        }
        let attack_coeff: i64 = one_pole_coeff(
            (self.attack_time_ms as i64) * self.sample_rate,
            self.sample_rate,
        );
        let release_coeff: i64 = one_pole_coeff(
            (self.release_time_ms as i64) * self.sample_rate,
            self.sample_rate,
        );
        let target_abs: i64 = ((sample_abs as u64) / (self.ratio as u64)) as i64;
        let target: i64 = if sample < 0 {
            -target_abs
        } else {
            target_abs
        };
        let gain_coeff: i64 = if target >= self.prev_gain {
            attack_coeff
        } else {
            release_coeff
        };
        let smoothed: i64 = one_pole_step(self.prev_gain, target, gain_coeff);
        self.prev_gain = smoothed;
        smoothed
    }

    /// VCA topology step; the envelope is stored, the gain-reduced signed
    /// sample returned.
    fn step_vca(&mut self, sample: i64) -> (out: i64)
        requires
            old(self).wf(),
            -SAMPLE_MAX <= sample <= SAMPLE_MAX,
        ensures
            final(self).wf(),
            *final(self) == (Compressor { envelope: final(self).envelope, ..*old(self) }),
            final(self).envelope == spec_compress_vca(*old(self), sample as int).1,
            out == spec_compress_vca(*old(self), sample as int).0,
            -512 * (SCALE as int) <= out <= 512 * (SCALE as int),
    {
        let sample_abs: i64 = if sample < 0 {
            -sample
        } else {
            sample
        };
        let sample_db: i64 = gain_to_db_fp(sample_abs);
        proof {
            lemma_mul_nonnegative(self.attack_time_ms as int, self.sample_rate as int);
            lemma_mul_upper_bound(self.attack_time_ms as int, 100000, self.sample_rate as int,
            1000000);
            lemma_mul_nonnegative(self.release_time_ms as int, self.sample_rate as int);
            lemma_mul_upper_bound(self.release_time_ms as int, 100000, self.sample_rate as int,
            1000000);
            lemma_div_pos_is_pos((self.attack_time_ms as int) * (self.sample_rate as int), 1000);
            lemma_div_is_ordered((self.attack_time_ms as int) * (self.sample_rate as int),
            100000000000, 1000);
            lemma_div_pos_is_pos((self.release_time_ms as int) * (self.sample_rate as int), 1000);
            lemma_div_is_ordered((self.release_time_ms as int) * (self.sample_rate as int),
            100000000000, 1000);
        }
        let dpa_raw: i64 = (((self.attack_time_ms as u64) * (self.sample_rate as u64))
            / 1000) as i64;
        let dpa: i64 = if dpa_raw >= 1 {
            dpa_raw
        } else {
            1
        };
        let dpr_raw: i64 = (((self.release_time_ms as u64) * (self.sample_rate as u64))
            / 1000) as i64;
        let dpr: i64 = if dpr_raw >= 1 {
            dpr_raw
        } else {
            1
        };
        let attack_rate: i64 = one_pole_coeff(dpa, self.sample_rate);
        let release_rate: i64 = one_pole_coeff(dpr, self.sample_rate);
        let env: i64 = if sample_db > self.envelope {
            one_pole_step(self.envelope, sample_db, attack_rate)
        } else {
            let smoothed: i64 = one_pole_step(self.envelope, sample_db, release_rate);
            if smoothed >= sample_db {
                smoothed
            } else {
                sample_db
            }
        };
        self.envelope = env;
        let envelope_db: i64 = gain_to_db_fp(env);
        let gain_reduction_db: i64 = if envelope_db > self.threshold {
            let diff: i64 = envelope_db - self.threshold;
            proof {
                lemma_div_pos_is_pos(diff as int, self.ratio as int);
                lemma_div_nonincreasing(diff as int, self.ratio as int);
            }
            let reduced: i64 = ((diff as u64) / (self.ratio as u64)) as i64;
            let sdb_pos: i64 = if sample_db > 0 {
                sample_db
            } else {
                0
            };
            self.threshold + reduced - sdb_pos
        } else {
            0
        };
        let gain_reduction: i64 = db_to_gain_fp(gain_reduction_db);
        proof {
            lemma_mul_fp_range(sample_abs as int, gain_reduction as int, 0x80_0000, 0x400_0000);
            if sample == 0 {
                lemma_mul_fp_range(sample_abs as int, gain_reduction as int, 0, 0x400_0000);
            }
        }
        let out_mag: i64 = mul_fp(sample_abs, gain_reduction);
        if sample < 0 {
            -out_mag
        } else if sample > 0 {
            out_mag
        } else {
            0
        }
    }

    /// GOLDEN_CUBE topology step; the clamped cubic-knee gain is stored and
    /// the trimmed, envelope-weighted sample returned.
    fn step_golden(&mut self, sample: i64) -> (out: i64)
        requires
            old(self).wf(),
            -SAMPLE_MAX <= sample <= SAMPLE_MAX,
        ensures
            final(self).wf(),
            *final(self) == (Compressor { prev_gain: final(self).prev_gain, ..*old(self) }),
            final(self).prev_gain == spec_compress_golden(*old(self), sample as int).1,
            out == spec_compress_golden(*old(self), sample as int).0,
            -968 * (SCALE as int) <= out <= 968 * (SCALE as int),
    {
        let sample_abs: i64 = if sample < 0 {
            -sample
        } else {
            sample
        };
        let ratio_fp: i64 = (self.ratio as i64) * SCALE;
        proof {
            lemma_mul_fp_range(GOLDEN_RATIO_FP as int, ratio_fp as int, 1696632, 0x640_0000);
            lemma_mul_fp_mono_nonneg(GOLDEN_RATIO_FP as int, GOLDEN_RATIO_FP as int, SCALE as int,
            ratio_fp as int);
            vstd::arithmetic::div_mod::lemma_div_multiples_vanish(GOLDEN_RATIO_FP as int,
            SCALE as int);
            vstd::arithmetic::mul::lemma_mul_is_commutative(SCALE as int, GOLDEN_RATIO_FP as int);
        }
        let ratio_eff: i64 = mul_fp(GOLDEN_RATIO_FP, ratio_fp);
        let knee_width: i64 = db_to_gain_fp(KNEE_WIDTH_DB_FP);
        let input_db: i64 = gain_to_db_fp(sample_abs);
        proof {
            lemma_mul_strictly_positive(self.attack_time_ms as int, self.sample_rate as int);
            lemma_mul_upper_bound(self.attack_time_ms as int, 100000, self.sample_rate as int,
            1000000);
            lemma_mul_strictly_positive(self.release_time_ms as int, self.sample_rate as int);
            lemma_mul_upper_bound(self.release_time_ms as int, 100000, self.sample_rate as int,
            1000000);
        }
        let gain_attack: i64 = one_pole_coeff(
            (self.attack_time_ms as i64) * self.sample_rate,
            self.sample_rate,
        );
        let gain_release: i64 = one_pole_coeff(
            (self.release_time_ms as i64) * self.sample_rate,
            self.sample_rate,
        );
        let env_coeff: i64 = if 0 < input_db {
            gain_attack
        } else {
            gain_release
        };
        let env_out: i64 = one_pole_step(0, input_db, env_coeff);
        let gain_db: i64 = if input_db > self.threshold {
            let diff: i64 = input_db - self.threshold;
            proof {
                lemma_div_pos_is_pos(diff as int, KNEE_WIDTH_DB as int);
                lemma_div_is_ordered(diff as int, 160432128, KNEE_WIDTH_DB as int);
            }
            let x: i64 = ((diff as u64) / (KNEE_WIDTH_DB as u64)) as i64;
            proof {
                lemma_mul_fp_range(x as int, x as int, 0xE0_0000, 0xE0_0000);
                lemma_mul_fp_range(x as int, spec_mul_fp(x as int, x as int), 0xE0_0000,
                0xC40_0000);
                lemma_mul_fp_range(ratio_eff as int - (SCALE as int), spec_mul_fp(x as int,
                spec_mul_fp(x as int, x as int)), 169663200, 0xAC00_0000);
                lemma_mul_fp_range(LN2_OVER_4PI as int, knee_width as int, 57838, 0x40_0000);
            }
            let x3: i64 = mul_fp(x, mul_fp(x, x));
            let slope0: i64 = mul_fp(ratio_eff - SCALE, x3) + SCALE;
            let shape: i64 = mul_fp(LN2_OVER_4PI, knee_width);
            proof {
                lemma_mul_fp_range(slope0 as int, shape as int, 0x70_0000_0000, 231352);
            }
            let slope: i64 = mul_fp(slope0, shape);
            let g: i64 = self.prev_gain + slope;
            if g > 0 {
                0
            } else {
                g
            }
        } else {
            0
        };
        self.prev_gain = gain_db;
        let gain: i64 = db_to_gain_fp(gain_db);
        proof {
            lemma_mul_fp_range(sample as int, gain as int, 0x80_0000, 0x10_0000);
            lemma_mul_fp_range(spec_mul_fp(sample as int, gain as int), env_out as int, 0x80_0000,
            0x790_0000);
        }
        let applied: i64 = mul_fp(mul_fp(sample, gain), env_out);
        let trim: i64 = db_to_gain_fp(TRIM_DB_GOLDEN);
        proof {
            lemma_mul_fp_range(applied as int, trim as int, 1015021568, 0x10_0000);
        }
        mul_fp(applied, trim)
    }

    /// Processes one sample: runs the selected topology on the state slots,
    /// then the selected saturation curve on its output.  The stored state
    /// and the returned sample are exactly the values of
    /// [`spec_compress_state`] and [`spec_saturate`], and the state stays
    /// well formed — the recursion can never degenerate.
    pub fn duro_compress(
        &mut self,
        sample: i64,
        sat_type: SaturationModeEnum,
        compressor_type: ThresholdMode,
    ) -> (out: i64)
        requires
            old(self).wf(),
            -SAMPLE_MAX <= sample <= SAMPLE_MAX,
        ensures
            final(self).wf(),
            final(self).threshold == old(self).threshold,
            final(self).ratio == old(self).ratio,
            final(self).attack_time_ms == old(self).attack_time_ms,
            final(self).release_time_ms == old(self).release_time_ms,
            final(self).sample_rate == old(self).sample_rate,
            final(self).compressor_type == old(self).compressor_type,
            final(self).prev_gain == spec_compress_state(*old(self), sample as int,
            compressor_type).1,
            final(self).envelope == spec_compress_state(*old(self), sample as int,
            compressor_type).2,
            out == spec_saturate(sat_type, spec_compress_state(*old(self), sample as int,
            compressor_type).0, old(self).threshold as int),
            -0x100_0000_0000 <= out <= 0x100_0000_0000,
    {
        let compressed: i64 = match compressor_type {
            ThresholdMode::LINEAR => self.step_linear(sample),
            ThresholdMode::VCA => self.step_vca(sample),
            ThresholdMode::GOLDENCUBE => self.step_golden(sample),
        };
        match sat_type {
            SaturationModeEnum::NONESAT => compressed,
            SaturationModeEnum::TAPESAT => tape_saturation(compressed, DRIVE_TAPE, self.threshold),
            SaturationModeEnum::SYMMETRICAL => symmetrical_saturate(compressed, DRIVE_SYMMETRICAL,
            self.threshold),
            SaturationModeEnum::CHEBYSHEV => chebyshev_tape(compressed, DRIVE_CHEBYSHEV),
            SaturationModeEnum::GOLDENCUBIC => golden_cubic(compressed, self.threshold),
        }
    }
}

} // verus!
