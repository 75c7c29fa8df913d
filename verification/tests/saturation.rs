//! The saturation bank: boundedness, pass-through, odd symmetry and
//! monotone growth.

use duro_console::fixed::SCALE;
use duro_console::sat::{
    chebyshev_tape, golden_cubic, symmetrical_saturate, tape_saturation, DRIVE_CHEBYSHEV,
    DRIVE_SYMMETRICAL, DRIVE_TAPE,
};

#[test]
fn tape_saturation_is_bounded_for_all_inputs() {
    let mut x: i64 = -(1 << 30);
    while x <= (1 << 30) {
        let r: i64 = tape_saturation(x, DRIVE_TAPE, 524288);
        assert!(-SCALE <= r && r <= SCALE);
        x += 33554431;
    }
}

#[test]
fn tape_saturation_known_point() {
    // Half scale through the 0.6-drive tape curve at a 0.5 threshold.
    assert_eq!(tape_saturation(524288, DRIVE_TAPE, 524288), 131697);
    assert_eq!(tape_saturation(-524288, DRIVE_TAPE, 524288), -131697);
}

#[test]
fn tape_saturation_survives_a_zero_threshold() {
    // tanh(0) would divide the transfer curve by zero; the guard floors it.
    let r: i64 = tape_saturation(524288, DRIVE_TAPE, 0);
    assert!(-SCALE <= r && r <= SCALE);
}

#[test]
fn symmetrical_saturate_is_bounded_for_all_inputs() {
    let mut x: i64 = -(1 << 30);
    while x <= (1 << 30) {
        let r: i64 = symmetrical_saturate(x, DRIVE_SYMMETRICAL, 524288);
        assert!(-SCALE <= r && r <= SCALE);
        x += 33554431;
    }
}

#[test]
fn symmetrical_saturate_known_point() {
    // 0.9 is over the 0.5 threshold, so it is driven by 0.8 then shaped.
    assert_eq!(symmetrical_saturate(943718, DRIVE_SYMMETRICAL, 524288), 646918);
}

#[test]
fn symmetrical_saturate_passes_quiet_samples_to_tanh_undriven() {
    // Below the threshold the sample skips the drive stage entirely.
    let quiet: i64 = 100000;
    let direct: i64 = symmetrical_saturate(quiet, DRIVE_SYMMETRICAL, 524288);
    let driven: i64 = symmetrical_saturate(quiet, DRIVE_SYMMETRICAL, 50000);
    assert!(direct > driven);
}

#[test]
fn chebyshev_is_zero_at_zero() {
    // Scenario: an odd curve through the origin returns exactly zero.
    assert_eq!(chebyshev_tape(0, DRIVE_CHEBYSHEV), 0);
}

#[test]
fn chebyshev_is_bounded_for_all_inputs() {
    let mut x: i64 = -(1 << 30);
    while x <= (1 << 30) {
        let r: i64 = chebyshev_tape(x, DRIVE_CHEBYSHEV);
        assert!(-SCALE <= r && r <= SCALE);
        x += 33554431;
    }
}

#[test]
fn chebyshev_known_point() {
    assert_eq!(chebyshev_tape(524288, DRIVE_CHEBYSHEV), 271621);
}

#[test]
fn golden_cubic_passes_below_threshold() {
    // Scenario: input 0.4 with threshold 0.5 comes back unchanged.
    assert_eq!(golden_cubic(419430, 524288), 419430);
    assert_eq!(golden_cubic(-419430, 524288), -419430);
    assert_eq!(golden_cubic(0, 524288), 0);
}

#[test]
fn golden_cubic_known_point_above_threshold() {
    // 0.8 over a 0.5 threshold: threshold + threshold*phi*excess^3.
    assert_eq!(golden_cubic(838861, 524288), 547192);
    assert_eq!(golden_cubic(-838861, 524288), -547192);
}

#[test]
fn golden_cubic_grows_monotonically_with_excess() {
    let threshold: i64 = 524288;
    let mut prev: i64 = golden_cubic(threshold + 1, threshold);
    let mut x: i64 = threshold + 1;
    while x <= 16 * SCALE {
        let r: i64 = golden_cubic(x, threshold);
        assert!(r >= prev);
        prev = r;
        x += 123456;
    }
}
