//! A per-sample dynamic-range compressor and harmonic saturation engine.
//!
//! The engine works on deterministic Q20 fixed-point samples (an `i64` holds
//! `value * 2^20`), so every stage — envelope smoothing, gain computation and
//! the nonlinear waveshaping bank — is exact integer arithmetic with proved
//! bounds: no intermediate value can overflow, and the recursive state can
//! never degenerate the way a floating-point `NaN` or infinity would.
//!
//! Layout:
//! - [`fixed`]: the fixed-point core — multiplication, division, `exp2`,
//!   `log2`, `tanh`, dB/gain conversions and the one-pole smoothing step.
//! - [`sat`]: the stateless saturation curve bank.
//! - [`compressor`]: the stateful compressor with its three topologies.
//! - [`laws`]: proof functions for the engine-wide properties (convergence,
//!   monotone attack/release, monotone cubic growth).

pub mod compressor;
pub mod fixed;
pub mod laws;
pub mod sat;
