//! Verified core of a polyphonic string tuner: sample framing, spectral
//! peak selection, harmonic-stack plausibility, salience peak picking,
//! track association and lifecycle, and the packed output layout.

pub mod order;
pub mod analyzer;
pub mod tracker;
pub mod pitch;
pub mod salience;
pub mod engine;
