//! Detection of performance regressions: fresh benchmark samples are joined
//! to historical per-metric baselines, and a sample is flagged when it lies
//! above the baseline's mean by more than a chosen multiple of its standard
//! deviation.
//!
//! Durations are whole nanoseconds and the sigma multiplier is given in
//! thousandths, so every threshold is computed exactly.

pub mod calculate;
pub mod types;
pub mod version;
