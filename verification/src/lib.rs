//! Verified analysis of rhythm-game replay logs.
//!
//! A replay log records, per hit, the chart tick, the timing deviation and
//! the column. This crate parses such logs, converts ticks to elapsed time
//! through a piecewise-constant tempo map, derives per-replay statistics
//! (histograms, combo lengths, speed records), evaluates judging curves and
//! re-derives scores under an alternative hit-to-note matching.
//!
//! All quantities are fixed-point integers: times and deviations are in
//! microseconds, curve points in millionths of a point. Rates that are
//! quotients (notes per second, mean deviations) are exact integer ratios.

pub mod numeric;
pub mod ratio;
pub mod replays_analysis;
pub mod rescore;
pub mod timing_info;
pub mod util;
pub mod wife;
