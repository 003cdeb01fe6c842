//! A zero-configuration histogram collector that uses logarithmic bucketing.
//!
//! Observations are recorded against compact 16-bit bucket ids and counted
//! in a sparse radix-tree counter store; percentile queries scan the
//! populated buckets in ascending order and select the first bucket whose
//! cumulative count reaches the requested rank.

pub mod histo;
pub mod radix;
