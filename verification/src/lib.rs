//! Verified core of the on-chain metric computations: coin-flow supply
//! partitions, cointime intervals, cumulative series and their per-block
//! deltas, a Fenwick-tree percentile tracker and the rarity-meter scores.

pub mod lowbit;
pub mod fenwick;
pub mod expanding_percentiles;
pub mod previous_delta;
pub mod cumulative_rolling;
pub mod cached_count_cumulative_rolling;
pub mod chunks;
pub mod containers;
pub mod coinflow;
pub mod cointime;
pub mod inputs;
pub mod input_types;
pub mod rarity_meter;
