//! Timestamps, path summaries, frontiers and delta counts.
pub mod count_map;
pub mod entries;
pub mod frontier;
pub mod order;
pub mod scope;
pub mod timestamp;
