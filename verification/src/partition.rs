//! Partitions of the integers into ordered intervals, and aggregation over
//! interval keys.

pub mod integer_interval_map;
pub mod integer_partitions;
pub mod ordered_interval_partitions;
