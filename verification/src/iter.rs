//! Iterator-style adapters over interval streams and plain collections.

pub mod binned_interval_iter;
pub mod common_refinement_zip;
pub mod concatenated_iter;
pub mod flat_zip;
pub mod union_zip;
pub mod weighted_sum;
