//! Modeling mathematical constructs and their associated operations:
//! closed integer intervals, canonical integer sets, interval partitions,
//! interval-keyed aggregation maps, common-refinement zips, fixed-width
//! binning, and the ordered-search and tensor utilities built around them.

pub mod interval;
pub mod iter;
pub mod partition;
pub mod search;
pub mod set;
pub mod stats;
pub mod tensor;
pub mod traits;
