//! Ordered search primitives.

pub mod binary_search;
