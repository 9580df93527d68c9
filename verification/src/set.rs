//! Exact integer sets represented as collections of closed intervals.

pub mod contiguous_integer_set;
pub mod ordered_integer_set;
pub mod trait_impl;
pub mod traits;
