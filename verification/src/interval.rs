//! Modeling mathematical intervals.

pub mod trait_impl;
pub mod traits;

use crate::set::contiguous_integer_set::ContiguousIntegerSet;
use vstd::prelude::*;

verus! {

pub type IntInterval = ContiguousIntegerSet;

pub type I64Interval = ContiguousIntegerSet;

} // verus!
