//! A collection of verified algorithms and data structures for algorithmic
//! problem solving: partitioning, quickselect, medians, quicksort, counting
//! sort, binary and interpolation search, longest ordered subsequences and
//! substrings, prefix sums, Kadane's maximum consecutive sum, a counter and a
//! disjoint-set (union-find) structure.
#![allow(unused_imports)]

pub mod sort;
pub mod search;
pub mod collections;
pub mod math;
pub mod utils;
