//! A bunch of advanced collections.

pub mod consecutive_sums;
pub mod counter;
pub mod disjoint_set;
pub mod prefix_sum;

pub use consecutive_sums::ConsecutiveSums;
pub use counter::Counter;
pub use disjoint_set::DisjointSet;
pub use prefix_sum::PrefixSum;
