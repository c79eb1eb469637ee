//! Mathematical algorithms.

pub mod max_consecutive_sum;
pub mod median;
pub mod prefix_sum;

pub use max_consecutive_sum::max_consecutive_sum;
pub use max_consecutive_sum::max_consecutive_sum_idx;
pub use median::median;
pub use median::median_avg;
pub use median::median_avg_rand;
pub use median::median_rand;
pub use prefix_sum::PrefixSum;
