//! Shared helpers used by the algorithms in this crate.

pub mod lemmas;
pub mod pair_iter;
pub mod partition;
pub(crate) mod random;

pub use pair_iter::PairIterator;
pub use partition::partition;
pub use partition::partition_rand;
