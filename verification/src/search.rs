//! Searching algorithms.

pub mod binary;
pub mod binary_first;
pub mod binary_search;
pub mod interpolation_search;
pub mod quick_select;

pub use binary::binary_asc;
pub use binary::binary_desc;
pub use binary_first::binary_first_by;
pub use binary_search::binary_search;
pub use binary_search::binary_search_by;
pub use interpolation_search::interpolation_search;
pub use interpolation_search::interpolation_search_asc;
pub use interpolation_search::interpolation_search_by;
pub use quick_select::quick_select;
pub use quick_select::quick_select_by;
pub use quick_select::quick_select_rand;
pub use quick_select::quick_select_rand_by;
