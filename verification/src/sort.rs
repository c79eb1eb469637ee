//! Sorting and related algorithms.

pub mod counting_sort;
pub mod find_first;
pub mod first_unordered;
pub mod is_ordered;
pub mod is_sorted;
pub mod longest_subsequence;
pub mod longest_substring;
pub mod order;
pub mod quick_sort;
pub mod shuffle;

pub use counting_sort::counting_sort;
pub use counting_sort::counting_sort_by;
pub use find_first::find_first_asc;
pub use find_first::find_first_by;
pub use find_first::find_first_desc;
pub use find_first::find_first_wasc;
pub use find_first::find_first_wdesc;
pub use first_unordered::first_unordered;
pub use first_unordered::first_unordered_by;
pub use is_ordered::is_ordered;
pub use is_ordered::is_ordered_by;
pub use is_sorted::is_sorted_asc;
pub use is_sorted::is_sorted_asc_weak;
pub use is_sorted::is_sorted_by;
pub use is_sorted::is_sorted_desc;
pub use is_sorted::is_sorted_desc_weak;
pub use longest_subsequence::longest_ordered_subsequence;
pub use longest_subsequence::longest_ordered_subsequence_by;
pub use longest_substring::longest_ordered_substring;
pub use longest_substring::longest_ordered_substring_by;
pub use longest_substring::longest_ordered_substring_idx;
pub use longest_substring::longest_ordered_substring_idx_by;
pub use order::Order;
pub use order::SortingOrder;
pub use quick_sort::quick_sort;
pub use quick_sort::quick_sort_by;
pub use quick_sort::quick_sort_rand;
pub use quick_sort::quick_sort_rand_by;
pub use shuffle::shuffle;
