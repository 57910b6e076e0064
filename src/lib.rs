//! Stable, comparator-driven in-place sorting: an insertion sort and a merge
//! sort, each with a natural-order entry point and one that takes a strict
//! less-than predicate.
pub mod insertion_sort;
pub mod merge_sort;
pub mod order;

pub use insertion_sort::{insertion_sort, insertion_sort_by};
pub use merge_sort::{merge_sort, merge_sort_by};
