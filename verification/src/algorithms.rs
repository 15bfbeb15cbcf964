//! The sorting routines, one module per selectable algorithm.

pub mod insertion_sort;
pub mod merge_sort;
pub mod quick_sort;
