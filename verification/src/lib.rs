//! A step-recording sort engine for animating classic sorting algorithms.
//!
//! Each sorting routine works in place on a vector and appends full
//! snapshots of the vector ("steps") to a step log as it goes, so that a
//! playback driver can later replay the sort one recorded step at a time.

pub mod algorithms;
pub mod driver;
pub mod fault;
pub mod order;
pub mod steps;

pub use crate::algorithms::insertion_sort::insertion_sort;
pub use crate::algorithms::merge_sort::merge_sort;
pub use crate::algorithms::quick_sort::quick_sort;
pub use crate::driver::Algorithm;
pub use crate::driver::App;
pub use crate::driver::run_algorithm;
pub use crate::fault::SortError;
pub use crate::order::Keyed;
pub use crate::order::SortOrd;
