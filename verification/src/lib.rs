//! Merge sort over any element type with a partial order: a sequential
//! engine, and a fan-out controller that halves a thread budget together with
//! the data. A sort returns the sorted copy of its input, or fails as a whole
//! where two elements that it has to order are incomparable.

pub mod failure;
pub mod order;
pub mod merge;
pub mod engine;
pub mod fanout;
pub mod laws;
pub mod stability;

pub use crate::engine::merge_sort;
pub use crate::failure::MergeResult;
pub use crate::fanout::merge_sort_parallel;
