//! Lazy sorting: the elements of a finite input come out one at a time, in
//! ascending order, and each pull does only the partitioning that the next
//! element needs.
//!
//! `sorted`, `sorted_partial` and `SortedBy::sorted_by` take what an iterator
//! yields and hand back a `LazySortIterator`. Its `next` pulls one element,
//! its `collect` all that are left.
//!
//! The contracts speak of the order that a comparator stands for (`order`,
//! `policy`) and of the engine as a function of its buffer (`model`). What
//! follows from them for a whole drain and for its start is in `laws`.

pub mod bag;
pub mod engine;
pub mod laws;
pub mod layers;
pub mod model;
pub mod order;
pub mod policy;

pub use engine::{pivot, sorted, sorted_partial, LazySortIterator, SortedBy};
pub use policy::{partial_cmp_first, partial_cmp_last};
