//! Sorted-integer-set intersection primitives for postings-list style
//! workloads: an adaptive two-way intersection (linear merge vs. galloping
//! search, chosen by relative input sizes) and a k-way driver that reduces a
//! collection of sorted sets pairwise, smallest first, with early termination.

pub mod intersect;
pub mod laws;
pub mod sets;

pub use crate::intersect::intersect_multi;

