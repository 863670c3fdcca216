//! Binary heaps over a contiguous array, with a pluggable ordering.
//!
//! [`VecHeap`] stores its elements in a plain `Vec`. [`IndexableHeap`]
//! additionally hands out a stable handle for every pushed element, through
//! which the element can later be read, changed or removed wherever sifting
//! has moved it.
mod capacity;
pub mod ordering;
mod hole;
pub mod indexable_heap;
pub mod laws;
mod indexable_vec;
mod raw_heap;
mod sift;
mod storage;
pub mod tree;
pub mod vec_heap;

pub use crate::indexable_heap::IndexableHeap;
pub use crate::ordering::{MaxHeap, MinHeap};
pub use crate::vec_heap::VecHeap;
