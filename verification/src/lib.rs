//! A generic binary min-heap.
//!
//! [`MinHeap<T>`] keeps its elements in a growable array laid out as an
//! implicit binary tree and always exposes the smallest element at the root.
//! The element type only needs a [`PartialOrd`] comparison and cheap copying;
//! every guarantee that depends on the comparison behaving like a total order
//! is stated under the [`total_order`] hypothesis, which holds for all
//! primitive integer types.

mod heap;
mod order;

pub use heap::{is_heap, lemma_root_is_min, parent_index, MinHeap};
pub use order::{le_spec, lt_spec, sorted_le, total_order};
pub use order::{lemma_order_embedding_agrees, lemma_sorted_permutation_unique};
