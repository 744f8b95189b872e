//! Five small, independent data structures and algorithms, each with a verified
//! contract: an in-place insertion sort, a singly linked list with a sorted merge,
//! a binary search tree, breadth-first traversal of an undirected graph, and a
//! binary heap that serves as a min-heap or a max-heap.
//!
//! Everything that compares elements does so through the comparison operators of
//! the element type. The module [`order`] names what those operators compute and
//! states the laws under which the contracts promise an ordered result.

pub mod order;
pub mod seqs;
pub mod sort;
pub mod linked_list;
pub mod bst;
pub mod bfs;
pub mod heap;
