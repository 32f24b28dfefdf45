//! Small classic data structures, verified: an array-backed priority heap
//! with a pluggable ordering rule, a queue, a stack built from two queues,
//! a singly linked list, a binary search tree, and a sorting routine.

pub mod bst;
pub mod heap;
pub mod list;
pub mod order;
pub mod queue;
pub mod sorting;
pub mod vecops;
