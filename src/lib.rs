//! Classic searching and sorting routines, with an adjacency-list graph and a
//! binary search tree node, each proved against its contract.

pub mod graph;
pub mod order;
pub mod searching;
pub mod sorting;
pub mod tree;

pub use crate::graph::Graph;
pub use crate::searching::{binary_search, linear_search};
pub use crate::sorting::{bubble_sort, heap_sort, insertion_sort, merge_sort, quick_sort, selection_sort};
pub use crate::tree::TreeNode;
