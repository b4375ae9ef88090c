//! Two small verified data structures: a sorted singly linked list with an
//! in-order merge, and an undirected graph with an iterative depth-first
//! traversal.

pub mod graph;
pub mod list;
