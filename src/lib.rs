//! A binary heap ordered by a pluggable comparison rule, and a weighted
//! undirected graph kept as an adjacency table.
pub mod graph;
pub mod heap;
