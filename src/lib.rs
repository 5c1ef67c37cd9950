//! A binary heap whose order is chosen at construction, and a weighted undirected graph,
//! with their contracts and laws proved by Verus.

pub mod graph;
pub mod heap;
