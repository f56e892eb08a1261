//! Graph algorithms and supporting data structures for timed problem
//! solving: a directed/undirected graph with stable edge indices,
//! breadth-first shortest hop counts, weighted shortest distances by
//! priority relaxation, a disjoint-set union with size tracking, and a
//! total-order adapter for partially ordered values.

pub mod dsu;
pub mod graph;
pub mod tokens;
pub mod total_ord;

pub use dsu::DSU;
pub use total_ord::TotalOrd;
