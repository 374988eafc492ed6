//! An in-memory directed/undirected graph store with the classic algorithms
//! built on it: depth- and breadth-first traversal, minimum-spanning-tree
//! construction (Prim, Kruskal), and connected-component partitioning via a
//! union-find structure.

pub mod algorithms;
pub mod disjoint_set;
pub mod graph;
pub mod reach;
