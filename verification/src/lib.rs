//! A compact weighted graph held in two flat arenas, with four searches over
//! it: depth-first, breadth-first, uniform-cost and heuristic.
//!
//! A graph is built from nodes and then edges; nothing is ever removed. Each
//! search takes a source and a target, marks the nodes that it visits with
//! the rank of their visit, and returns a cost and a path.

pub mod graph;
