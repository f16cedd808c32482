//! Undirected simple graphs behind one storage-independent contract, and
//! greedy vertex-colouring heuristics written against that contract alone.
//!
//! [`graph`] holds the contract, [`graph::StaticGraph`], the model that
//! its clauses speak of, [`graph::GraphView`], and five representations
//! that satisfy it: an adjacency list, a fixed and a growable adjacency
//! matrix, a set of edges, and a hybrid of list and set. It also reads
//! graphs from DIMACS text.
//!
//! [`coloring`] holds the greedy colouring primitive, five heuristics that
//! differ in the order in which they colour the vertices, a two-colouring
//! by breadth-first search, and the checks that tell a proper colouring
//! and count its colours. Every heuristic is proved to return a proper
//! colouring with at most one colour more than the largest degree.

pub mod coloring;
pub mod graph;
