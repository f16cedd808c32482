//! The graph contract and the storage strategies that satisfy it.

pub mod adjlist;
pub mod adjmatrix;
pub mod chance;
pub mod contract;
pub mod dimacs;
pub mod edgelist;
pub mod edgeset;
pub mod growableadjmatrix;
pub mod hybrid;
pub mod laws;
pub mod model;
pub mod unique;

pub use self::adjlist::AdjList;
pub use self::adjmatrix::AdjMatrix;
pub use self::contract::{FromGraph, StaticGraph};
pub use self::dimacs::{load_graph, LoadError};
pub use self::edgelist::EdgeList;
pub use self::edgeset::Graph;
pub use self::growableadjmatrix::GrowableAdjMatrix;
pub use self::hybrid::Hybrid;
pub use self::model::GraphView;
