//! Flow networks: the graph type, the max-flow solver trait, cuts and Dinic's algorithm.
pub mod cut;
pub mod dinic;
pub mod graph;
pub mod traits;

pub use self::dinic::DinicSolver;
pub use self::graph::AdjacencyListFlowGraph;
pub use self::traits::{FlowGraph, MaxFlowError, MaxFlowSolver, MinCut, OriginalGraphView};
