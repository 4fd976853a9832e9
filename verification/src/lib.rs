//! Gomory-Hu cut trees built with Gusfield's algorithm, on top of a Dinic
//! max-flow solver, with all-pairs minimum-cut queries answered from the tree.
//!
//! Capacities are unsigned 64-bit integers, so every flow and cut value is exact.
//! The value `u64::MAX` stands for an infinite cut (see
//! [`tree::GomoryHuTree::min_cut_value`]).
pub mod algorithms;
pub mod connectivity;
pub mod equivalence;
pub mod flow;
pub mod forest;
pub mod properties;
pub mod tree;
pub mod utils;

pub use algorithms::{gusfield_tree, GomoryHuError};
pub use flow::{AdjacencyListFlowGraph, DinicSolver, MaxFlowError, MaxFlowSolver};
pub use tree::{GomoryHuTree, TreeEdge};
