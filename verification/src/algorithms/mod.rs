//! Tree construction algorithms.
pub mod gusfield;

pub use self::gusfield::{gusfield_tree, GomoryHuError};
