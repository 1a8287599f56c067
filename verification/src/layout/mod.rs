//! Layout computations derived from the graph structure.

pub mod depth;
