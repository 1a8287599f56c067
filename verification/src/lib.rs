//! Core engine for a directed, typed knowledge graph.
//!
//! Propositions, theorems, axioms and the like are stored as [`Node`]s,
//! connected by typed [`Edge`]s (`supports`, `proves`, `attacks`, ...).
//! The [`GraphStore`] owns all nodes and edges and maintains a derived
//! adjacency index; on top of it the library computes structural metrics:
//! topological epistemic depth, k-hop reachability, simple-path
//! enumeration, and a per-node load-bearing (criticality) score.
//!
//! - `graph`: core data structures (`Node`, `Edge`, `GraphStore`) and queries
//! - `layout`: epistemic depth layering
//! - `analysis`: load-bearing analysis

pub mod analysis;
pub mod graph;
pub mod layout;

pub use graph::edge::Edge;
pub use graph::node::Node;
pub use graph::store::GraphStore;
