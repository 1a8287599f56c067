//! Core graph data structures and queries.

pub mod edge;
pub mod filter;
pub mod node;
pub mod query;
pub mod store;

pub use edge::Edge;
pub use node::Node;
pub use store::GraphStore;
