//! Node type definition.

use vstd::prelude::*;

verus! {

/// A knowledge graph node.
///
/// The `id` is an opaque unique key; `node_type` and `domain` are open
/// string categories. All remaining fields are free-form display metadata
/// and never influence the graph algorithms.
#[derive(Debug, Clone, PartialEq, Eq)]
pub struct Node {
    /// Unique identifier.
    pub id: String,
    /// Node category (proposition, theorem, axiom, ...).
    pub node_type: String,
    /// Primary domain (philosophy, mathematics, physics, ...).
    pub domain: String,
    /// Short, human-readable title.
    pub title: String,
    /// Natural language explanation or statement.
    pub content: Option<String>,
    /// Formal representation (logic, math notation, ...).
    pub formal: Option<String>,
    /// Tags for categorization and search.
    pub tags: Vec<String>,
    /// Custom structured metadata, carried as opaque text.
    pub metadata: Option<String>,
    /// Citations, references, or source identifiers.
    pub sources: Vec<String>,
    /// Timestamp of node creation.
    pub created: Option<String>,
    /// Timestamp of last update.
    pub updated: Option<String>,
}

} // verus!
