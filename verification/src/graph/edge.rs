//! Edge type definition and the epistemic relation filters.

use vstd::prelude::*;

verus! {

/// A knowledge graph edge.
///
/// `from` and `to` name node ids; they are not required to exist at
/// insertion time. Edges whose endpoints never resolve are kept in
/// storage but excluded when the adjacency index is (re)built.
#[derive(Debug, Clone, PartialEq, Eq)]
pub struct Edge {
    /// Source node id.
    pub from: String,
    /// Target node id.
    pub to: String,
    /// Relation kind (supports, proves, attacks, ...).
    pub relation: String,
    /// Domain of the relation.
    pub domain: String,
    /// Optional strength in thousandths (0 stands for 0.0, 1000 for 1.0).
    pub weight: Option<u32>,
}

/// The depth-relevant relation set: these edges count as argumentative
/// support when layering nodes by epistemic depth.
pub open spec fn is_depth_relation(r: Seq<char>) -> bool {
    ||| r == "supports"@
    ||| r == "proves"@
    ||| r == "entails"@
}

/// The foundation-detection relation set used by load-bearing analysis.
/// It deliberately also admits `predicts`, unlike the depth set.
pub open spec fn is_foundation_relation(r: Seq<char>) -> bool {
    ||| is_depth_relation(r)
    ||| r == "predicts"@
}

/// Runtime test for membership in the depth-relevant relation set.
pub fn depth_relation(r: &String) -> (b: bool)
    ensures
        b == is_depth_relation(r@),
{
    let supports: String = "supports".to_owned();
    let proves: String = "proves".to_owned();
    let entails: String = "entails".to_owned();
    *r == supports || *r == proves || *r == entails
}

/// Runtime test for membership in the foundation-detection relation set.
pub fn foundation_relation(r: &String) -> (b: bool)
    ensures
        b == is_foundation_relation(r@),
{
    let predicts: String = "predicts".to_owned();
    depth_relation(r) || *r == predicts
}

} // verus!
