//! Load-bearing analysis.
//!
//! The load-bearing score of a node is the fraction of all graph nodes
//! that would lose *every* path from a foundation if the node were
//! removed. A foundation here is a node with no incoming edge among
//! `supports`, `proves`, `entails`, `predicts` — deliberately one
//! relation more than the depth layering set. High scores mark pillars:
//! removing them orphans large parts of the graph.

use vstd::prelude::*;

use crate::graph::edge::foundation_relation;
use crate::graph::edge::is_foundation_relation;
use crate::graph::query::spec_admissible;
use crate::graph::store::GraphStore;

verus! {

/// Number of foundation-relevant edges among the first `k` that point
/// at node `v`. An edge counts when its relation is in the foundation
/// set and its target id resolves to `v`, whether or not its source
/// resolves.
pub open spec fn foundation_in_degree_upto(g: GraphStore, v: int, k: int) -> int
    decreases k,
{
    if k <= 0 {
        0
    } else {
        foundation_in_degree_upto(g, v, k - 1) + if is_foundation_relation(
            g.edges@[k - 1].relation@,
        ) && g.has_id(g.edges@[k - 1].to@) && g.idx_of(g.edges@[k - 1].to@) == v {
            1int
        } else {
            0int
        }
    }
}

/// Number of foundation-relevant edges pointing at node `v`.
pub open spec fn foundation_in_degree(g: GraphStore, v: int) -> int {
    foundation_in_degree_upto(g, v, g.edges@.len() as int)
}

/// Node `f` is a foundation: no incoming foundation-relevant edge.
pub open spec fn spec_foundation(g: GraphStore, f: usize) -> bool {
    (f as int) < g.n() && foundation_in_degree(g, f as int) == 0
}

/// `j` is a proper descendant of `a`: reachable from `a` via outgoing
/// edges of any relation, and not `a` itself.
pub open spec fn spec_descendant(g: GraphStore, a: usize, j: usize) -> bool {
    j != a && g.reaches(a, j, Option::None)
}

/// A path from `s` to `e` exists that avoids `x` entirely; trivially
/// true when `s == e`, and false when the avoided node is an endpoint.
pub open spec fn spec_has_path_avoiding(g: GraphStore, s: usize, e: usize, x: usize) -> bool {
    if s == e {
        true
    } else if s == x || e == x {
        false
    } else {
        g.reaches(s, e, Option::Some(x))
    }
}

/// Descendant `d` would be orphaned by removing `rm`: some foundation
/// reaches it now, but no foundation reaches it while avoiding `rm`.
pub open spec fn spec_orphaned_by(g: GraphStore, d: usize, rm: usize) -> bool {
    &&& forall|f: usize| #[trigger]
        spec_foundation(g, f) ==> !spec_has_path_avoiding(g, f, d, rm)
    &&& exists|f: usize| #[trigger] spec_foundation(g, f) && g.reaches(f, d, Option::None)
}

/// Number of nodes among the first `k` that are descendants of `rm`
/// and would be orphaned by removing it.
pub open spec fn orphan_count_upto(g: GraphStore, rm: usize, k: int) -> int
    decreases k,
{
    if k <= 0 {
        0
    } else {
        orphan_count_upto(g, rm, k - 1) + if spec_descendant(g, rm, (k - 1) as usize)
            && spec_orphaned_by(g, (k - 1) as usize, rm) {
            1int
        } else {
            0int
        }
    }
}

proof fn lemma_foundation_upto_nonneg(g: GraphStore, v: int, k: int)
    ensures
        foundation_in_degree_upto(g, v, k) >= 0,
    decreases k,
{
    if k > 0 {
        lemma_foundation_upto_nonneg(g, v, k - 1);
    }
}

/// The load-bearing measurement for one node: how many descendants
/// would be orphaned by its removal, out of how many graph nodes in
/// total. The score of the node is the ratio of the two.
#[derive(Debug, Clone, Copy, PartialEq, Eq, Structural)]
pub struct LoadBearing {
    /// Number of descendants orphaned by removing the node.
    pub orphaned: usize,
    /// Total number of nodes in the graph.
    pub total: usize,
}

/// Finds all foundation nodes: those with zero incoming
/// foundation-relevant edges. Returned in ascending index order.
pub fn find_foundation_nodes(graph: &GraphStore) -> (result: Vec<usize>)
    requires
        graph.well_formed(),
    ensures
        forall|t: int|
            0 <= t < result@.len() ==> spec_foundation(*graph, #[trigger] result@[t]),
        forall|v: usize|
            spec_foundation(*graph, v) ==> #[trigger] result@.contains(v),
        forall|t1: int, t2: int| 0 <= t1 < t2 < result@.len() ==> result@[t1] < result@[t2],
{
    let n = graph.nodes.len();
    let m = graph.edges.len();
    let mut in_degree: Vec<usize> = Vec::new();
    let mut j: usize = 0;
    while j < n
        invariant
            j <= n,
            in_degree@.len() == j,
            forall|x: int| 0 <= x < j ==> (#[trigger] in_degree@[x]) == 0,
        decreases n - j,
    {
        in_degree.push(0);
        j = j + 1;
    }
    let mut k: usize = 0;
    while k < m
        invariant
            graph.well_formed(),
            n == graph.n(),
            m == graph.edges@.len(),
            k <= m,
            in_degree@.len() == n,
            forall|v: int|
                0 <= v < n ==> (#[trigger] in_degree@[v]) as int == foundation_in_degree_upto(
                    *graph,
                    v,
                    k as int,
                ),
            forall|v: int| 0 <= v < n ==> (#[trigger] in_degree@[v]) <= k,
        decreases m - k,
    {
        let relevant = foundation_relation(&graph.edges[k].relation);
        if relevant {
            match graph.node_index(graph.edges[k].to.as_str()) {
                Option::Some(tv) => {
                    in_degree[tv] = in_degree[tv] + 1;
                    proof {
                        let e = graph.edges@[k as int];
                        assert forall|v: int| 0 <= v < n implies (#[trigger] in_degree@[v]) as int
                            == foundation_in_degree_upto(*graph, v, k as int + 1) by {
                            if v != tv as int {
                                assert(!(graph.idx_of(e.to@) == v));
                            }
                        }
                    }
                },
                Option::None => {
                    proof {
                        assert forall|v: int| 0 <= v < n implies (#[trigger] in_degree@[v]) as int
                            == foundation_in_degree_upto(*graph, v, k as int + 1) by {}
                    }
                },
            }
        } else {
            proof {
                assert forall|v: int| 0 <= v < n implies (#[trigger] in_degree@[v]) as int
                    == foundation_in_degree_upto(*graph, v, k as int + 1) by {}
            }
        }
        k = k + 1;
    }
    let mut result: Vec<usize> = Vec::new();
    let mut i: usize = 0;
    while i < n
        invariant
            n == graph.n(),
            in_degree@.len() == n,
            forall|v: int|
                0 <= v < n ==> (#[trigger] in_degree@[v]) as int == foundation_in_degree(
                    *graph,
                    v,
                ),
            i <= n,
            forall|t: int|
                0 <= t < result@.len() ==> spec_foundation(*graph, #[trigger] result@[t])
                    && (result@[t] as int) < i,
            forall|v: usize|
                (v as int) < i && spec_foundation(*graph, v) ==> #[trigger] result@.contains(v),
            forall|t1: int, t2: int| 0 <= t1 < t2 < result@.len() ==> result@[t1] < result@[t2],
        decreases n - i,
    {
        let ghost rpre = result@;
        if in_degree[i] == 0 {
            result.push(i);
            proof {
                lemma_foundation_upto_nonneg(*graph, i as int, graph.edges@.len() as int);
                assert(result@[result@.len() - 1] == i);
            }
        }
        proof {
            assert forall|v: usize|
                (v as int) < i + 1 && spec_foundation(*graph, v) implies #[trigger] result@.contains(
                v,
            ) by {
                if (v as int) < i {
                    assert(rpre.contains(v));
                    let t = choose|t: int| 0 <= t < rpre.len() && rpre[t] == v;
                    assert(result@[t] == v);
                    assert(result@.contains(v));
                } else {
                    assert(v == i);
                    assert(in_degree@[v as int] as int == foundation_in_degree(*graph, v as int));
                    assert(in_degree@[i as int] == 0);
                    assert(result@[result@.len() - 1] == i);
                    assert(result@.contains(v));
                }
            }
        }
        i = i + 1;
    }
    result
}

/// Is there a path from `start_idx` to `end_idx` over the adjacency
/// index? A node trivially reaches itself.
pub fn has_path(graph: &GraphStore, start_idx: usize, end_idx: usize) -> (r: bool)
    requires
        graph.well_formed(),
        (start_idx as int) < graph.n(),
        (end_idx as int) < graph.n(),
    ensures
        r == graph.reaches(start_idx, end_idx, Option::None),
{
    if start_idx == end_idx {
        proof {
            let p = seq![start_idx];
            assert(graph.is_path(p) && p[0] == start_idx && p.last() == end_idx
                && crate::graph::query::path_avoids(p, Option::None));
        }
        return true;
    }
    let visited = graph.reach_set(start_idx, None);
    visited[end_idx]
}

/// Is there a path from `start_idx` to `end_idx` that avoids
/// `avoid_idx` entirely? Equal endpoints trivially succeed; an avoided
/// endpoint trivially fails.
pub fn has_path_avoiding_node(
    graph: &GraphStore,
    start_idx: usize,
    end_idx: usize,
    avoid_idx: usize,
) -> (r: bool)
    requires
        graph.well_formed(),
        (start_idx as int) < graph.n(),
        (end_idx as int) < graph.n(),
    ensures
        r == spec_has_path_avoiding(*graph, start_idx, end_idx, avoid_idx),
{
    if start_idx == end_idx {
        return true;
    }
    if start_idx == avoid_idx || end_idx == avoid_idx {
        return false;
    }
    let visited = graph.reach_set(start_idx, Some(avoid_idx));
    visited[end_idx]
}

/// Would removing `removed_idx` cut descendant `descendant_idx` off
/// from every foundation it can currently be reached from?
pub fn would_lose_all_foundations(
    graph: &GraphStore,
    descendant_idx: usize,
    removed_idx: usize,
) -> (r: bool)
    requires
        graph.well_formed(),
        (descendant_idx as int) < graph.n(),
        (removed_idx as int) < graph.n(),
    ensures
        r == spec_orphaned_by(*graph, descendant_idx, removed_idx),
{
    let foundations = find_foundation_nodes(graph);
    let flen = foundations.len();
    let mut fi: usize = 0;
    while fi < flen
        invariant
            graph.well_formed(),
            (descendant_idx as int) < graph.n(),
            (removed_idx as int) < graph.n(),
            flen == foundations@.len(),
            fi <= flen,
            forall|t: int|
                0 <= t < flen ==> spec_foundation(*graph, #[trigger] foundations@[t]),
            forall|v: usize|
                spec_foundation(*graph, v) ==> #[trigger] foundations@.contains(v),
            forall|t: int|
                0 <= t < fi ==> !spec_has_path_avoiding(
                    *graph,
                    #[trigger] foundations@[t],
                    descendant_idx,
                    removed_idx,
                ),
        decreases flen - fi,
    {
        let f = foundations[fi];
        let avoiding = has_path_avoiding_node(graph, f, descendant_idx, removed_idx);
        if avoiding {
            proof {
                assert(spec_foundation(*graph, f));
                assert(!spec_orphaned_by(*graph, descendant_idx, removed_idx));
            }
            return false;
        }
        fi = fi + 1;
    }
    proof {
        assert forall|f: usize| #[trigger]
            spec_foundation(*graph, f) implies !spec_has_path_avoiding(
            *graph,
            f,
            descendant_idx,
            removed_idx,
        ) by {
            assert(foundations@.contains(f));
            let t = choose|t: int| 0 <= t < foundations@.len() && foundations@[t] == f;
            assert(!spec_has_path_avoiding(
                *graph,
                foundations@[t],
                descendant_idx,
                removed_idx,
            ));
        }
    }
    let mut fi2: usize = 0;
    while fi2 < flen
        invariant
            graph.well_formed(),
            (descendant_idx as int) < graph.n(),
            (removed_idx as int) < graph.n(),
            flen == foundations@.len(),
            fi2 <= flen,
            forall|t: int|
                0 <= t < flen ==> spec_foundation(*graph, #[trigger] foundations@[t]),
            forall|v: usize|
                spec_foundation(*graph, v) ==> #[trigger] foundations@.contains(v),
            forall|f: usize| #[trigger]
                spec_foundation(*graph, f) ==> !spec_has_path_avoiding(
                    *graph,
                    f,
                    descendant_idx,
                    removed_idx,
                ),
            forall|t: int|
                0 <= t < fi2 ==> !graph.reaches(
                    #[trigger] foundations@[t],
                    descendant_idx,
                    Option::None,
                ),
        decreases flen - fi2,
    {
        let f = foundations[fi2];
        let reachable = has_path(graph, f, descendant_idx);
        if reachable {
            proof {
                assert(spec_foundation(*graph, f) && graph.reaches(
                    f,
                    descendant_idx,
                    Option::None,
                ));
                assert(spec_orphaned_by(*graph, descendant_idx, removed_idx));
            }
            return true;
        }
        fi2 = fi2 + 1;
    }
    proof {
        if spec_orphaned_by(*graph, descendant_idx, removed_idx) {
            let f = choose|f: usize| #[trigger]
                spec_foundation(*graph, f) && graph.reaches(f, descendant_idx, Option::None);
            assert(foundations@.contains(f));
            let t = choose|t: int| 0 <= t < foundations@.len() && foundations@[t] == f;
            assert(!graph.reaches(foundations@[t], descendant_idx, Option::None));
            assert(false);
        }
    }
    false
}

/// Computes the load-bearing measurement for the node named by
/// `node_id`: the number of its descendants that would lose every
/// foundation path if it were removed, over the total node count.
///
/// The count is 0 for a graph with at most one node, for an unknown id,
/// and for a node with no outgoing edges (a leaf has no descendants).
pub fn compute_load_bearing(graph: &GraphStore, node_id: &str) -> (result: LoadBearing)
    requires
        graph.well_formed(),
    ensures
        result.total as int == graph.n(),
        graph.n() <= 1 ==> result.orphaned == 0,
        !graph.has_id(node_id@) ==> result.orphaned == 0,
        graph.has_id(node_id@) && graph.n() > 1 ==> result.orphaned as int == orphan_count_upto(
            *graph,
            graph.idx_of(node_id@) as usize,
            graph.n(),
        ),
        graph.has_id(node_id@) && graph.out_edges@[graph.idx_of(node_id@)]@.len() == 0
            ==> result.orphaned == 0,
{
    let total = graph.node_count();
    if total <= 1 {
        return LoadBearing { orphaned: 0, total };
    }
    let idx = match graph.node_index(node_id) {
        Option::Some(i) => i,
        Option::None => {
            return LoadBearing { orphaned: 0, total };
        },
    };
    let descendants = graph.reach_set(idx, None);
    let n = total;
    let mut orphaned: usize = 0;
    let mut j: usize = 0;
    while j < n
        invariant
            graph.well_formed(),
            n == graph.n(),
            (idx as int) < graph.n(),
            descendants@.len() == n,
            forall|x: int|
                0 <= x < n ==> ((#[trigger] descendants@[x]) <==> graph.reaches(
                    idx,
                    x as usize,
                    Option::None,
                )),
            j <= n,
            orphaned <= j,
            orphaned as int == orphan_count_upto(*graph, idx, j as int),
        decreases n - j,
    {
        if j != idx && descendants[j] {
            let lose = would_lose_all_foundations(graph, j, idx);
            if lose {
                orphaned = orphaned + 1;
            }
            proof {
                assert(spec_descendant(*graph, idx, j));
                assert(orphan_count_upto(*graph, idx, j as int + 1) == orphan_count_upto(
                    *graph,
                    idx,
                    j as int,
                ) + if spec_descendant(*graph, idx, j) && spec_orphaned_by(*graph, j, idx) {
                    1int
                } else {
                    0int
                });
            }
        } else {
            proof {
                if j == idx {
                    assert(!spec_descendant(*graph, idx, j));
                } else {
                    assert(!graph.reaches(idx, j, Option::None));
                    assert(!spec_descendant(*graph, idx, j));
                }
            }
        }
        j = j + 1;
    }
    proof {
        if graph.out_edges@[idx as int]@.len() == 0 && orphaned > 0 {
            lemma_orphan_count_needs_descendant(*graph, idx, n as int);
        }
    }
    LoadBearing { orphaned, total }
}

/// With no outgoing adjacency row, a node has no descendants and its
/// orphan count is zero.
proof fn lemma_orphan_count_needs_descendant(g: GraphStore, rm: usize, k: int)
    requires
        (rm as int) < g.n(),
        g.out_edges@[rm as int]@.len() == 0,
    ensures
        orphan_count_upto(g, rm, k) == 0,
    decreases k,
{
    if k > 0 {
        lemma_orphan_count_needs_descendant(g, rm, k - 1);
        let j = (k - 1) as usize;
        if spec_descendant(g, rm, j) {
            let p = choose|p: Seq<usize>|
                {
                    &&& #[trigger] g.is_path(p)
                    &&& p[0] == rm
                    &&& p.last() == j
                    &&& crate::graph::query::path_avoids(p, Option::None)
                };
            if p.len() == 1 {
                assert(p.last() == p[0]);
                assert(false);
            } else {
                let k0: int = 0;
                assert(0 <= k0 < p.len() - 1);
                assert(g.row(p[k0] as int).contains(p[k0 + 1]));
                assert(g.row(rm as int).contains(p[1]));
                assert(false);
            }
        }
    }
}

} // verus!
