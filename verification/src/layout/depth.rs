//! Epistemic depth layering.
//!
//! A foundation node has no incoming edge whose relation belongs to the
//! depth-relevant set (`supports`, `proves`, `entails`); foundations sit
//! at depth 0 and every other node is layered by relaxation along
//! depth-relevant edges: a node settles one layer above the maximum
//! depth of its depth-relevant predecessors, once all of them have
//! settled. Nodes the layering cannot settle (members of relation
//! cycles with no entry point, or nodes behind a dangling relevant
//! edge) receive the fallback depth 1; that value is a placeholder, not
//! a meaningful depth.

use vstd::prelude::*;

use crate::graph::edge::depth_relation;
use crate::graph::edge::is_depth_relation;
use crate::graph::store::GraphStore;

verus! {

/// Number of depth-relevant edges among the first `k` that point at
/// node `v`. An edge counts when its relation is depth-relevant and its
/// target id resolves to `v`, whether or not its source resolves.
pub open spec fn depth_in_degree_upto(g: GraphStore, v: int, k: int) -> int
    decreases k,
{
    if k <= 0 {
        0
    } else {
        depth_in_degree_upto(g, v, k - 1) + if is_depth_relation(g.edges@[k - 1].relation@)
            && g.has_id(g.edges@[k - 1].to@) && g.idx_of(g.edges@[k - 1].to@) == v {
            1int
        } else {
            0int
        }
    }
}

/// Number of depth-relevant edges pointing at node `v`. Node `v` is a
/// foundation exactly when this is zero.
pub open spec fn depth_in_degree(g: GraphStore, v: int) -> int {
    depth_in_degree_upto(g, v, g.edges@.len() as int)
}

/// The depth at which the relaxation settles node `v` within `fuel`
/// rounds: a foundation settles at once with depth 0; a non-foundation
/// settles one layer above the maximum settled depth of its
/// depth-relevant predecessors, provided every such predecessor
/// resolves and settles a round earlier. `None` when `v` is not settled
/// within `fuel` rounds.
pub open spec fn settled_depth(g: GraphStore, v: int, fuel: nat) -> Option<int>
    decreases fuel, 0int,
{
    if depth_in_degree(g, v) == 0 {
        Option::Some(0)
    } else if fuel == 0 {
        Option::None
    } else {
        pred_layer(g, v, g.edges@.len() as int, (fuel - 1) as nat)
    }
}

/// One above the maximum settled depth over the depth-relevant edges
/// into `v` among the first `k` (at least 0 when no such edge occurs);
/// `None` when any such edge has an unresolvable source, or a source
/// not settled within `fuel` rounds.
pub open spec fn pred_layer(g: GraphStore, v: int, k: int, fuel: nat) -> Option<int>
    decreases fuel, k,
{
    if k <= 0 {
        Option::Some(0)
    } else {
        let rest = pred_layer(g, v, k - 1, fuel);
        let e = g.edges@[k - 1];
        if is_depth_relation(e.relation@) && g.has_id(e.to@) && g.idx_of(e.to@) == v {
            if g.has_id(e.from@) {
                match settled_depth(g, g.idx_of(e.from@), fuel) {
                    Option::Some(d) => match rest {
                        Option::Some(m) => Option::Some(
                            if m >= d + 1 {
                                m
                            } else {
                                d + 1
                            },
                        ),
                        Option::None => Option::None,
                    },
                    Option::None => Option::None,
                }
            } else {
                Option::None
            }
        } else {
            rest
        }
    }
}

/// `v` settles to depth `d` after some number of relaxation rounds.
pub open spec fn settles_to(g: GraphStore, v: int, d: int) -> bool {
    exists|fuel: nat| (#[trigger] settled_depth(g, v, fuel)) == Option::Some(d)
}

/// `v` is settled by the relaxation at some number of rounds.
pub open spec fn spec_settles(g: GraphStore, v: int) -> bool {
    exists|fuel: nat| (#[trigger] settled_depth(g, v, fuel)) is Some
}

/// Edge `x` blocks node `v` from settling, relative to a snapshot of
/// settled cells: it is depth-relevant into `v` and its source either
/// does not resolve or is itself unsettled in the snapshot.
pub open spec fn blocking_edge(
    g: GraphStore,
    cells: Seq<Option<usize>>,
    v: int,
    x: int,
) -> bool {
    &&& 0 <= x < g.edges@.len()
    &&& is_depth_relation(g.edges@[x].relation@)
    &&& g.has_id(g.edges@[x].to@)
    &&& g.idx_of(g.edges@[x].to@) == v
    &&& (!g.has_id(g.edges@[x].from@) || (0 <= g.idx_of(g.edges@[x].from@) < cells.len()
        && cells[g.idx_of(g.edges@[x].from@)] is None))
}

/// Some edge blocks `v` relative to the snapshot.
pub open spec fn blocked(g: GraphStore, cells: Seq<Option<usize>>, v: int) -> bool {
    exists|x: int| #[trigger] blocking_edge(g, cells, v, x)
}

/// Number of unsettled cells in a snapshot.
pub open spec fn count_unset(s: Seq<Option<usize>>) -> int
    decreases s.len(),
{
    if s.len() <= 0 {
        0
    } else {
        count_unset(s.drop_last()) + if s[s.len() - 1] is None {
            1int
        } else {
            0int
        }
    }
}

proof fn lemma_in_degree_upto_nonneg(g: GraphStore, v: int, k: int)
    ensures
        depth_in_degree_upto(g, v, k) >= 0,
    decreases k,
{
    if k > 0 {
        lemma_in_degree_upto_nonneg(g, v, k - 1);
    }
}

proof fn lemma_count_unset_bounds(s: Seq<Option<usize>>)
    ensures
        0 <= count_unset(s) <= s.len(),
    decreases s.len(),
{
    if s.len() > 0 {
        lemma_count_unset_bounds(s.drop_last());
    }
}

proof fn lemma_count_unset_pos(s: Seq<Option<usize>>, j: int)
    requires
        0 <= j < s.len(),
        s[j] is None,
    ensures
        count_unset(s) >= 1,
    decreases s.len(),
{
    if j == s.len() - 1 {
        lemma_count_unset_bounds(s.drop_last());
    } else {
        lemma_count_unset_pos(s.drop_last(), j);
    }
}

proof fn lemma_count_unset_update(s: Seq<Option<usize>>, j: int, value: usize)
    requires
        0 <= j < s.len(),
        s[j] is None,
    ensures
        count_unset(s.update(j, Option::Some(value))) == count_unset(s) - 1,
    decreases s.len(),
{
    let su = s.update(j, Option::Some(value));
    if j == s.len() - 1 {
        assert(su.drop_last() =~= s.drop_last());
    } else {
        assert(su.drop_last() =~= s.drop_last().update(j, Option::Some(value)));
        lemma_count_unset_update(s.drop_last(), j, value);
        assert(su[su.len() - 1] == s[s.len() - 1]);
    }
}

/// Once settled, a node's depth never changes with more fuel.
proof fn lemma_settled_stable(g: GraphStore, v: int, f1: nat, f2: nat)
    requires
        f1 <= f2,
        settled_depth(g, v, f1) is Some,
    ensures
        settled_depth(g, v, f2) == settled_depth(g, v, f1),
    decreases f2, 0int,
{
    if depth_in_degree(g, v) == 0 {
    } else {
        assert(f1 > 0);
        if f2 > f1 {
            lemma_pred_layer_stable(
                g,
                v,
                g.edges@.len() as int,
                (f1 - 1) as nat,
                (f2 - 1) as nat,
            );
        }
    }
}

/// As `lemma_settled_stable`, for the predecessor-layer scan.
proof fn lemma_pred_layer_stable(g: GraphStore, v: int, k: int, f1: nat, f2: nat)
    requires
        f1 <= f2,
        pred_layer(g, v, k, f1) is Some,
    ensures
        pred_layer(g, v, k, f2) == pred_layer(g, v, k, f1),
    decreases f2, k,
{
    if k > 0 {
        let e = g.edges@[k - 1];
        if is_depth_relation(e.relation@) && g.has_id(e.to@) && g.idx_of(e.to@) == v {
            assert(g.has_id(e.from@));
            assert(settled_depth(g, g.idx_of(e.from@), f1) is Some);
            assert(pred_layer(g, v, k - 1, f1) is Some);
            lemma_settled_stable(g, g.idx_of(e.from@), f1, f2);
            lemma_pred_layer_stable(g, v, k - 1, f1, f2);
        } else {
            lemma_pred_layer_stable(g, v, k - 1, f1, f2);
        }
    }
}

/// A node settles to at most one depth.
proof fn lemma_settles_to_unique(g: GraphStore, v: int, d: int, fuel: nat)
    requires
        settles_to(g, v, d),
        settled_depth(g, v, fuel) is Some,
    ensures
        settled_depth(g, v, fuel) == Option::Some(d),
{
    let f0 = choose|f0: nat| (#[trigger] settled_depth(g, v, f0)) == Option::Some(d);
    if f0 <= fuel {
        lemma_settled_stable(g, v, f0, fuel);
    } else {
        lemma_settled_stable(g, v, fuel, f0);
    }
}

/// A settled depth is bounded by the fuel that settled it.
proof fn lemma_settled_bound(g: GraphStore, v: int, fuel: nat)
    ensures
        match settled_depth(g, v, fuel) {
            Option::Some(d) => 0 <= d <= fuel,
            Option::None => true,
        },
    decreases fuel, 0int,
{
    if depth_in_degree(g, v) != 0 && fuel > 0 {
        lemma_pred_layer_bound(g, v, g.edges@.len() as int, (fuel - 1) as nat);
    }
}

/// A predecessor layer is bounded by its fuel plus one.
proof fn lemma_pred_layer_bound(g: GraphStore, v: int, k: int, fuel: nat)
    ensures
        match pred_layer(g, v, k, fuel) {
            Option::Some(m) => 0 <= m <= fuel + 1,
            Option::None => true,
        },
    decreases fuel, k,
{
    if k > 0 {
        lemma_pred_layer_bound(g, v, k - 1, fuel);
        let e = g.edges@[k - 1];
        if is_depth_relation(e.relation@) && g.has_id(e.to@) && g.idx_of(e.to@) == v
            && g.has_id(e.from@) {
            lemma_settled_bound(g, g.idx_of(e.from@), fuel);
        }
    }
}

/// A non-foundation settles only to a positive depth.
proof fn lemma_pred_layer_pos(g: GraphStore, v: int, k: int, fuel: nat)
    requires
        depth_in_degree_upto(g, v, k) > 0,
    ensures
        match pred_layer(g, v, k, fuel) {
            Option::Some(m) => m >= 1,
            Option::None => true,
        },
    decreases k,
{
    if k > 0 {
        let e = g.edges@[k - 1];
        if is_depth_relation(e.relation@) && g.has_id(e.to@) && g.idx_of(e.to@) == v {
            if g.has_id(e.from@) {
                lemma_settled_bound(g, g.idx_of(e.from@), fuel);
            }
        } else {
            lemma_pred_layer_pos(g, v, k - 1, fuel);
        }
    }
}

/// When every unsettled cell of a snapshot has a blocking edge and all
/// foundations are settled, no unsettled cell ever settles, at any
/// fuel: the blockers sustain each other.
proof fn lemma_blocked_never_settles(
    g: GraphStore,
    cells: Seq<Option<usize>>,
    v: int,
    fuel: nat,
)
    requires
        cells.len() == g.n(),
        forall|v2: int|
            0 <= v2 < g.n() && (#[trigger] cells[v2]) is None ==> blocked(g, cells, v2),
        forall|v2: int|
            0 <= v2 < g.n() && depth_in_degree(g, v2) == 0 ==> (#[trigger] cells[v2]) is Some,
        0 <= v < g.n(),
        cells[v] is None,
    ensures
        settled_depth(g, v, fuel) is None,
    decreases fuel, 0int,
{
    assert(depth_in_degree(g, v) != 0);
    if fuel > 0 {
        assert(blocked(g, cells, v));
        let x = choose|x: int| #[trigger] blocking_edge(g, cells, v, x);
        lemma_blocked_pred_layer(g, cells, v, x, g.edges@.len() as int, (fuel - 1) as nat);
    }
}

/// A blocking edge below `k` keeps the predecessor layer unsettled.
proof fn lemma_blocked_pred_layer(
    g: GraphStore,
    cells: Seq<Option<usize>>,
    v: int,
    x: int,
    k: int,
    fuel: nat,
)
    requires
        cells.len() == g.n(),
        forall|v2: int|
            0 <= v2 < g.n() && (#[trigger] cells[v2]) is None ==> blocked(g, cells, v2),
        forall|v2: int|
            0 <= v2 < g.n() && depth_in_degree(g, v2) == 0 ==> (#[trigger] cells[v2]) is Some,
        blocking_edge(g, cells, v, x),
        x < k <= g.edges@.len(),
    ensures
        pred_layer(g, v, k, fuel) is None,
    decreases fuel, k,
{
    let e = g.edges@[k - 1];
    if x == k - 1 {
        if g.has_id(e.from@) {
            let f = g.idx_of(e.from@);
            assert(0 <= f < g.n() && g.nodes@[f].id@ == e.from@);
            lemma_blocked_never_settles(g, cells, f, fuel);
        }
    } else {
        lemma_blocked_pred_layer(g, cells, v, x, k - 1, fuel);
    }
}

/// Computes the epistemic depth of every node, indexed like the node
/// storage: `depths[i]` belongs to `graph.nodes[i]`.
///
/// Foundations (depth-relevant in-degree 0) get depth 0, and they
/// alone. Every node the relaxation settles gets its settled depth —
/// one above the maximum depth of its depth-relevant predecessors, so a
/// supports chain is layered 0, 1, 2, ... and a diamond joins at
/// max + 1. Every node the relaxation cannot settle (a member of a
/// depth-relevant cycle with no entry point, or a node behind a
/// dangling relevant edge) gets exactly the fallback depth 1.
pub fn compute_depths(graph: &GraphStore) -> (depths: Vec<usize>)
    requires
        graph.well_formed(),
    ensures
        depths@.len() == graph.n(),
        forall|i: int|
            0 <= i < graph.n() ==> (((#[trigger] depths@[i]) == 0) <==> depth_in_degree(*graph, i)
                == 0),
        forall|i: int, d: int|
            0 <= i < graph.n() && #[trigger] settles_to(*graph, i, d) ==> depths@[i] as int == d,
        forall|i: int|
            0 <= i < graph.n() && !spec_settles(*graph, i) ==> (#[trigger] depths@[i]) == 1,
{
    let n = graph.nodes.len();
    let m = graph.edges.len();

    let mut in_degree: Vec<usize> = Vec::new();
    let mut j: usize = 0;
    while j < n
        invariant
            j <= n,
            in_degree@.len() == j,
            forall|x: int| 0 <= x < j ==> (#[trigger] in_degree@[x]) == 0,
        decreases n - j,
    {
        in_degree.push(0);
        j = j + 1;
    }
    let mut k: usize = 0;
    while k < m
        invariant
            graph.well_formed(),
            n == graph.n(),
            m == graph.edges@.len(),
            k <= m,
            in_degree@.len() == n,
            forall|v: int|
                0 <= v < n ==> (#[trigger] in_degree@[v]) as int == depth_in_degree_upto(
                    *graph,
                    v,
                    k as int,
                ),
            forall|v: int| 0 <= v < n ==> (#[trigger] in_degree@[v]) <= k,
        decreases m - k,
    {
        let relevant = depth_relation(&graph.edges[k].relation);
        if relevant {
            match graph.node_index(graph.edges[k].to.as_str()) {
                Option::Some(tv) => {
                    in_degree[tv] = in_degree[tv] + 1;
                    proof {
                        let e = graph.edges@[k as int];
                        assert forall|v: int| 0 <= v < n implies (#[trigger] in_degree@[v]) as int
                            == depth_in_degree_upto(*graph, v, k as int + 1) by {
                            if v != tv as int {
                                assert(!(graph.idx_of(e.to@) == v));
                            }
                        }
                    }
                },
                Option::None => {
                    proof {
                        assert forall|v: int| 0 <= v < n implies (#[trigger] in_degree@[v]) as int
                            == depth_in_degree_upto(*graph, v, k as int + 1) by {}
                    }
                },
            }
        } else {
            proof {
                assert forall|v: int| 0 <= v < n implies (#[trigger] in_degree@[v]) as int
                    == depth_in_degree_upto(*graph, v, k as int + 1) by {}
            }
        }
        k = k + 1;
    }

    let mut cells: Vec<Option<usize>> = Vec::new();
    let mut i: usize = 0;
    while i < n
        invariant
            n == graph.n(),
            in_degree@.len() == n,
            forall|v: int|
                0 <= v < n ==> (#[trigger] in_degree@[v]) as int == depth_in_degree(*graph, v),
            i <= n,
            cells@.len() == i,
            forall|v: int|
                0 <= v < i ==> ((#[trigger] cells@[v]) == if depth_in_degree(*graph, v) == 0 {
                    Option::Some(0usize)
                } else {
                    Option::<usize>::None
                }),
        decreases n - i,
    {
        if in_degree[i] == 0 {
            cells.push(Some(0));
        } else {
            cells.push(None);
        }
        i = i + 1;
    }

    let ghost none0 = count_unset(cells@);
    let ghost mut bfuel: nat = 0;
    proof {
        lemma_count_unset_bounds(cells@);
        assert forall|v: int| 0 <= v < n implies match #[trigger] cells@[v] {
            Option::Some(d) => settled_depth(*graph, v, bfuel) == Option::Some(d as int),
            Option::None => true,
        } by {
            if cells@[v] is Some {
                assert(depth_in_degree(*graph, v) == 0);
            }
        }
    }

    let mut changed = true;
    while changed
        invariant
            graph.well_formed(),
            n == graph.n(),
            m == graph.edges@.len(),
            cells@.len() == n,
            in_degree@.len() == n,
            forall|v: int|
                0 <= v < n ==> (#[trigger] in_degree@[v]) as int == depth_in_degree(*graph, v),
            forall|v: int|
                0 <= v < n && depth_in_degree(*graph, v) == 0 ==> (#[trigger] cells@[v])
                    == Option::Some(0usize),
            forall|v: int|
                0 <= v < n ==> match #[trigger] cells@[v] {
                    Option::Some(d) => settled_depth(*graph, v, bfuel) == Option::Some(d as int),
                    Option::None => true,
                },
            bfuel + count_unset(cells@) <= none0,
            0 <= count_unset(cells@),
            none0 <= n,
            !changed ==> forall|v: int|
                0 <= v < n && (#[trigger] cells@[v]) is None ==> blocked(*graph, cells@, v),
        decreases count_unset(cells@), (if changed {
            1int
        } else {
            0int
        }),
    {
        changed = false;
        let ghost pass0 = cells@;
        let mut v: usize = 0;
        while v < n
            invariant
                graph.well_formed(),
                n == graph.n(),
                m == graph.edges@.len(),
                cells@.len() == n,
                in_degree@.len() == n,
                v <= n,
                forall|v2: int|
                    0 <= v2 < n ==> (#[trigger] in_degree@[v2]) as int == depth_in_degree(
                        *graph,
                        v2,
                    ),
                forall|v2: int|
                    0 <= v2 < n && depth_in_degree(*graph, v2) == 0 ==> (#[trigger] cells@[v2])
                        == Option::Some(0usize),
                forall|v2: int|
                    0 <= v2 < n ==> match #[trigger] cells@[v2] {
                        Option::Some(d) => settled_depth(*graph, v2, bfuel) == Option::Some(
                            d as int,
                        ),
                        Option::None => true,
                    },
                bfuel + count_unset(cells@) <= none0,
                0 <= count_unset(cells@),
                none0 <= n,
                count_unset(cells@) <= count_unset(pass0),
                changed ==> count_unset(cells@) < count_unset(pass0),
                !changed ==> cells@ == pass0,
                !changed ==> forall|v2: int|
                    0 <= v2 < v && (#[trigger] cells@[v2]) is None ==> blocked(*graph, cells@, v2),
            decreases n - v,
        {
            let cell = cells[v];
            let examine = match cell {
                Option::None => true,
                Option::Some(_) => false,
            };
            if examine {
                let mut ok = true;
                let mut mx: usize = 0;
                let mut k2: usize = 0;
                proof {
                    lemma_count_unset_bounds(cells@);
                    lemma_count_unset_pos(cells@, v as int);
                }
                while k2 < m
                    invariant
                        graph.well_formed(),
                        n == graph.n(),
                        m == graph.edges@.len(),
                        cells@.len() == n,
                        (v as int) < n,
                        cells@[v as int] is None,
                        forall|v2: int|
                            0 <= v2 < n ==> match #[trigger] cells@[v2] {
                                Option::Some(d) => settled_depth(*graph, v2, bfuel)
                                    == Option::Some(d as int),
                                Option::None => true,
                            },
                        bfuel + count_unset(cells@) <= none0,
                        none0 <= n,
                        1 <= count_unset(cells@),
                        k2 <= m,
                        ok ==> pred_layer(*graph, v as int, k2 as int, bfuel) == Option::Some(
                            mx as int,
                        ),
                        ok ==> mx <= bfuel + 1,
                        !ok ==> exists|x: int|
                            0 <= x < k2 && #[trigger] blocking_edge(*graph, cells@, v as int, x),
                    decreases m - k2,
                {
                    let relevant = depth_relation(&graph.edges[k2].relation);
                    if relevant {
                        let to_opt = graph.node_index(graph.edges[k2].to.as_str());
                        let targets_v = match to_opt {
                            Option::Some(tv) => tv == v,
                            Option::None => false,
                        };
                        if targets_v {
                            match graph.node_index(graph.edges[k2].from.as_str()) {
                                Option::Some(f) => {
                                    let fcell = cells[f];
                                    match fcell {
                                        Option::Some(d) => {
                                            proof {
                                                let e = graph.edges@[k2 as int];
                                                assert(settled_depth(*graph, f as int, bfuel)
                                                    == Option::Some(d as int));
                                                lemma_settled_bound(*graph, f as int, bfuel);
                                                assert(d as int <= bfuel);
                                                assert(bfuel <= none0 - 1);
                                                assert(d < n);
                                            }
                                            let cand = d + 1;
                                            if ok && cand > mx {
                                                mx = cand;
                                            }
                                            proof {
                                                let e = graph.edges@[k2 as int];
                                                if ok {
                                                    assert(graph.idx_of(e.from@) == f as int);
                                                    assert(pred_layer(
                                                        *graph,
                                                        v as int,
                                                        k2 as int + 1,
                                                        bfuel,
                                                    ) == Option::Some(mx as int));
                                                }
                                            }
                                        },
                                        Option::None => {
                                            ok = false;
                                            proof {
                                                let e = graph.edges@[k2 as int];
                                                assert(graph.idx_of(e.from@) == f as int);
                                                assert(blocking_edge(
                                                    *graph,
                                                    cells@,
                                                    v as int,
                                                    k2 as int,
                                                ));
                                            }
                                        },
                                    }
                                },
                                Option::None => {
                                    ok = false;
                                    proof {
                                        assert(blocking_edge(*graph, cells@, v as int, k2 as int));
                                    }
                                },
                            }
                        } else {
                            proof {
                                let e = graph.edges@[k2 as int];
                                if ok {
                                    assert(pred_layer(*graph, v as int, k2 as int + 1, bfuel)
                                        == pred_layer(*graph, v as int, k2 as int, bfuel));
                                }
                            }
                        }
                    } else {
                        proof {
                            let e = graph.edges@[k2 as int];
                            if ok {
                                assert(pred_layer(*graph, v as int, k2 as int + 1, bfuel)
                                    == pred_layer(*graph, v as int, k2 as int, bfuel));
                            }
                        }
                    }
                    k2 = k2 + 1;
                }
                if ok {
                    let ghost cpre = cells@;
                    cells[v] = Some(mx);
                    changed = true;
                    proof {
                        lemma_count_unset_update(cpre, v as int, mx);
                        assert(settled_depth(*graph, v as int, bfuel + 1) == Option::Some(
                            mx as int,
                        ));
                        assert forall|v2: int| 0 <= v2 < n implies match #[trigger] cells@[v2] {
                            Option::Some(d) => settled_depth(*graph, v2, bfuel + 1)
                                == Option::Some(d as int),
                            Option::None => true,
                        } by {
                            if v2 != v as int {
                                assert(cells@[v2] == cpre[v2]);
                                if cpre[v2] is Some {
                                    assert(settled_depth(*graph, v2, bfuel) is Some);
                                    lemma_settled_stable(*graph, v2, bfuel, bfuel + 1);
                                }
                            }
                        }
                        bfuel = bfuel + 1;
                        assert forall|v2: int|
                            0 <= v2 < n && depth_in_degree(*graph, v2) == 0 implies (
                        #[trigger] cells@[v2]) == Option::Some(0usize) by {
                            assert(cells@[v2] == cpre[v2]);
                        }
                    }
                } else {
                    proof {
                        if !changed {
                            let x = choose|x: int|
                                0 <= x < m && #[trigger] blocking_edge(
                                    *graph,
                                    cells@,
                                    v as int,
                                    x,
                                );
                            assert(blocked(*graph, cells@, v as int));
                        }
                    }
                }
            }
            v = v + 1;
        }
    }

    let mut depths: Vec<usize> = Vec::new();
    let mut i2: usize = 0;
    while i2 < n
        invariant
            n == graph.n(),
            cells@.len() == n,
            i2 <= n,
            depths@.len() == i2,
            forall|v: int|
                0 <= v < n && depth_in_degree(*graph, v) == 0 ==> (#[trigger] cells@[v])
                    == Option::Some(0usize),
            forall|v: int|
                0 <= v < n ==> match #[trigger] cells@[v] {
                    Option::Some(d) => settled_depth(*graph, v, bfuel) == Option::Some(d as int),
                    Option::None => true,
                },
            forall|v: int|
                0 <= v < n && (#[trigger] cells@[v]) is None ==> blocked(*graph, cells@, v),
            forall|v: int|
                0 <= v < i2 ==> ((#[trigger] depths@[v]) as int == match cells@[v] {
                    Option::Some(d) => d as int,
                    Option::None => 1int,
                }),
        decreases n - i2,
    {
        let d: usize = match cells[i2] {
            Option::Some(d) => d,
            Option::None => 1,
        };
        depths.push(d);
        i2 = i2 + 1;
    }
    proof {
        assert forall|i3: int|
            0 <= i3 < graph.n() implies (((#[trigger] depths@[i3]) == 0) <==> depth_in_degree(
            *graph,
            i3,
        ) == 0) by {
            lemma_in_degree_upto_nonneg(*graph, i3, graph.edges@.len() as int);
            if depth_in_degree(*graph, i3) == 0 {
                assert(cells@[i3] == Option::Some(0usize));
            } else {
                match cells@[i3] {
                    Option::Some(d) => {
                        assert(settled_depth(*graph, i3, bfuel) == Option::Some(d as int));
                        assert(bfuel > 0);
                        lemma_pred_layer_pos(
                            *graph,
                            i3,
                            graph.edges@.len() as int,
                            (bfuel - 1) as nat,
                        );
                        assert(d >= 1);
                    },
                    Option::None => {
                        assert(depths@[i3] == 1);
                    },
                }
            }
        }
        assert forall|i3: int, d2: int|
            0 <= i3 < graph.n() && #[trigger] settles_to(*graph, i3, d2) implies depths@[i3] as int
            == d2 by {
            match cells@[i3] {
                Option::Some(d) => {
                    assert(settled_depth(*graph, i3, bfuel) is Some);
                    lemma_settles_to_unique(*graph, i3, d2, bfuel);
                    assert(settled_depth(*graph, i3, bfuel) == Option::Some(d2));
                },
                Option::None => {
                    let f0 = choose|f0: nat| (#[trigger] settled_depth(*graph, i3, f0))
                        == Option::Some(d2);
                    lemma_blocked_never_settles(*graph, cells@, i3, f0);
                    assert(false);
                },
            }
        }
        assert forall|i3: int|
            0 <= i3 < graph.n() && !spec_settles(*graph, i3) implies (#[trigger] depths@[i3])
            == 1 by {
            match cells@[i3] {
                Option::Some(d) => {
                    assert(settled_depth(*graph, i3, bfuel) is Some);
                    assert(spec_settles(*graph, i3));
                    assert(false);
                },
                Option::None => {},
            }
        }
    }
    depths
}

} // verus!
