//! Graph query operations: k-hop neighborhoods and simple-path
//! enumeration, together with the reachability specifications they are
//! proved against.
//!
//! All queries read the adjacency index as of the last
//! [`GraphStore::build_adjacency`] call.

use vstd::prelude::*;

use crate::graph::node::Node;
use crate::graph::store::GraphStore;

verus! {

/// Is `j` allowed when an optional node is being avoided?
pub open spec fn spec_admissible(avoid: Option<usize>, j: usize) -> bool {
    match avoid {
        Option::None => true,
        Option::Some(x) => j != x,
    }
}

/// Every node of `p` is admissible.
pub open spec fn path_avoids(p: Seq<usize>, avoid: Option<usize>) -> bool {
    forall|k: int| 0 <= k < p.len() ==> spec_admissible(avoid, #[trigger] p[k])
}

/// How many entries of `s` are set.
pub open spec fn count_true(s: Seq<bool>) -> int
    decreases s.len(),
{
    if s.len() <= 0 {
        0
    } else {
        count_true(s.drop_last()) + if s[s.len() - 1] {
            1int
        } else {
            0int
        }
    }
}

proof fn lemma_count_true_bounds(s: Seq<bool>)
    ensures
        0 <= count_true(s) <= s.len(),
    decreases s.len(),
{
    if s.len() > 0 {
        lemma_count_true_bounds(s.drop_last());
    }
}

proof fn lemma_count_true_update(s: Seq<bool>, j: int)
    requires
        0 <= j < s.len(),
        !s[j],
    ensures
        count_true(s.update(j, true)) == count_true(s) + 1,
    decreases s.len(),
{
    let su = s.update(j, true);
    if j == s.len() - 1 {
        assert(su.drop_last() =~= s.drop_last());
    } else {
        assert(su.drop_last() =~= s.drop_last().update(j, true));
        lemma_count_true_update(s.drop_last(), j);
        assert(su[su.len() - 1] == s[s.len() - 1]);
    }
}

impl GraphStore {
    /// The outgoing adjacency row of node `v`.
    pub open spec fn row(self, v: int) -> Seq<usize> {
        self.out_edges@[v]@
    }

    /// `p` is a walk through the outgoing adjacency index.
    pub open spec fn is_path(self, p: Seq<usize>) -> bool {
        &&& p.len() >= 1
        &&& forall|k: int| 0 <= k < p.len() ==> (#[trigger] p[k] as int) < self.n()
        &&& forall|k: int|
            0 <= k < p.len() - 1 ==> #[trigger] self.row(p[k] as int).contains(p[k + 1])
    }

    /// Some adjacency walk leads from `a` to `b` while avoiding `avoid`.
    pub open spec fn reaches(self, a: usize, b: usize, avoid: Option<usize>) -> bool {
        exists|p: Seq<usize>|
            {
                &&& #[trigger] self.is_path(p)
                &&& p[0] == a
                &&& p.last() == b
                &&& path_avoids(p, avoid)
            }
    }

    /// All direct successors of a set of nodes.
    pub open spec fn succ_of(self, s: Set<usize>) -> Set<usize> {
        Set::new(
            |w: usize|
                exists|v: usize|
                    {
                        &&& #[trigger] s.contains(v)
                        &&& (v as int) < self.n()
                        &&& self.row(v as int).contains(w)
                    },
        )
    }

    /// The nodes reachable from `start` in at most `k` hops (including
    /// `start` itself).
    pub open spec fn reach_within(self, start: usize, k: nat) -> Set<usize>
        decreases k,
    {
        if k == 0 {
            Set::empty().insert(start)
        } else {
            let prev = self.reach_within(start, (k - 1) as nat);
            prev.union(self.succ_of(prev))
        }
    }

    /// Every admissible successor of `v` is already in `visited`.
    pub open spec fn expanded_at(self, visited: Seq<bool>, avoid: Option<usize>, v: int) -> bool {
        forall|t: int|
            0 <= t < self.row(v).len() && spec_admissible(avoid, #[trigger] self.row(v)[t])
                ==> visited[self.row(v)[t] as int]
    }

    /// Extending a reaching walk by one adjacency step.
    proof fn lemma_reaches_step(self, start: usize, v: usize, w: usize, avoid: Option<usize>)
        requires
            self.reaches(start, v, avoid),
            (w as int) < self.n(),
            self.row(v as int).contains(w),
            spec_admissible(avoid, w),
        ensures
            self.reaches(start, w, avoid),
    {
        let p = choose|p: Seq<usize>|
            {
                &&& #[trigger] self.is_path(p)
                &&& p[0] == start
                &&& p.last() == v
                &&& path_avoids(p, avoid)
            };
        let q = p.push(w);
        assert forall|k: int| 0 <= k < q.len() implies (#[trigger] q[k] as int) < self.n() by {
            if k < p.len() {
                assert(q[k] == p[k]);
            }
        }
        assert forall|k: int| 0 <= k < q.len() - 1 implies #[trigger] self.row(
            q[k] as int,
        ).contains(q[k + 1]) by {
            if k < p.len() - 1 {
                assert(q[k] == p[k] && q[k + 1] == p[k + 1]);
            } else {
                assert(q[k] == p.last() && q[k + 1] == w);
            }
        }
        assert forall|k: int| 0 <= k < q.len() implies spec_admissible(avoid, #[trigger] q[k]) by {
            if k < p.len() {
                assert(q[k] == p[k]);
            }
        }
        assert(self.is_path(q) && q[0] == start && q.last() == w && path_avoids(q, avoid));
    }

    /// A set of marks that is closed under admissible adjacency steps
    /// absorbs every avoiding walk that starts inside it.
    proof fn lemma_closed_absorbs(
        self,
        visited: Seq<bool>,
        avoid: Option<usize>,
        p: Seq<usize>,
    )
        requires
            visited.len() == self.n(),
            self.is_path(p),
            path_avoids(p, avoid),
            visited[p[0] as int],
            forall|v: int|
                0 <= v < self.n() && #[trigger] visited[v] ==> self.expanded_at(visited, avoid, v),
        ensures
            visited[p.last() as int],
        decreases p.len(),
    {
        if p.len() > 1 {
            let q = p.drop_last();
            assert forall|k: int| 0 <= k < q.len() implies (#[trigger] q[k] as int) < self.n() by {
                assert(q[k] == p[k]);
            }
            assert forall|k: int| 0 <= k < q.len() - 1 implies #[trigger] self.row(
                q[k] as int,
            ).contains(q[k + 1]) by {
                assert(q[k] == p[k] && q[k + 1] == p[k + 1]);
            }
            assert forall|k: int|
                0 <= k < q.len() implies spec_admissible(avoid, #[trigger] q[k]) by {
                assert(q[k] == p[k]);
            }
            assert(q[0] == p[0]);
            self.lemma_closed_absorbs(visited, avoid, q);
            let v = q.last();
            let k0 = p.len() - 2;
            assert(0 <= k0 < p.len() - 1);
            assert(self.row(p[k0] as int).contains(p[k0 + 1]));
            assert(k0 + 1 == p.len() - 1);
            assert(self.row(p[p.len() - 2] as int).contains(p[p.len() - 1]));
            assert(v == p[p.len() - 2]);
            let t = choose|t: int|
                0 <= t < self.row(v as int).len() && self.row(v as int)[t] == p[p.len() - 1];
            assert(spec_admissible(avoid, self.row(v as int)[t]));
            assert(visited[self.row(v as int)[t] as int]);
        }
    }

    /// Once one more hop adds nothing, every later hop count gives the
    /// same set.
    proof fn lemma_reach_stable(self, start: usize, h: nat, k: nat)
        requires
            self.succ_of(self.reach_within(start, h)).subset_of(self.reach_within(start, h)),
            h <= k,
        ensures
            self.reach_within(start, k) == self.reach_within(start, h),
        decreases k,
    {
        if k > h {
            self.lemma_reach_stable(start, h, (k - 1) as nat);
            let prev = self.reach_within(start, (k - 1) as nat);
            assert(prev == self.reach_within(start, h));
            assert(self.reach_within(start, k) =~= prev.union(self.succ_of(prev)));
            assert(prev.union(self.succ_of(prev)) =~= self.reach_within(start, h));
        }
    }

    /// The hop-bounded reach sets only grow with the hop count.
    proof fn lemma_reach_within_monotone(self, start: usize, k1: nat, k2: nat)
        requires
            k1 <= k2,
        ensures
            self.reach_within(start, k1).subset_of(self.reach_within(start, k2)),
        decreases k2,
    {
        if k2 > k1 {
            self.lemma_reach_within_monotone(start, k1, (k2 - 1) as nat);
        }
    }

    /// Law: a node lies in the `k`-hop reach set of `start` exactly when
    /// some adjacency walk from `start` of at most `k + 1` nodes ends at
    /// it; in particular, a `k`-hop neighbor is a node reachable via at
    /// most `k` directed edge traversals.
    pub proof fn lemma_reach_within_iff_walk(self, start: usize, k: nat, j: usize)
        requires
            self.adjacency_wf(),
            (start as int) < self.n(),
        ensures
            self.reach_within(start, k).contains(j) <==> exists|p: Seq<usize>|
                {
                    &&& #[trigger] self.is_path(p)
                    &&& p[0] == start
                    &&& p.last() == j
                    &&& p.len() <= k + 1
                },
        decreases k,
    {
        if self.reach_within(start, k).contains(j) {
            if k == 0 {
                let p = seq![start];
                assert(self.is_path(p) && p[0] == start && p.last() == j && p.len() <= k + 1);
            } else {
                let prev = self.reach_within(start, (k - 1) as nat);
                if prev.contains(j) {
                    self.lemma_reach_within_iff_walk(start, (k - 1) as nat, j);
                    let p = choose|p: Seq<usize>|
                        {
                            &&& #[trigger] self.is_path(p)
                            &&& p[0] == start
                            &&& p.last() == j
                            &&& p.len() <= (k - 1) + 1
                        };
                    assert(self.is_path(p) && p[0] == start && p.last() == j && p.len() <= k + 1);
                } else {
                    assert(self.succ_of(prev).contains(j));
                    let v = choose|v: usize|
                        {
                            &&& #[trigger] prev.contains(v)
                            &&& (v as int) < self.n()
                            &&& self.row(v as int).contains(j)
                        };
                    self.lemma_reach_within_iff_walk(start, (k - 1) as nat, v);
                    let p = choose|p: Seq<usize>|
                        {
                            &&& #[trigger] self.is_path(p)
                            &&& p[0] == start
                            &&& p.last() == v
                            &&& p.len() <= (k - 1) + 1
                        };
                    let q = p.push(j);
                    let t = choose|t: int|
                        0 <= t < self.row(v as int).len() && self.row(v as int)[t] == j;
                    assert((self.out_edges@[v as int]@[t] as int) < self.n());
                    assert forall|x: int| 0 <= x < q.len() implies (#[trigger] q[x] as int)
                        < self.n() by {
                        if x < p.len() {
                            assert(q[x] == p[x]);
                        }
                    }
                    assert forall|x: int| 0 <= x < q.len() - 1 implies #[trigger] self.row(
                        q[x] as int,
                    ).contains(q[x + 1]) by {
                        if x < p.len() - 1 {
                            assert(q[x] == p[x] && q[x + 1] == p[x + 1]);
                        } else {
                            assert(q[x] == p.last() && q[x + 1] == j);
                        }
                    }
                    assert(self.is_path(q) && q[0] == start && q.last() == j && q.len() <= k + 1);
                }
            }
        }
        if exists|p: Seq<usize>|
            {
                &&& #[trigger] self.is_path(p)
                &&& p[0] == start
                &&& p.last() == j
                &&& p.len() <= k + 1
            } {
            let p = choose|p: Seq<usize>|
                {
                    &&& #[trigger] self.is_path(p)
                    &&& p[0] == start
                    &&& p.last() == j
                    &&& p.len() <= k + 1
                };
            self.lemma_walk_in_reach(start, k, p);
        }
    }

    /// Every adjacency walk of at most `k + 1` nodes ends inside the
    /// `k`-hop reach set of its first node.
    proof fn lemma_walk_in_reach(self, start: usize, k: nat, p: Seq<usize>)
        requires
            self.is_path(p),
            p[0] == start,
            p.len() <= k + 1,
        ensures
            self.reach_within(start, k).contains(p.last()),
        decreases p.len(),
    {
        if p.len() == 1 {
            assert(self.reach_within(start, 0nat).contains(start));
            self.lemma_reach_within_monotone(start, 0nat, k);
        } else {
            let q = p.drop_last();
            assert forall|x: int| 0 <= x < q.len() implies (#[trigger] q[x] as int)
                < self.n() by {
                assert(q[x] == p[x]);
            }
            assert forall|x: int| 0 <= x < q.len() - 1 implies #[trigger] self.row(
                q[x] as int,
            ).contains(q[x + 1]) by {
                assert(q[x] == p[x] && q[x + 1] == p[x + 1]);
            }
            assert(q[0] == p[0]);
            self.lemma_walk_in_reach(start, (k - 1) as nat, q);
            let prev = self.reach_within(start, (k - 1) as nat);
            let k0 = p.len() - 2;
            assert(0 <= k0 < p.len() - 1);
            assert(self.row(p[k0] as int).contains(p[k0 + 1]));
            assert(q.last() == p[k0]);
            assert(self.succ_of(prev).contains(p[k0 + 1]));
            assert(self.reach_within(start, k) == prev.union(self.succ_of(prev)));
            assert(p.last() == p[k0 + 1]);
        }
    }

    /// Marks every node reachable from `start` (by a walk avoiding
    /// `avoid`, when one is given) in a fresh vector of flags.
    pub(crate) fn reach_set(&self, start: usize, avoid: Option<usize>) -> (visited: Vec<bool>)
        requires
            self.well_formed(),
            (start as int) < self.n(),
            spec_admissible(avoid, start),
        ensures
            visited@.len() == self.n(),
            forall|j: int|
                0 <= j < self.n() ==> ((#[trigger] visited@[j]) <==> self.reaches(
                    start,
                    j as usize,
                    avoid,
                )),
    {
        let n = self.nodes.len();
        let mut visited: Vec<bool> = Vec::new();
        let mut j: usize = 0;
        while j < n
            invariant
                j <= n,
                visited@.len() == j,
                forall|x: int| 0 <= x < j ==> !(#[trigger] visited@[x]),
            decreases n - j,
        {
            visited.push(false);
            j = j + 1;
        }
        let mut stack: Vec<usize> = Vec::new();
        visited[start] = true;
        stack.push(start);
        proof {
            assert(self.is_path(seq![start]) && seq![start][0] == start && seq![start].last()
                == start && path_avoids(seq![start], avoid));
            assert(self.reaches(start, start, avoid));
            lemma_count_true_bounds(visited@);
        }
        while stack.len() > 0
            invariant
                self.well_formed(),
                n == self.n(),
                visited@.len() == n,
                visited@[start as int],
                forall|t: int|
                    0 <= t < stack@.len() ==> ((#[trigger] stack@[t] as int) < n
                        && visited@[stack@[t] as int]),
                forall|j2: int|
                    0 <= j2 < n && #[trigger] visited@[j2] ==> self.reaches(
                        start,
                        j2 as usize,
                        avoid,
                    ) && spec_admissible(avoid, j2 as usize),
                forall|v: int|
                    0 <= v < n && #[trigger] visited@[v] && !stack@.contains(v as usize)
                        ==> self.expanded_at(visited@, avoid, v),
                0 <= count_true(visited@) <= n,
            decreases n - count_true(visited@) + stack@.len(),
        {
            let ghost measure0 = n - count_true(visited@) + stack@.len();
            let ghost spre = stack@;
            let v = stack.pop().unwrap();
            proof {
                assert forall|v2: int|
                    0 <= v2 < n && #[trigger] visited@[v2] && !stack@.contains(v2 as usize) && v2
                        != v as int implies self.expanded_at(visited@, avoid, v2) by {
                    if spre.contains(v2 as usize) {
                        let t0 = choose|t0: int| 0 <= t0 < spre.len() && spre[t0] == v2 as usize;
                        if t0 < spre.len() - 1 {
                            assert(stack@[t0] == v2 as usize);
                            assert(stack@.contains(v2 as usize));
                        } else {
                            assert(spre[t0] == v);
                        }
                        assert(false);
                    }
                }
            }
            let row_len = self.out_edges[v].len();
            let mut t: usize = 0;
            while t < row_len
                invariant
                    self.well_formed(),
                    n == self.n(),
                    visited@.len() == n,
                    visited@[start as int],
                    (v as int) < n,
                    visited@[v as int],
                    row_len == self.row(v as int).len(),
                    t <= row_len,
                    forall|t2: int|
                        0 <= t2 < stack@.len() ==> ((#[trigger] stack@[t2] as int) < n
                            && visited@[stack@[t2] as int]),
                    forall|j2: int|
                        0 <= j2 < n && #[trigger] visited@[j2] ==> self.reaches(
                            start,
                            j2 as usize,
                            avoid,
                        ) && spec_admissible(avoid, j2 as usize),
                    forall|v2: int|
                        0 <= v2 < n && #[trigger] visited@[v2] && !stack@.contains(v2 as usize)
                            && v2 != v as int ==> self.expanded_at(visited@, avoid, v2),
                    forall|q: int|
                        0 <= q < t && spec_admissible(avoid, #[trigger] self.row(v as int)[q])
                            ==> visited@[self.row(v as int)[q] as int],
                    n - count_true(visited@) + stack@.len() == measure0 - 1,
                    0 <= count_true(visited@) <= n,
                decreases row_len - t,
            {
                let w = self.out_edges[v][t];
                let admissible_w = match avoid {
                    Option::Some(x) => w != x,
                    Option::None => true,
                };
                if admissible_w && !visited[w] {
                    let ghost vpre = visited@;
                    let ghost spre = stack@;
                    visited[w] = true;
                    stack.push(w);
                    proof {
                        lemma_count_true_update(vpre, w as int);
                        lemma_count_true_bounds(visited@);
                        self.lemma_reaches_step(start, v, w, avoid);
                        assert forall|v2: int|
                            0 <= v2 < n && #[trigger] visited@[v2] && !stack@.contains(v2 as usize)
                                && v2 != v as int implies self.expanded_at(
                            visited@,
                            avoid,
                            v2,
                        ) by {
                            if v2 == w as int {
                                assert(stack@[stack@.len() - 1] == w);
                                assert(stack@.contains(v2 as usize));
                            } else {
                                assert(vpre[v2]);
                                if spre.contains(v2 as usize) {
                                    let t0 = choose|t0: int|
                                        0 <= t0 < spre.len() && spre[t0] == v2 as usize;
                                    assert(stack@[t0] == v2 as usize);
                                    assert(stack@.contains(v2 as usize));
                                } else {
                                    assert(self.expanded_at(vpre, avoid, v2));
                                    assert forall|t3: int|
                                        0 <= t3 < self.row(v2).len() && spec_admissible(
                                            avoid,
                                            #[trigger] self.row(v2)[t3],
                                        ) implies visited@[self.row(v2)[t3] as int] by {
                                        assert(vpre[self.row(v2)[t3] as int]);
                                    }
                                }
                            }
                        }
                    }
                }
                t = t + 1;
            }
            proof {
                assert forall|v2: int|
                    0 <= v2 < n && #[trigger] visited@[v2] && !stack@.contains(v2 as usize)
                        implies self.expanded_at(visited@, avoid, v2) by {
                    if v2 == v as int {
                        assert forall|t3: int|
                            0 <= t3 < self.row(v2).len() && spec_admissible(
                                avoid,
                                #[trigger] self.row(v2)[t3],
                            ) implies visited@[self.row(v2)[t3] as int] by {}
                    }
                }
            }
        }
        proof {
            assert forall|j3: int|
                0 <= j3 < self.n() implies ((#[trigger] visited@[j3]) <==> self.reaches(
                start,
                j3 as usize,
                avoid,
            )) by {
                if !visited@[j3] && self.reaches(start, j3 as usize, avoid) {
                    let p = choose|p: Seq<usize>|
                        {
                            &&& #[trigger] self.is_path(p)
                            &&& p[0] == start
                            &&& p.last() == j3 as usize
                            &&& path_avoids(p, avoid)
                        };
                    assert forall|v2: int|
                        0 <= v2 < self.n() && #[trigger] visited@[v2] implies self.expanded_at(
                        visited@,
                        avoid,
                        v2,
                    ) by {
                        assert(!stack@.contains(v2 as usize));
                    }
                    self.lemma_closed_absorbs(visited@, avoid, p);
                    assert(false);
                }
            }
        }
        visited
    }

    /// Entry `t` of a neighborhood query result names a node, other than
    /// `start` itself, whose index lies in the `depth`-hop reach set.
    pub open spec fn neighbor_entry_ok(
        self,
        start: usize,
        depth: u32,
        result: Seq<&Node>,
        t: int,
    ) -> bool {
        exists|j: usize|
            {
                &&& (j as int) < self.n()
                &&& j != start
                &&& #[trigger] self.reach_within(start, depth as nat).contains(j)
                &&& *result[t] == self.nodes@[j as int]
            }
    }

    /// The node with index `j` occurs in the query result.
    pub open spec fn neighbor_found(self, result: Seq<&Node>, j: usize) -> bool {
        exists|t: int| 0 <= t < result.len() && *result[t] == self.nodes@[j as int]
    }

    /// What a `depth`-hop neighborhood query from `start` must return:
    /// exactly the nodes, other than `start` itself, whose index lies in
    /// the `depth`-hop reach set of `start`, each exactly once.
    pub open spec fn neighbors_post(
        self,
        start: usize,
        depth: u32,
        result: Seq<&Node>,
    ) -> bool {
        &&& forall|t: int|
            0 <= t < result.len() ==> #[trigger] self.neighbor_entry_ok(start, depth, result, t)
        &&& forall|j: usize|
            (j as int) < self.n() && j != start && #[trigger] self.reach_within(
                start,
                depth as nat,
            ).contains(j) ==> self.neighbor_found(result, j)
        &&& forall|t1: int, t2: int|
            0 <= t1 < t2 < result.len() ==> (*result[t1]).id@ != (*result[t2]).id@
    }

    /// Returns all distinct nodes reachable from `node_id` via outgoing
    /// edges within at most `depth` hops, excluding the start node
    /// itself. Depth 0 or an unknown id yields an empty result; the
    /// order of the returned nodes is not part of the contract.
    pub fn neighbors<'a>(&'a self, node_id: &str, depth: u32) -> (result: Vec<&'a Node>)
        requires
            self.well_formed(),
        ensures
            depth == 0 ==> result@.len() == 0,
            !self.has_id(node_id@) ==> result@.len() == 0,
            self.has_id(node_id@) ==> self.neighbors_post(
                self.idx_of(node_id@) as usize,
                depth,
                result@,
            ),
    {
        let start = match self.node_index(node_id) {
            Option::Some(s) => s,
            Option::None => {
                return Vec::new();
            },
        };
        if depth == 0 {
            proof {
                assert(self.reach_within(start, 0nat) =~= Set::empty().insert(start));
                let empty: Seq<&Node> = Seq::empty();
                assert forall|j: usize|
                    (j as int) < self.n() && j != start && #[trigger] self.reach_within(
                        start,
                        depth as nat,
                    ).contains(j) implies self.neighbor_found(empty, j) by {
                    assert(j == start);
                }
                assert(self.neighbors_post(start, depth, empty));
            }
            return Vec::new();
        }
        let n = self.nodes.len();
        let mut visited: Vec<bool> = make_flags(n);
        visited[start] = true;
        let mut frontier: Vec<usize> = Vec::new();
        frontier.push(start);
        let mut result: Vec<&Node> = Vec::new();
        let ghost mut ridx: Seq<usize> = Seq::empty();
        let mut hop: u32 = 0;
        proof {
            assert(self.reach_within(start, 0nat) =~= Set::empty().insert(start));
            assert(frontier@[0] == start);
            assert(frontier@.contains(start));
        }
        while hop < depth && frontier.len() > 0
            invariant
                self.well_formed(),
                n == self.n(),
                (start as int) < n,
                visited@.len() == n,
                hop <= depth,
                visited@[start as int],
                forall|j: int|
                    0 <= j < n ==> ((#[trigger] visited@[j]) <==> self.reach_within(
                        start,
                        hop as nat,
                    ).contains(j as usize)),
                forall|t: int|
                    0 <= t < frontier@.len() ==> ((#[trigger] frontier@[t] as int) < n
                        && visited@[frontier@[t] as int]),
                forall|v: int|
                    0 <= v < n && #[trigger] visited@[v] && !frontier@.contains(v as usize)
                        ==> self.expanded_at(visited@, Option::None, v),
                result@.len() == ridx.len(),
                forall|t: int|
                    0 <= t < ridx.len() ==> ((#[trigger] ridx[t] as int) < n && ridx[t] != start
                        && visited@[ridx[t] as int] && *result@[t] == self.nodes@[ridx[t] as int]),
                forall|j: int|
                    0 <= j < n && #[trigger] visited@[j] && j != start as int ==> ridx.contains(
                        j as usize,
                    ),
                forall|t1: int, t2: int| 0 <= t1 < t2 < ridx.len() ==> ridx[t1] != ridx[t2],
            decreases depth - hop,
        {
            let ghost r_hop = self.reach_within(start, hop as nat);
            let mut new_frontier: Vec<usize> = Vec::new();
            let flen = frontier.len();
            let mut fi: usize = 0;
            proof {
                assert(frontier@.subrange(0, flen as int) =~= frontier@);
            }
            while fi < flen
                invariant
                    self.well_formed(),
                    n == self.n(),
                    (start as int) < n,
                    visited@.len() == n,
                    hop < depth,
                    r_hop == self.reach_within(start, hop as nat),
                    flen == frontier@.len(),
                    fi <= flen,
                    forall|j: int|
                        0 <= j < n && r_hop.contains(j as usize) ==> #[trigger] visited@[j],
                    forall|j: int|
                        0 <= j < n && #[trigger] visited@[j] ==> self.reach_within(
                            start,
                            (hop + 1) as nat,
                        ).contains(j as usize),
                    visited@[start as int],
                    forall|t: int|
                        0 <= t < flen ==> ((#[trigger] frontier@[t] as int) < n
                            && visited@[frontier@[t] as int] && r_hop.contains(frontier@[t])),
                    forall|t: int|
                        0 <= t < new_frontier@.len() ==> ((#[trigger] new_frontier@[t] as int) < n
                            && visited@[new_frontier@[t] as int] && !r_hop.contains(
                            new_frontier@[t],
                        )),
                    forall|j: int|
                        0 <= j < n && #[trigger] visited@[j] && !r_hop.contains(j as usize)
                            ==> new_frontier@.contains(j as usize),
                    forall|v: int|
                        0 <= v < n && #[trigger] visited@[v] && !frontier@.subrange(
                            fi as int,
                            flen as int,
                        ).contains(v as usize) && !new_frontier@.contains(v as usize)
                            ==> self.expanded_at(visited@, Option::None, v),
                    result@.len() == ridx.len(),
                    forall|t: int|
                        0 <= t < ridx.len() ==> ((#[trigger] ridx[t] as int) < n && ridx[t]
                            != start && visited@[ridx[t] as int] && *result@[t]
                            == self.nodes@[ridx[t] as int]),
                    forall|j: int|
                        0 <= j < n && #[trigger] visited@[j] && j != start as int
                            ==> ridx.contains(j as usize),
                    forall|t1: int, t2: int| 0 <= t1 < t2 < ridx.len() ==> ridx[t1] != ridx[t2],
                decreases flen - fi,
            {
                let v = frontier[fi];
                let row_len = self.out_edges[v].len();
                let mut t: usize = 0;
                while t < row_len
                    invariant
                        self.well_formed(),
                        n == self.n(),
                        (start as int) < n,
                        visited@.len() == n,
                        hop < depth,
                        r_hop == self.reach_within(start, hop as nat),
                        flen == frontier@.len(),
                        fi < flen,
                        v == frontier@[fi as int],
                        (v as int) < n,
                        visited@[v as int],
                        r_hop.contains(v),
                        row_len == self.row(v as int).len(),
                        t <= row_len,
                        forall|j: int|
                            0 <= j < n && r_hop.contains(j as usize) ==> #[trigger] visited@[j],
                        forall|j: int|
                            0 <= j < n && #[trigger] visited@[j] ==> self.reach_within(
                                start,
                                (hop + 1) as nat,
                            ).contains(j as usize),
                        visited@[start as int],
                        forall|t2: int|
                            0 <= t2 < flen ==> ((#[trigger] frontier@[t2] as int) < n
                                && visited@[frontier@[t2] as int] && r_hop.contains(
                                frontier@[t2],
                            )),
                        forall|t2: int|
                            0 <= t2 < new_frontier@.len() ==> ((
                            #[trigger] new_frontier@[t2] as int) < n
                                && visited@[new_frontier@[t2] as int] && !r_hop.contains(
                                new_frontier@[t2],
                            )),
                        forall|j: int|
                            0 <= j < n && #[trigger] visited@[j] && !r_hop.contains(j as usize)
                                ==> new_frontier@.contains(j as usize),
                        forall|v2: int|
                            0 <= v2 < n && #[trigger] visited@[v2] && !frontier@.subrange(
                                fi as int,
                                flen as int,
                            ).contains(v2 as usize) && !new_frontier@.contains(v2 as usize)
                                ==> self.expanded_at(visited@, Option::None, v2),
                        forall|q: int|
                            0 <= q < t ==> visited@[#[trigger] self.row(v as int)[q] as int],
                        result@.len() == ridx.len(),
                        forall|t2: int|
                            0 <= t2 < ridx.len() ==> ((#[trigger] ridx[t2] as int) < n && ridx[t2]
                                != start && visited@[ridx[t2] as int] && *result@[t2]
                                == self.nodes@[ridx[t2] as int]),
                        forall|j: int|
                            0 <= j < n && #[trigger] visited@[j] && j != start as int
                                ==> ridx.contains(j as usize),
                        forall|t1: int, t2: int|
                            0 <= t1 < t2 < ridx.len() ==> ridx[t1] != ridx[t2],
                    decreases row_len - t,
                {
                    let w = self.out_edges[v][t];
                    if !visited[w] {
                        let ghost vpre = visited@;
                        let ghost nfpre = new_frontier@;
                        let ghost rpre = ridx;
                        visited[w] = true;
                        new_frontier.push(w);
                        result.push(&self.nodes[w]);
                        proof {
                            ridx = rpre.push(w);
                            assert(self.row(v as int)[t as int] == w);
                            assert(self.row(v as int).contains(w));
                            assert(self.succ_of(r_hop).contains(w));
                            assert(self.reach_within(start, (hop + 1) as nat) =~= r_hop.union(
                                self.succ_of(r_hop),
                            ));
                            assert(new_frontier@[new_frontier@.len() - 1] == w);
                            assert(new_frontier@.contains(w));
                            assert forall|j: int|
                                0 <= j < n && #[trigger] visited@[j] && !r_hop.contains(j as usize)
                                    implies new_frontier@.contains(j as usize) by {
                                if j != w as int {
                                    assert(vpre[j]);
                                    let t0 = choose|t0: int|
                                        0 <= t0 < nfpre.len() && nfpre[t0] == j as usize;
                                    assert(new_frontier@[t0] == j as usize);
                                }
                            }
                            assert forall|v2: int|
                                0 <= v2 < n && #[trigger] visited@[v2] && !frontier@.subrange(
                                    fi as int,
                                    flen as int,
                                ).contains(v2 as usize) && !new_frontier@.contains(v2 as usize)
                                    implies self.expanded_at(visited@, Option::None, v2) by {
                                assert(v2 != w as int);
                                assert(vpre[v2]);
                                if nfpre.contains(v2 as usize) {
                                    let t0 = choose|t0: int|
                                        0 <= t0 < nfpre.len() && nfpre[t0] == v2 as usize;
                                    assert(new_frontier@[t0] == v2 as usize);
                                    assert(false);
                                }
                                assert(self.expanded_at(vpre, Option::None, v2));
                                assert forall|t3: int|
                                    0 <= t3 < self.row(v2).len() implies visited@[
                                    #[trigger] self.row(v2)[t3] as int] by {
                                    assert(vpre[self.row(v2)[t3] as int]);
                                }
                            }
                            assert forall|j: int|
                                0 <= j < n && #[trigger] visited@[j] && j != start as int
                                    implies ridx.contains(j as usize) by {
                                if j == w as int {
                                    assert(ridx[ridx.len() - 1] == j as usize);
                                } else {
                                    assert(vpre[j]);
                                    let t0 = choose|t0: int|
                                        0 <= t0 < rpre.len() && rpre[t0] == j as usize;
                                    assert(ridx[t0] == j as usize);
                                }
                            }
                            assert forall|t1: int, t2: int|
                                0 <= t1 < t2 < ridx.len() implies ridx[t1] != ridx[t2] by {
                                if t2 == ridx.len() - 1 {
                                    assert(ridx[t1] == rpre[t1]);
                                    assert(vpre[rpre[t1] as int]);
                                }
                            }
                        }
                    }
                    t = t + 1;
                }
                fi = fi + 1;
                proof {
                    assert forall|v2: int|
                        0 <= v2 < n && #[trigger] visited@[v2] && !frontier@.subrange(
                            fi as int,
                            flen as int,
                        ).contains(v2 as usize) && !new_frontier@.contains(v2 as usize)
                            implies self.expanded_at(visited@, Option::None, v2) by {
                        if v2 == v as int {
                            assert forall|t3: int|
                                0 <= t3 < self.row(v2).len() implies visited@[#[trigger] self.row(
                                v2,
                            )[t3] as int] by {}
                        } else {
                            let sub_prev = frontier@.subrange(fi as int - 1, flen as int);
                            if sub_prev.contains(v2 as usize) {
                                let t0 = choose|t0: int|
                                    0 <= t0 < sub_prev.len() && sub_prev[t0] == v2 as usize;
                                assert(sub_prev[t0] == frontier@[fi - 1 + t0]);
                                if t0 == 0 {
                                    assert(v2 == v as int);
                                } else {
                                    assert(frontier@.subrange(fi as int, flen as int)[t0 - 1]
                                        == v2 as usize);
                                    assert(frontier@.subrange(fi as int, flen as int).contains(
                                        v2 as usize,
                                    ));
                                }
                                assert(false);
                            }
                        }
                    }
                }
            }
            frontier = new_frontier;
            hop = hop + 1;
            proof {
                assert(self.reach_within(start, hop as nat) =~= r_hop.union(self.succ_of(r_hop)));
                assert forall|j: int|
                    0 <= j < n implies ((#[trigger] visited@[j]) <==> self.reach_within(
                    start,
                    hop as nat,
                ).contains(j as usize)) by {
                    if self.reach_within(start, hop as nat).contains(j as usize) && !visited@[j] {
                        assert(!r_hop.contains(j as usize));
                        assert(self.succ_of(r_hop).contains(j as usize));
                        let v = choose|v: usize|
                            {
                                &&& #[trigger] r_hop.contains(v)
                                &&& (v as int) < self.n()
                                &&& self.row(v as int).contains(j as usize)
                            };
                        assert(visited@[v as int]);
                        if frontier@.contains(v) {
                            assert(!r_hop.contains(v));
                            assert(false);
                        }
                        assert(frontier@.subrange(flen as int, flen as int).len() == 0);
                        assert(!frontier@.subrange(flen as int, flen as int).contains(v));
                        assert(false);
                    }
                }
            }
        }
        proof {
            if frontier@.len() == 0 {
                assert forall|w: usize| #[trigger]
                    self.succ_of(self.reach_within(start, hop as nat)).contains(
                        w,
                    ) implies self.reach_within(start, hop as nat).contains(w) by {
                    let v = choose|v: usize|
                        {
                            &&& #[trigger] self.reach_within(start, hop as nat).contains(v)
                            &&& (v as int) < self.n()
                            &&& self.row(v as int).contains(w)
                        };
                    assert(visited@[v as int]);
                    assert(!frontier@.contains(v as usize));
                    assert(self.expanded_at(visited@, Option::None, v as int));
                    let t = choose|t: int|
                        0 <= t < self.row(v as int).len() && self.row(v as int)[t] == w;
                    assert(visited@[self.row(v as int)[t] as int]);
                    assert(self.reach_within(start, hop as nat).contains(w));
                }
                self.lemma_reach_stable(start, hop as nat, depth as nat);
            }
            assert(start as int == self.idx_of(node_id@));
            assert forall|t: int|
                0 <= t < result@.len() implies #[trigger] self.neighbor_entry_ok(
                start,
                depth,
                result@,
                t,
            ) by {
                let j = ridx[t];
                assert(visited@[j as int]);
                assert((j as int) < self.n() && j != start && self.reach_within(
                    start,
                    depth as nat,
                ).contains(j) && *result@[t] == self.nodes@[j as int]);
            }
            assert forall|j: usize|
                (j as int) < self.n() && j != start && #[trigger] self.reach_within(
                    start,
                    depth as nat,
                ).contains(j) implies self.neighbor_found(result@, j) by {
                assert(visited@[j as int]);
                assert(ridx.contains(j));
                let t = choose|t: int| 0 <= t < ridx.len() && ridx[t] == j;
                assert(0 <= t < result@.len() && *result@[t] == self.nodes@[j as int]);
            }
            assert forall|t1: int, t2: int|
                0 <= t1 < t2 < result@.len() implies (*result@[t1]).id@ != (*result@[t2]).id@ by {
                assert(ridx[t1] != ridx[t2]);
                assert(*result@[t1] == self.nodes@[ridx[t1] as int]);
                assert(*result@[t2] == self.nodes@[ridx[t2] as int]);
            }
            assert(self.neighbors_post(start, depth, result@));
        }
        result
    }
}

/// Path `p` occurs in `paths` at some position at or after `from_t`.
pub open spec fn path_reported(paths: Seq<Vec<usize>>, from_t: int, p: Seq<usize>) -> bool {
    exists|t: int| from_t <= t < paths.len() && (#[trigger] paths[t])@ == p
}

impl GraphStore {
    /// A simple path from `a` to `b` through the adjacency index, with
    /// at most `max` nodes.
    pub open spec fn wanted_path(self, a: usize, b: usize, max: int, p: Seq<usize>) -> bool {
        &&& self.is_path(p)
        &&& p.no_duplicates()
        &&& p[0] == a
        &&& p.last() == b
        &&& p.len() <= max
    }

    /// A simple path to `target` of at most `max` nodes that extends the
    /// fixed prefix `prefix`.
    pub open spec fn wanted_ext(
        self,
        prefix: Seq<usize>,
        target: usize,
        max: int,
        q: Seq<usize>,
    ) -> bool {
        &&& self.is_path(q)
        &&& q.no_duplicates()
        &&& q.last() == target
        &&& q.len() <= max
        &&& prefix.len() <= q.len()
        &&& q.subrange(0, prefix.len() as int) == prefix
    }

    /// Depth-first enumeration of every simple path that extends the
    /// current path by `current` and ends at `target`, appending each
    /// to `all_paths` and restoring `path` and `visited` on exit.
    fn dfs_find_paths(
        &self,
        current: usize,
        target: usize,
        path: &mut Vec<usize>,
        visited: &mut Vec<bool>,
        all_paths: &mut Vec<Vec<usize>>,
        max_depth: usize,
    )
        requires
            self.well_formed(),
            (current as int) < self.n(),
            (target as int) < self.n(),
            old(visited)@.len() == self.n(),
            forall|j: int|
                0 <= j < self.n() ==> ((#[trigger] old(visited)@[j]) <==> old(path)@.contains(
                    j as usize,
                )),
            forall|k: int|
                0 <= k < old(path)@.len() ==> (#[trigger] old(path)@[k] as int) < self.n(),
            forall|k: int|
                0 <= k < old(path)@.len() - 1 ==> #[trigger] self.row(
                    old(path)@[k] as int,
                ).contains(old(path)@[k + 1]),
            old(path)@.no_duplicates(),
            !old(path)@.contains(current),
            old(path)@.len() >= 1 ==> self.row(old(path)@.last() as int).contains(current),
            old(path)@.len() + 1 <= max_depth,
        ensures
            final(path)@ == old(path)@,
            final(visited)@ == old(visited)@,
            final(all_paths)@.len() >= old(all_paths)@.len(),
            forall|t: int|
                0 <= t < old(all_paths)@.len() ==> (#[trigger] final(all_paths)@[t]) == old(
                    all_paths,
                )@[t],
            forall|t: int|
                old(all_paths)@.len() <= t < final(all_paths)@.len() ==> self.wanted_ext(
                    old(path)@.push(current),
                    target,
                    max_depth as int,
                    (#[trigger] final(all_paths)@[t])@,
                ),
            forall|q: Seq<usize>| #[trigger]
                self.wanted_ext(old(path)@.push(current), target, max_depth as int, q)
                    ==> path_reported(final(all_paths)@, old(all_paths)@.len() as int, q),
            forall|t1: int, t2: int|
                #![trigger final(all_paths)@[t1], final(all_paths)@[t2]]
                old(all_paths)@.len() <= t1 < t2 < final(all_paths)@.len()
                    ==> (final(all_paths)@[t1])@ != (final(all_paths)@[t2])@,
        decreases max_depth - old(path)@.len(),
    {
        let ghost base = old(all_paths)@.len() as int;
        path.push(current);
        visited[current] = true;
        let ghost prefix = path@;
        proof {
            vstd::std_specs::vec::axiom_spec_len(&self.nodes);
            assert(prefix == old(path)@.push(current));
            assert forall|j: int|
                0 <= j < self.n() implies ((#[trigger] visited@[j]) <==> prefix.contains(
                j as usize,
            )) by {
                if j == current as int {
                    assert(prefix[prefix.len() - 1] == current);
                    assert(prefix.contains(current));
                } else {
                    if old(path)@.contains(j as usize) {
                        let k = choose|k: int|
                            0 <= k < old(path)@.len() && old(path)@[k] == j as usize;
                        assert(prefix[k] == j as usize);
                        assert(prefix.contains(j as usize));
                    }
                    if prefix.contains(j as usize) {
                        let k = choose|k: int| 0 <= k < prefix.len() && prefix[k] == j as usize;
                        assert(k < prefix.len() - 1);
                        assert(old(path)@[k] == j as usize);
                        assert(old(path)@.contains(j as usize));
                    }
                }
            }
            assert(prefix.no_duplicates()) by {
                assert forall|k1: int, k2: int|
                    0 <= k1 < prefix.len() && 0 <= k2 < prefix.len() && k1 != k2 implies prefix[k1]
                    != prefix[k2] by {
                    if k1 < prefix.len() - 1 && k2 < prefix.len() - 1 {
                        assert(prefix[k1] == old(path)@[k1] && prefix[k2] == old(path)@[k2]);
                    } else if k1 == prefix.len() - 1 {
                        assert(prefix[k2] == old(path)@[k2]);
                        assert(old(path)@.contains(old(path)@[k2]));
                    } else {
                        assert(prefix[k1] == old(path)@[k1]);
                        assert(old(path)@.contains(old(path)@[k1]));
                    }
                }
            }
            assert forall|k: int|
                0 <= k < prefix.len() implies (#[trigger] prefix[k] as int) < self.n() by {
                if k < prefix.len() - 1 {
                    assert(prefix[k] == old(path)@[k]);
                }
            }
            assert forall|k: int|
                0 <= k < prefix.len() - 1 implies #[trigger] self.row(prefix[k] as int).contains(
                prefix[k + 1],
            ) by {
                if k < prefix.len() - 2 {
                    assert(prefix[k] == old(path)@[k] && prefix[k + 1] == old(path)@[k + 1]);
                } else {
                    assert(prefix[k] == old(path)@.last() && prefix[k + 1] == current);
                }
            }
        }
        if current == target {
            let copied = copy_path(path);
            all_paths.push(copied);
            proof {
                assert(prefix.subrange(0, prefix.len() as int) =~= prefix);
                assert(self.wanted_ext(prefix, target, max_depth as int, prefix));
                assert(all_paths@[all_paths@.len() - 1]@ == prefix);
                assert forall|q: Seq<usize>| #[trigger]
                    self.wanted_ext(prefix, target, max_depth as int, q) implies path_reported(
                    all_paths@,
                    base,
                    q,
                ) by {
                    if q.len() > prefix.len() {
                        assert(q[prefix.len() - 1] == prefix[prefix.len() - 1]);
                        assert(q[prefix.len() - 1] == target);
                        assert(q[q.len() - 1] == target);
                        assert(!q.no_duplicates());
                        assert(false);
                    } else {
                        assert(q.subrange(0, prefix.len() as int) =~= q);
                        assert(q == prefix);
                        assert(all_paths@[base]@ == q);
                    }
                }
            }
        } else {
            let plen = path.len();
            if plen < max_depth {
                let row_len = self.out_edges[current].len();
                let mut t: usize = 0;
                while t < row_len
                    invariant
                        self.well_formed(),
                        (current as int) < self.n(),
                        (target as int) < self.n(),
                        current != target,
                        visited@.len() == self.n(),
                        path@ == prefix,
                        prefix == old(path)@.push(current),
                        prefix.len() < max_depth,
                        prefix.no_duplicates(),
                        prefix.last() == current,
                        forall|j: int|
                            0 <= j < self.n() ==> ((#[trigger] visited@[j]) <==> prefix.contains(
                                j as usize,
                            )),
                        forall|k: int|
                            0 <= k < prefix.len() ==> (#[trigger] prefix[k] as int) < self.n(),
                        forall|k: int|
                            0 <= k < prefix.len() - 1 ==> #[trigger] self.row(
                                prefix[k] as int,
                            ).contains(prefix[k + 1]),
                        row_len == self.row(current as int).len(),
                        t <= row_len,
                        0 <= base,
                        all_paths@.len() >= base,
                        forall|t2: int|
                            0 <= t2 < base ==> (#[trigger] all_paths@[t2]) == old(all_paths)@[t2],
                        forall|t2: int|
                            base <= t2 < all_paths@.len() ==> self.wanted_ext(
                                prefix,
                                target,
                                max_depth as int,
                                (#[trigger] all_paths@[t2])@,
                            ),
                        forall|q: Seq<usize>|
                            #[trigger] self.wanted_ext(prefix, target, max_depth as int, q)
                                && q.len() > prefix.len() && self.row(current as int).subrange(
                                0,
                                t as int,
                            ).contains(q[prefix.len() as int]) ==> path_reported(
                                all_paths@,
                                base,
                                q,
                            ),
                        forall|t1: int, t2: int|
                            #![trigger all_paths@[t1], all_paths@[t2]]
                            base <= t1 < t2 < all_paths@.len() ==> all_paths@[t1]@
                                != all_paths@[t2]@,
                        forall|t2: int|
                            base <= t2 < all_paths@.len() ==> (#[trigger] all_paths@[t2])@.len()
                                > prefix.len() && self.row(current as int).subrange(
                                0,
                                t as int,
                            ).contains(all_paths@[t2]@[prefix.len() as int]),
                    decreases row_len - t,
                {
                    let w = self.out_edges[current][t];
                    let ghost sub_pre = self.row(current as int).subrange(0, t as int);
                    let ghost sub_post = self.row(current as int).subrange(0, t as int + 1);
                    proof {
                        assert(sub_post.last() == w);
                        assert forall|x: usize| sub_pre.contains(x) implies sub_post.contains(
                            x,
                        ) by {
                            let k = choose|k: int| 0 <= k < sub_pre.len() && sub_pre[k] == x;
                            assert(sub_post[k] == x);
                        }
                        assert forall|x: usize|
                            sub_post.contains(x) && x != w implies sub_pre.contains(x) by {
                            let k = choose|k: int| 0 <= k < sub_post.len() && sub_post[k] == x;
                            assert(k < sub_pre.len());
                            assert(sub_pre[k] == x);
                        }
                    }
                    let mut dup = false;
                    let mut t0: usize = 0;
                    while t0 < t
                        invariant
                            self.well_formed(),
                            (current as int) < self.n(),
                            row_len == self.row(current as int).len(),
                            t0 <= t,
                            t < row_len,
                            w == self.row(current as int)[t as int],
                            dup <==> exists|x: int|
                                0 <= x < t0 && #[trigger] self.row(current as int)[x] == w,
                        decreases t - t0,
                    {
                        if self.out_edges[current][t0] == w {
                            dup = true;
                            proof {
                                assert(self.row(current as int)[t0 as int] == w);
                            }
                        }
                        t0 = t0 + 1;
                    }
                    proof {
                        if dup {
                            let x = choose|x: int|
                                0 <= x < t && #[trigger] self.row(current as int)[x] == w;
                            assert(sub_pre[x] == w);
                            assert(sub_pre.contains(w));
                        } else {
                            if sub_pre.contains(w) {
                                let x = choose|x: int|
                                    0 <= x < sub_pre.len() && sub_pre[x] == w;
                                assert(self.row(current as int)[x] == w);
                                assert(false);
                            }
                        }
                        assert(dup <==> sub_pre.contains(w));
                    }
                    if !dup && !visited[w] {
                        let ghost mid = all_paths@;
                        self.dfs_find_paths(w, target, path, visited, all_paths, max_depth);
                        proof {
                            assert forall|t2: int|
                                base <= t2 < all_paths@.len() implies self.wanted_ext(
                                prefix,
                                target,
                                max_depth as int,
                                (#[trigger] all_paths@[t2])@,
                            ) by {
                                if t2 < mid.len() {
                                    assert(all_paths@[t2] == mid[t2]);
                                } else {
                                    let q = all_paths@[t2]@;
                                    assert(self.wanted_ext(
                                        prefix.push(w),
                                        target,
                                        max_depth as int,
                                        q,
                                    ));
                                    assert(q.subrange(0, prefix.len() as int + 1) == prefix.push(w));
                                    assert forall|k: int|
                                        0 <= k < prefix.len() implies q[k] == prefix[k] by {
                                        assert(q.subrange(0, prefix.len() as int + 1)[k] == q[k]);
                                        assert(prefix.push(w)[k] == prefix[k]);
                                    }
                                    assert(q.subrange(0, prefix.len() as int) =~= prefix);
                                }
                            }
                            assert forall|q: Seq<usize>|
                                #[trigger] self.wanted_ext(prefix, target, max_depth as int, q)
                                    && q.len() > prefix.len() && sub_post.contains(
                                    q[prefix.len() as int],
                                ) implies path_reported(all_paths@, base, q) by {
                                if q[prefix.len() as int] == w {
                                    assert(q.subrange(0, prefix.len() as int + 1) =~= prefix.push(w)) by {
                                        assert forall|k: int|
                                            0 <= k < prefix.len() as int + 1 implies q.subrange(
                                            0,
                                            prefix.len() as int + 1,
                                        )[k] == prefix.push(w)[k] by {
                                            if k < prefix.len() {
                                                assert(q.subrange(0, prefix.len() as int)[k]
                                                    == q[k]);
                                            }
                                        }
                                    }
                                    assert(self.wanted_ext(
                                        prefix.push(w),
                                        target,
                                        max_depth as int,
                                        q,
                                    ));
                                    assert(path_reported(all_paths@, mid.len() as int, q));
                                    let t3 = choose|t3: int|
                                        mid.len() <= t3 < all_paths@.len() && (
                                        #[trigger] all_paths@[t3])@ == q;
                                    assert(base <= t3);
                                } else {
                                    assert(sub_pre.contains(q[prefix.len() as int]));
                                    assert(path_reported(mid, base, q));
                                    let t3 = choose|t3: int|
                                        base <= t3 < mid.len() && (#[trigger] mid[t3])@ == q;
                                    assert(all_paths@[t3] == mid[t3]);
                                }
                            }
                            assert forall|t2: int|
                                base <= t2 < all_paths@.len() implies (
                            #[trigger] all_paths@[t2])@.len() > prefix.len() && sub_post.contains(
                                all_paths@[t2]@[prefix.len() as int],
                            ) by {
                                if t2 < mid.len() {
                                    assert(all_paths@[t2] == mid[t2]);
                                    assert(sub_pre.contains(mid[t2]@[prefix.len() as int]));
                                } else {
                                    let q = all_paths@[t2]@;
                                    assert(self.wanted_ext(
                                        prefix.push(w),
                                        target,
                                        max_depth as int,
                                        q,
                                    ));
                                    assert(q.subrange(0, prefix.len() as int + 1) == prefix.push(
                                        w,
                                    ));
                                    assert(q[prefix.len() as int] == q.subrange(
                                        0,
                                        prefix.len() as int + 1,
                                    )[prefix.len() as int]);
                                    assert(q[prefix.len() as int] == w);
                                    assert(sub_post.last() == w);
                                    assert(sub_post.contains(w));
                                }
                            }
                            assert forall|t1: int, t2: int|
                                #![trigger all_paths@[t1], all_paths@[t2]]
                                base <= t1 < t2 < all_paths@.len() implies all_paths@[t1]@
                                != all_paths@[t2]@ by {
                                if t2 < mid.len() {
                                    assert(all_paths@[t1] == mid[t1]);
                                    assert(all_paths@[t2] == mid[t2]);
                                } else if t1 >= mid.len() {
                                    assert((#[trigger] all_paths@[t1])@ != (
                                    #[trigger] all_paths@[t2])@);
                                } else {
                                    let q1 = all_paths@[t1]@;
                                    let q2 = all_paths@[t2]@;
                                    assert(all_paths@[t1] == mid[t1]);
                                    assert(sub_pre.contains(mid[t1]@[prefix.len() as int]));
                                    assert(self.wanted_ext(
                                        prefix.push(w),
                                        target,
                                        max_depth as int,
                                        q2,
                                    ));
                                    assert(q2.subrange(0, prefix.len() as int + 1) == prefix.push(
                                        w,
                                    ));
                                    assert(q2[prefix.len() as int] == q2.subrange(
                                        0,
                                        prefix.len() as int + 1,
                                    )[prefix.len() as int]);
                                    assert(q2[prefix.len() as int] == w);
                                    assert(!sub_pre.contains(w));
                                    if q1 == q2 {
                                        assert(q1[prefix.len() as int] == w);
                                        assert(sub_pre.contains(w));
                                        assert(false);
                                    }
                                }
                            }
                        }
                    } else {
                        proof {
                            assert forall|q: Seq<usize>|
                                #[trigger] self.wanted_ext(prefix, target, max_depth as int, q)
                                    && q.len() > prefix.len() && sub_post.contains(
                                    q[prefix.len() as int],
                                ) implies path_reported(all_paths@, base, q) by {
                                if q[prefix.len() as int] == w {
                                    if dup {
                                        assert(sub_pre.contains(q[prefix.len() as int]));
                                    } else {
                                        assert(prefix.contains(w));
                                        let k = choose|k: int|
                                            0 <= k < prefix.len() && prefix[k] == w;
                                        assert(q.subrange(0, prefix.len() as int)[k] == q[k]);
                                        assert(q[k] == w);
                                        assert(q[k] == q[prefix.len() as int]);
                                        assert(!q.no_duplicates());
                                        assert(false);
                                    }
                                } else {
                                    assert(sub_pre.contains(q[prefix.len() as int]));
                                }
                            }
                            assert forall|t2: int|
                                base <= t2 < all_paths@.len() implies (
                            #[trigger] all_paths@[t2])@.len() > prefix.len() && sub_post.contains(
                                all_paths@[t2]@[prefix.len() as int],
                            ) by {
                                assert(sub_pre.contains(all_paths@[t2]@[prefix.len() as int]));
                            }
                        }
                    }
                    t = t + 1;
                }
                proof {
                    assert forall|q: Seq<usize>| #[trigger]
                        self.wanted_ext(prefix, target, max_depth as int, q) implies path_reported(
                        all_paths@,
                        base,
                        q,
                    ) by {
                        if q.len() == prefix.len() {
                            assert(q.subrange(0, prefix.len() as int) =~= q);
                            assert(q == prefix);
                            assert(q.last() == current);
                            assert(false);
                        } else {
                            let ll = prefix.len() as int;
                            assert(q[ll - 1] == q.subrange(0, ll)[ll - 1]);
                            assert(q[ll - 1] == current);
                            assert(self.row(q[ll - 1] as int).contains(q[ll]));
                            let k = choose|k: int|
                                0 <= k < self.row(current as int).len() && self.row(
                                    current as int,
                                )[k] == q[ll];
                            assert(self.row(current as int).subrange(0, row_len as int) =~= self.row(
                                current as int,
                            ));
                            assert(self.row(current as int).subrange(0, row_len as int).contains(
                                q[ll],
                            ));
                        }
                    }
                }
            } else {
                proof {
                    assert forall|q: Seq<usize>| #[trigger]
                        self.wanted_ext(prefix, target, max_depth as int, q) implies path_reported(
                        all_paths@,
                        base,
                        q,
                    ) by {
                        assert(q.len() <= max_depth);
                        assert(q.len() == prefix.len());
                        assert(q.subrange(0, prefix.len() as int) =~= q);
                        assert(q == prefix);
                        assert(q.last() == current);
                        assert(false);
                    }
                }
            }
        }
        let ghost vmid = visited@;
        path.pop();
        visited[current] = false;
        proof {
            vstd::std_specs::vec::axiom_spec_len(&self.nodes);
            assert(path@ =~= old(path)@);
            assert(visited@ =~= old(visited)@) by {
                assert(!old(path)@.contains(current));
                assert(!old(visited)@[current as int]);
                assert forall|j: int|
                    0 <= j < visited@.len() implies visited@[j] == old(visited)@[j] by {
                    if j != current as int {
                        assert(visited@[j] == vmid[j]);
                        assert(vmid[j] == (prefix.contains(j as usize)));
                        if old(path)@.contains(j as usize) {
                            let k = choose|k: int|
                                0 <= k < old(path)@.len() && old(path)@[k] == j as usize;
                            assert(prefix[k] == j as usize);
                            assert(prefix.contains(j as usize));
                        }
                        if prefix.contains(j as usize) {
                            let k = choose|k: int|
                                0 <= k < prefix.len() && prefix[k] == j as usize;
                            assert(k < prefix.len() - 1);
                            assert(old(path)@[k] == j as usize);
                            assert(old(path)@.contains(j as usize));
                        }
                        assert(old(visited)@[j] == (old(path)@.contains(j as usize)));
                    }
                }
            }
        }
    }

    /// Finds every simple path from `from` to `to`, as sequences of node
    /// indices, whose node count does not exceed `max_depth` — each such
    /// path exactly once, even in the presence of duplicate edges.
    /// Unknown endpoints yield an empty result; so does a start equal to
    /// the end when `max_depth` is 0.
    pub fn find_paths(&self, from: &str, to: &str, max_depth: u32) -> (paths: Vec<Vec<usize>>)
        requires
            self.well_formed(),
        ensures
            !(self.has_id(from@) && self.has_id(to@)) ==> paths@.len() == 0,
            self.has_id(from@) && self.has_id(to@) ==> forall|p: Seq<usize>|
                #![trigger path_reported(paths@, 0, p)]
                #![trigger self.wanted_path(self.idx_of(from@) as usize, self.idx_of(to@) as usize, max_depth as int, p)]
                path_reported(paths@, 0, p) <==> self.wanted_path(
                    self.idx_of(from@) as usize,
                    self.idx_of(to@) as usize,
                    max_depth as int,
                    p,
                ),
            forall|t1: int, t2: int|
                #![trigger paths@[t1], paths@[t2]]
                0 <= t1 < t2 < paths@.len() ==> paths@[t1]@ != paths@[t2]@,
    {
        let start = match self.node_index(from) {
            Option::Some(s) => s,
            Option::None => {
                return Vec::new();
            },
        };
        let end = match self.node_index(to) {
            Option::Some(e) => e,
            Option::None => {
                return Vec::new();
            },
        };
        if max_depth == 0 {
            let empty_paths: Vec<Vec<usize>> = Vec::new();
            proof {
                assert forall|p: Seq<usize>|
                    #![trigger path_reported(empty_paths@, 0, p)]
                    #![trigger self.wanted_path(start, end, max_depth as int, p)]
                    path_reported(empty_paths@, 0, p) <==> self.wanted_path(
                    start,
                    end,
                    max_depth as int,
                    p,
                ) by {
                    assert(!path_reported(empty_paths@, 0, p));
                    assert(!self.wanted_path(start, end, max_depth as int, p));
                }
            }
            return empty_paths;
        }
        let n = self.nodes.len();
        let mut path: Vec<usize> = Vec::new();
        let mut visited: Vec<bool> = make_flags(n);
        let mut all_paths: Vec<Vec<usize>> = Vec::new();
        self.dfs_find_paths(start, end, &mut path, &mut visited, &mut all_paths, max_depth as usize);
        proof {
            let prefix1 = Seq::<usize>::empty().push(start);
            assert forall|p: Seq<usize>|
                #![trigger path_reported(all_paths@, 0, p)]
                #![trigger self.wanted_path(start, end, max_depth as int, p)]
                path_reported(all_paths@, 0, p) <==> self.wanted_path(
                start,
                end,
                max_depth as int,
                p,
            ) by {
                if path_reported(all_paths@, 0, p) {
                    let t = choose|t: int|
                        0 <= t < all_paths@.len() && (#[trigger] all_paths@[t])@ == p;
                    assert(self.wanted_ext(prefix1, end, max_depth as int, p));
                    assert(p[0] == p.subrange(0, 1)[0]);
                    assert(p[0] == start);
                    assert(self.wanted_path(start, end, max_depth as int, p));
                }
                if self.wanted_path(start, end, max_depth as int, p) {
                    assert(p.subrange(0, 1) =~= prefix1);
                    assert(self.wanted_ext(prefix1, end, max_depth as int, p));
                    assert(path_reported(all_paths@, 0, p));
                }
            }
        }
        all_paths
    }
}

/// Law: a path enumeration result that satisfies the `find_paths`
/// contract never holds a path with a repeated node, nor one with more
/// nodes than the supplied maximum.
pub proof fn lemma_reported_paths_simple_and_bounded(
    g: GraphStore,
    a: usize,
    b: usize,
    max: int,
    paths: Seq<Vec<usize>>,
    t: int,
)
    requires
        forall|p: Seq<usize>|
            #![trigger path_reported(paths, 0, p)]
            #![trigger g.wanted_path(a, b, max, p)]
            path_reported(paths, 0, p) <==> g.wanted_path(a, b, max, p),
        0 <= t < paths.len(),
    ensures
        paths[t]@.no_duplicates(),
        paths[t]@.len() <= max,
{
    let p = paths[t]@;
    assert(path_reported(paths, 0, p));
    assert(g.wanted_path(a, b, max, p));
}

/// An element-for-element copy of a path.
fn copy_path(p: &Vec<usize>) -> (r: Vec<usize>)
    ensures
        r@ == p@,
{
    let mut r: Vec<usize> = Vec::new();
    let mut i: usize = 0;
    while i < p.len()
        invariant
            i <= p@.len(),
            r@ == p@.subrange(0, i as int),
        decreases p@.len() - i,
    {
        r.push(p[i]);
        proof {
            assert(r@ =~= p@.subrange(0, i as int + 1));
        }
        i = i + 1;
    }
    proof {
        assert(p@.subrange(0, p@.len() as int) =~= p@);
    }
    r
}

/// A vector of `n` cleared flags.
fn make_flags(n: usize) -> (v: Vec<bool>)
    ensures
        v@.len() == n,
        forall|i: int| 0 <= i < n ==> !(#[trigger] v@[i]),
{
    let mut v: Vec<bool> = Vec::new();
    let mut j: usize = 0;
    while j < n
        invariant
            j <= n,
            v@.len() == j,
            forall|x: int| 0 <= x < j ==> !(#[trigger] v@[x]),
        decreases n - j,
    {
        v.push(false);
        j = j + 1;
    }
    v
}

} // verus!
