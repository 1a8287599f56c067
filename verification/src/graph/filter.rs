//! Domain filtering operations.

use vstd::prelude::*;

use crate::graph::node::Node;
use crate::graph::store::GraphStore;

verus! {

/// `d` occurs among the domain names `ds`.
pub open spec fn matches_domains(d: Seq<char>, ds: Seq<&str>) -> bool {
    exists|q: int| 0 <= q < ds.len() && (#[trigger] ds[q])@ == d
}

/// Runtime test for `matches_domains`.
fn domain_matches(d: &String, domains: &[&str]) -> (b: bool)
    ensures
        b == matches_domains(d@, domains@),
{
    let mut q: usize = 0;
    while q < domains.len()
        invariant
            q <= domains@.len(),
            forall|x: int| 0 <= x < q ==> (#[trigger] domains@[x])@ != d@,
        decreases domains@.len() - q,
    {
        let cand: String = domains[q].to_owned();
        if *d == cand {
            return true;
        }
        q = q + 1;
    }
    false
}

impl GraphStore {
    /// The nodes among the first `k` whose domain is in `ds`, in
    /// storage order.
    pub open spec fn nodes_matching_upto(self, ds: Seq<&str>, k: int) -> Seq<Node>
        decreases k,
    {
        if k <= 0 {
            Seq::empty()
        } else {
            let prev = self.nodes_matching_upto(ds, k - 1);
            if matches_domains(self.nodes@[k - 1].domain@, ds) {
                prev.push(self.nodes@[k - 1])
            } else {
                prev
            }
        }
    }

    /// Returns the nodes whose domain is among `domains`, in storage
    /// order.
    pub fn filter_by_domain<'a>(&'a self, domains: &[&str]) -> (result: Vec<&'a Node>)
        ensures
            result@.len() == self.nodes_matching_upto(domains@, self.n()).len(),
            forall|t: int|
                0 <= t < result@.len() ==> *(#[trigger] result@[t]) == self.nodes_matching_upto(
                    domains@,
                    self.n(),
                )[t],
    {
        let mut result: Vec<&Node> = Vec::new();
        let n = self.nodes.len();
        let mut i: usize = 0;
        while i < n
            invariant
                n == self.n(),
                i <= n,
                result@.len() == self.nodes_matching_upto(domains@, i as int).len(),
                forall|t: int|
                    0 <= t < result@.len() ==> *(#[trigger] result@[t])
                        == self.nodes_matching_upto(domains@, i as int)[t],
            decreases n - i,
        {
            let keep = domain_matches(&self.nodes[i].domain, domains);
            if keep {
                result.push(&self.nodes[i]);
            }
            proof {
                let next = self.nodes_matching_upto(domains@, i as int + 1);
                let prev = self.nodes_matching_upto(domains@, i as int);
                if matches_domains(self.nodes@[i as int].domain@, domains@) {
                    assert(next == prev.push(self.nodes@[i as int]));
                } else {
                    assert(next == prev);
                }
            }
            i = i + 1;
        }
        result
    }

    /// What a filtered neighborhood query must return: the nodes of the
    /// `depth`-hop reach set, other than the start node, whose domain is
    /// among `ds`, each exactly once.
    pub open spec fn neighbors_filtered_post(
        self,
        start: usize,
        depth: u32,
        ds: Seq<&str>,
        result: Seq<&Node>,
    ) -> bool {
        &&& forall|t: int|
            0 <= t < result.len() ==> #[trigger] self.neighbor_entry_ok(start, depth, result, t)
        &&& forall|t: int|
            0 <= t < result.len() ==> matches_domains((#[trigger] result[t]).domain@, ds)
        &&& forall|j: usize|
            (j as int) < self.n() && j != start && #[trigger] self.reach_within(
                start,
                depth as nat,
            ).contains(j) && matches_domains(self.nodes@[j as int].domain@, ds)
                ==> self.neighbor_found(result, j)
        &&& forall|t1: int, t2: int|
            0 <= t1 < t2 < result.len() ==> (*result[t1]).id@ != (*result[t2]).id@
    }

    /// Returns the `depth`-hop neighbors of `node_id` whose domain is
    /// among `domains`.
    pub fn neighbors_filtered<'a>(
        &'a self,
        node_id: &str,
        depth: u32,
        domains: &[&str],
    ) -> (result: Vec<&'a Node>)
        requires
            self.well_formed(),
        ensures
            depth == 0 ==> result@.len() == 0,
            !self.has_id(node_id@) ==> result@.len() == 0,
            self.has_id(node_id@) ==> self.neighbors_filtered_post(
                self.idx_of(node_id@) as usize,
                depth,
                domains@,
                result@,
            ),
    {
        let all = self.neighbors(node_id, depth);
        let ghost start = self.idx_of(node_id@) as usize;
        let mut result: Vec<&Node> = Vec::new();
        let ghost mut srcs: Seq<int> = Seq::empty();
        let alen = all.len();
        let mut i: usize = 0;
        while i < alen
            invariant
                self.well_formed(),
                alen == all@.len(),
                i <= alen,
                self.has_id(node_id@) ==> self.neighbors_post(start, depth, all@),
                !self.has_id(node_id@) ==> all@.len() == 0,
                depth == 0 ==> all@.len() == 0,
                srcs.len() == result@.len(),
                forall|t: int| 0 <= t < srcs.len() ==> 0 <= #[trigger] srcs[t] < i,
                forall|t1: int, t2: int| 0 <= t1 < t2 < srcs.len() ==> srcs[t1] < srcs[t2],
                forall|t: int|
                    0 <= t < srcs.len() ==> *(#[trigger] result@[t]) == *all@[srcs[t]],
                forall|t: int|
                    0 <= t < srcs.len() ==> matches_domains(
                        (*(#[trigger] result@[t])).domain@,
                        domains@,
                    ),
                forall|t0: int|
                    0 <= t0 < i && matches_domains((*(#[trigger] all@[t0])).domain@, domains@)
                        ==> exists|t: int| 0 <= t < result@.len() && *(#[trigger] result@[t])
                        == *all@[t0],
            decreases alen - i,
        {
            let entry = all[i];
            let ghost rpre = result@;
            let ghost spre = srcs;
            let keep = domain_matches(&entry.domain, domains);
            if keep {
                result.push(entry);
                proof {
                    srcs = spre.push(i as int);
                }
            }
            proof {
                assert forall|t0: int|
                    0 <= t0 < i + 1 && matches_domains(
                        (*(#[trigger] all@[t0])).domain@,
                        domains@,
                    ) implies exists|t: int|
                    0 <= t < result@.len() && *(#[trigger] result@[t]) == *all@[t0] by {
                    if t0 == i as int {
                        assert(result@[result@.len() - 1] == entry);
                        assert(*(result@[result@.len() - 1]) == *all@[t0]);
                    } else {
                        let t = choose|t: int|
                            0 <= t < rpre.len() && *(#[trigger] rpre[t]) == *all@[t0];
                        assert(result@[t] == rpre[t]);
                        assert(*(result@[t]) == *all@[t0]);
                    }
                }
            }
            i = i + 1;
        }
        proof {
            if all@.len() == 0 && result@.len() > 0 {
                assert(0 <= srcs[0] < alen as int);
                assert(false);
            }
            if self.has_id(node_id@) {
                assert forall|t: int|
                    0 <= t < result@.len() implies #[trigger] self.neighbor_entry_ok(
                    start,
                    depth,
                    result@,
                    t,
                ) by {
                    let t0 = srcs[t];
                    assert(self.neighbor_entry_ok(start, depth, all@, t0));
                    let j = choose|j: usize|
                        {
                            &&& (j as int) < self.n()
                            &&& j != start
                            &&& #[trigger] self.reach_within(start, depth as nat).contains(j)
                            &&& *all@[t0] == self.nodes@[j as int]
                        };
                    assert((j as int) < self.n() && j != start && self.reach_within(
                        start,
                        depth as nat,
                    ).contains(j) && *result@[t] == self.nodes@[j as int]);
                }
                assert forall|j: usize|
                    (j as int) < self.n() && j != start && #[trigger] self.reach_within(
                        start,
                        depth as nat,
                    ).contains(j) && matches_domains(
                        self.nodes@[j as int].domain@,
                        domains@,
                    ) implies self.neighbor_found(result@, j) by {
                    assert(self.neighbor_found(all@, j));
                    let t0 = choose|t0: int|
                        0 <= t0 < all@.len() && *all@[t0] == self.nodes@[j as int];
                    assert(matches_domains((*all@[t0]).domain@, domains@));
                    let t = choose|t: int|
                        0 <= t < result@.len() && *(#[trigger] result@[t]) == *all@[t0];
                    assert(0 <= t < result@.len() && *result@[t] == self.nodes@[j as int]);
                }
                assert forall|t1: int, t2: int|
                    0 <= t1 < t2 < result@.len() implies (*result@[t1]).id@ != (
                *result@[t2]).id@ by {
                    assert(srcs[t1] < srcs[t2]);
                    assert((*all@[srcs[t1]]).id@ != (*all@[srcs[t2]]).id@);
                    assert(*result@[t1] == *all@[srcs[t1]]);
                    assert(*result@[t2] == *all@[srcs[t2]]);
                }
                assert(self.neighbors_filtered_post(start, depth, domains@, result@));
            }
        }
        result
    }
}

} // verus!
