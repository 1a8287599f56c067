//! `GraphStore`: canonical, indexed storage for nodes and edges.
//!
//! Nodes live in a flat vector and are addressed by stable integer
//! indices; a bucket table maps each id to its index. The adjacency
//! index (`out_edges` / `in_edges`) is a derived structure that must be
//! explicitly rebuilt with [`GraphStore::build_adjacency`] after a batch
//! of insertions; queries run against the index as of the last rebuild.

use vstd::prelude::*;
use vstd::string::StringSliceAdditionalSpecFns;

use crate::graph::edge::Edge;
use crate::graph::node::Node;

verus! {

/// Number of hash buckets in the id index.
pub const NUM_BUCKETS: usize = 1024;

/// Hash over the first `k` bytes of `bs` (Horner scheme, wrapping).
pub open spec fn hash_bytes_upto(bs: Seq<u8>, k: int) -> u64
    decreases k,
{
    if k <= 0 {
        0u64
    } else {
        vstd::wrapping::u64_specs::wrapping_add(
            vstd::wrapping::u64_specs::wrapping_mul(hash_bytes_upto(bs, k - 1), 31u64),
            bs[k - 1] as u64,
        )
    }
}

/// Hash of an id, as a function of its character sequence alone.
pub open spec fn id_hash(id: Seq<char>) -> u64 {
    hash_bytes_upto(vstd::utf8::encode_utf8(id), vstd::utf8::encode_utf8(id).len() as int)
}

/// The bucket an id belongs to.
pub open spec fn bucket_of(id: Seq<char>) -> int {
    id_hash(id) as int % (NUM_BUCKETS as int)
}

/// Computes `id_hash` at runtime.
fn hash_str(s: &str) -> (h: u64)
    ensures
        h == id_hash(s@),
{
    let bs: &[u8] = s.as_bytes();
    let end: usize = bs.len();
    let mut h: u64 = 0;
    let mut i: usize = 0;
    while i < end
        invariant
            end == bs@.len(),
            bs@ == s.spec_bytes(),
            i <= end,
            h == hash_bytes_upto(bs@, i as int),
        decreases end - i,
    {
        h = h.wrapping_mul(31).wrapping_add(bs[i] as u64);
        i = i + 1;
    }
    h
}

/// Main graph storage structure.
pub struct GraphStore {
    /// All nodes, in insertion order; a node's position is its index.
    pub nodes: Vec<Node>,
    /// All edges, in insertion order; duplicates and self-loops allowed.
    pub edges: Vec<Edge>,
    /// Id index: bucket `b` holds the indices of all nodes whose id
    /// hashes into `b`.
    pub id_buckets: Vec<Vec<usize>>,
    /// Outgoing adjacency rows, one per node, by node index.
    pub out_edges: Vec<Vec<usize>>,
    /// Incoming adjacency rows, one per node, by node index.
    pub in_edges: Vec<Vec<usize>>,
}

impl GraphStore {
    /// Number of stored nodes.
    pub open spec fn n(self) -> int {
        self.nodes@.len() as int
    }

    /// Some node carries this id.
    pub open spec fn has_id(self, id: Seq<char>) -> bool {
        exists|i: int| 0 <= i < self.n() && self.nodes@[i].id@ == id
    }

    /// The index of the node with this id (meaningful when `has_id`).
    pub open spec fn idx_of(self, id: Seq<char>) -> int {
        choose|i: int| 0 <= i < self.n() && self.nodes@[i].id@ == id
    }

    /// Node ids are pairwise distinct.
    pub open spec fn ids_distinct(self) -> bool {
        forall|i: int, j: int|
            0 <= i < self.n() && 0 <= j < self.n() && i != j ==> self.nodes@[i].id@
                != self.nodes@[j].id@
    }

    /// The id index is a sound and complete bucket table.
    pub open spec fn buckets_ok(self) -> bool {
        &&& self.id_buckets@.len() == NUM_BUCKETS
        &&& forall|b: int, k: int|
            0 <= b < NUM_BUCKETS as int && 0 <= k < self.id_buckets@[b]@.len() ==> {
                &&& (#[trigger] self.id_buckets@[b]@[k] as int) < self.n()
                &&& bucket_of(self.nodes@[self.id_buckets@[b]@[k] as int].id@) == b
            }
        &&& forall|i: int|
            0 <= i < self.n() ==> #[trigger] self.id_buckets@[bucket_of(
                self.nodes@[i].id@,
            )]@.contains(i as usize)
    }

    /// Adjacency rows exist for every node and hold valid node indices.
    pub open spec fn adjacency_wf(self) -> bool {
        &&& self.out_edges@.len() == self.n()
        &&& self.in_edges@.len() == self.n()
        &&& forall|i: int, k: int|
            0 <= i < self.n() && 0 <= k < self.out_edges@[i]@.len() ==> (
            #[trigger] self.out_edges@[i]@[k] as int) < self.n()
        &&& forall|i: int, k: int|
            0 <= i < self.n() && 0 <= k < self.in_edges@[i]@.len() ==> (
            #[trigger] self.in_edges@[i]@[k] as int) < self.n()
    }

    /// Structural invariant of the store: established by `new` and
    /// preserved by every mutating operation.
    pub open spec fn well_formed(self) -> bool {
        &&& self.ids_distinct()
        &&& self.buckets_ok()
        &&& self.adjacency_wf()
    }

    /// Both endpoints of the edge name known nodes.
    pub open spec fn edge_resolves(self, e: Edge) -> bool {
        self.has_id(e.from@) && self.has_id(e.to@)
    }

    /// Outgoing adjacency row `i` as built from the first `k` edges:
    /// for each resolvable edge leaving node `i`, in order, the index of
    /// its target.
    pub open spec fn out_row_upto(self, i: int, k: int) -> Seq<usize>
        decreases k,
    {
        if k <= 0 {
            Seq::empty()
        } else {
            let prev = self.out_row_upto(i, k - 1);
            let e = self.edges@[k - 1];
            if self.edge_resolves(e) && self.idx_of(e.from@) == i {
                prev.push(self.idx_of(e.to@) as usize)
            } else {
                prev
            }
        }
    }

    /// Incoming adjacency row `i` as built from the first `k` edges.
    pub open spec fn in_row_upto(self, i: int, k: int) -> Seq<usize>
        decreases k,
    {
        if k <= 0 {
            Seq::empty()
        } else {
            let prev = self.in_row_upto(i, k - 1);
            let e = self.edges@[k - 1];
            if self.edge_resolves(e) && self.idx_of(e.to@) == i {
                prev.push(self.idx_of(e.from@) as usize)
            } else {
                prev
            }
        }
    }

    /// The full outgoing adjacency row for node `i`.
    pub open spec fn out_row(self, i: int) -> Seq<usize> {
        self.out_row_upto(i, self.edges@.len() as int)
    }

    /// The full incoming adjacency row for node `i`.
    pub open spec fn in_row(self, i: int) -> Seq<usize> {
        self.in_row_upto(i, self.edges@.len() as int)
    }

    /// The adjacency index reflects the current edge sequence.
    pub open spec fn adjacency_built(self) -> bool {
        forall|i: int|
            0 <= i < self.n() ==> (#[trigger] self.out_edges@[i]@) == self.out_row(i)
                && self.in_edges@[i]@ == self.in_row(i)
    }

    /// Creates a new empty `GraphStore`.
    pub fn new() -> (s: GraphStore)
        ensures
            s.well_formed(),
            s.nodes@.len() == 0,
            s.edges@.len() == 0,
            s.adjacency_built(),
    {
        let mut id_buckets: Vec<Vec<usize>> = Vec::new();
        let mut b: usize = 0;
        while b < NUM_BUCKETS
            invariant
                b <= NUM_BUCKETS,
                id_buckets@.len() == b,
                forall|x: int| 0 <= x < b ==> #[trigger] id_buckets@[x]@.len() == 0,
            decreases NUM_BUCKETS - b,
        {
            id_buckets.push(Vec::new());
            b = b + 1;
        }
        GraphStore {
            nodes: Vec::new(),
            edges: Vec::new(),
            id_buckets,
            out_edges: Vec::new(),
            in_edges: Vec::new(),
        }
    }

    /// Looks an id up in the index, returning the node's integer index.
    pub fn node_index(&self, id: &str) -> (r: Option<usize>)
        requires
            self.well_formed(),
        ensures
            match r {
                Some(i) => {
                    &&& (i as int) < self.n()
                    &&& self.nodes@[i as int].id@ == id@
                    &&& i as int == self.idx_of(id@)
                },
                None => !self.has_id(id@),
            },
    {
        let h = hash_str(id);
        let b = (h % (NUM_BUCKETS as u64)) as usize;
        let id_string: String = id.to_owned();
        let blen = self.id_buckets[b].len();
        let mut k: usize = 0;
        while k < blen
            invariant
                self.well_formed(),
                b as int == bucket_of(id@),
                b < NUM_BUCKETS,
                blen == self.id_buckets@[b as int]@.len(),
                id_string@ == id@,
                k <= blen,
                forall|t: int|
                    0 <= t < k ==> self.nodes@[
                        #[trigger] self.id_buckets@[b as int]@[t] as int
                    ].id@ != id@,
            decreases blen - k,
        {
            let cand = self.id_buckets[b][k];
            if self.nodes[cand].id == id_string {
                proof {
                    assert(self.nodes@[cand as int].id@ == id@);
                    assert(self.has_id(id@));
                    let w = self.idx_of(id@);
                    assert(0 <= w < self.n() && self.nodes@[w].id@ == id@);
                    assert(cand as int == w);
                }
                return Some(cand);
            }
            k = k + 1;
        }
        proof {
            if self.has_id(id@) {
                let w = self.idx_of(id@);
                vstd::std_specs::vec::axiom_spec_len(&self.nodes);
                assert(self.nodes@.len() <= usize::MAX);
                assert(0 <= w < self.n() && self.nodes@[w].id@ == id@);
                assert(self.id_buckets@[bucket_of(self.nodes@[w].id@)]@.contains(w as usize));
                assert(bucket_of(self.nodes@[w].id@) == b as int);
                let bkt = self.id_buckets@[b as int]@;
                let t = choose|t: int| 0 <= t < bkt.len() && bkt[t] == w as usize;
                assert(self.nodes@[bkt[t] as int].id@ != id@);
                assert(bkt[t] as int == w);
                assert(false);
            }
        }
        None
    }

    /// Gets a node by id.
    pub fn get_node(&self, id: &str) -> (r: Option<&Node>)
        requires
            self.well_formed(),
        ensures
            match r {
                Some(node) => self.has_id(id@) && *node == self.nodes@[self.idx_of(id@)],
                None => !self.has_id(id@),
            },
    {
        match self.node_index(id) {
            Some(i) => Some(&self.nodes[i]),
            None => None,
        }
    }

    /// Adds a node. If a node with the same id already exists, the new
    /// node replaces it in place, keeping the old integer index; otherwise
    /// it is appended, together with fresh empty adjacency rows.
    pub fn add_node(&mut self, node: Node)
        requires
            old(self).well_formed(),
        ensures
            final(self).well_formed(),
            final(self).edges@ == old(self).edges@,
            final(self).has_id(node.id@),
            final(self).id_buckets@.len() == NUM_BUCKETS,
            old(self).has_id(node.id@) ==> {
                &&& final(self).nodes@ == old(self).nodes@.update(
                    old(self).idx_of(node.id@),
                    node,
                )
                &&& final(self).out_edges@ == old(self).out_edges@
                &&& final(self).in_edges@ == old(self).in_edges@
            },
            !old(self).has_id(node.id@) ==> {
                &&& final(self).nodes@ == old(self).nodes@.push(node)
                &&& final(self).out_edges@.len() == old(self).nodes@.len() + 1
                &&& final(self).in_edges@.len() == old(self).nodes@.len() + 1
                &&& forall|i: int|
                    0 <= i < old(self).nodes@.len() ==> (#[trigger] final(self).out_edges@[i])
                        == old(self).out_edges@[i] && final(self).in_edges@[i]
                        == old(self).in_edges@[i]
                &&& final(self).out_edges@[old(self).nodes@.len() as int]@.len() == 0
                &&& final(self).in_edges@[old(self).nodes@.len() as int]@.len() == 0
            },
    {
        let idx_opt = self.node_index(node.id.as_str());
        match idx_opt {
            Some(i) => {
                proof {
                    assert(old(self).nodes@[i as int].id@ == node.id@);
                }
                self.nodes[i] = node;
                proof {
                    let pre = *old(self);
                    let post = *self;
                    assert(post.nodes@ == pre.nodes@.update(i as int, node));
                    assert forall|a: int| 0 <= a < post.n() implies (#[trigger] post.nodes@[a].id@)
                        == pre.nodes@[a].id@ by {
                        if a == i as int {
                            assert(post.nodes@[a] == node);
                        }
                    }
                    assert(post.ids_distinct());
                    assert forall|b: int, k: int|
                        0 <= b < NUM_BUCKETS as int && 0 <= k
                            < post.id_buckets@[b]@.len() implies {
                        &&& (#[trigger] post.id_buckets@[b]@[k] as int) < post.n()
                        &&& bucket_of(post.nodes@[post.id_buckets@[b]@[k] as int].id@) == b
                    } by {
                        let x = post.id_buckets@[b]@[k] as int;
                        assert((pre.id_buckets@[b]@[k] as int) < pre.n());
                        assert(post.nodes@[x].id@ == pre.nodes@[x].id@);
                    }
                    assert forall|i2: int| 0 <= i2 < post.n() implies #[trigger] post.id_buckets@[bucket_of(
                        post.nodes@[i2].id@,
                    )]@.contains(i2 as usize) by {
                        assert(post.nodes@[i2].id@ == pre.nodes@[i2].id@);
                        assert(pre.id_buckets@[bucket_of(pre.nodes@[i2].id@)]@.contains(
                            i2 as usize,
                        ));
                    }
                    assert(post.nodes@[i as int].id@ == node.id@);
                    assert(post.has_id(node.id@));
                }
            },
            None => {
                let h = hash_str(node.id.as_str());
                let b = (h % (NUM_BUCKETS as u64)) as usize;
                let i = self.nodes.len();
                self.nodes.push(node);
                self.id_buckets[b].push(i);
                self.out_edges.push(Vec::new());
                self.in_edges.push(Vec::new());
                proof {
                    let pre = *old(self);
                    let post = *self;
                    assert(post.nodes@ == pre.nodes@.push(node));
                    assert(post.nodes@[pre.n()] == node);
                    assert forall|a: int, c: int|
                        0 <= a < post.n() && 0 <= c < post.n() && a != c implies post.nodes@[a].id@
                        != post.nodes@[c].id@ by {
                        if a < pre.n() && c < pre.n() {
                            assert(pre.nodes@[a].id@ != pre.nodes@[c].id@);
                        } else if a == pre.n() {
                            assert(post.nodes@[c].id@ == pre.nodes@[c].id@);
                            assert(!pre.has_id(node.id@));
                        } else {
                            assert(post.nodes@[a].id@ == pre.nodes@[a].id@);
                            assert(!pre.has_id(node.id@));
                        }
                    }
                    assert(post.id_buckets@[b as int]@ == pre.id_buckets@[b as int]@.push(
                        i as usize,
                    ));
                    assert forall|b2: int, k: int|
                        0 <= b2 < NUM_BUCKETS as int && 0 <= k
                            < post.id_buckets@[b2]@.len() implies {
                        &&& (#[trigger] post.id_buckets@[b2]@[k] as int) < post.n()
                        &&& bucket_of(post.nodes@[post.id_buckets@[b2]@[k] as int].id@) == b2
                    } by {
                        if b2 == b as int && k == post.id_buckets@[b2]@.len() - 1 {
                            assert(post.id_buckets@[b2]@[k] == i as usize);
                            assert(post.nodes@[i as int].id@ == node.id@);
                        } else {
                            assert(post.id_buckets@[b2]@[k] == pre.id_buckets@[b2]@[k]);
                            let x = pre.id_buckets@[b2]@[k] as int;
                            assert(x < pre.n());
                            assert(post.nodes@[x].id@ == pre.nodes@[x].id@);
                        }
                    }
                    assert forall|i2: int| 0 <= i2 < post.n() implies #[trigger] post.id_buckets@[bucket_of(
                        post.nodes@[i2].id@,
                    )]@.contains(i2 as usize) by {
                        if i2 < pre.n() {
                            assert(post.nodes@[i2].id@ == pre.nodes@[i2].id@);
                            let bb = bucket_of(pre.nodes@[i2].id@);
                            assert(pre.id_buckets@[bb]@.contains(i2 as usize));
                            let t = choose|t: int|
                                0 <= t < pre.id_buckets@[bb]@.len() && pre.id_buckets@[bb]@[t]
                                    == i2 as usize;
                            if bb == b as int {
                                assert(post.id_buckets@[bb]@[t] == i2 as usize);
                            } else {
                                assert(post.id_buckets@[bb]@ == pre.id_buckets@[bb]@);
                            }
                            assert(post.id_buckets@[bb]@.contains(i2 as usize));
                        } else {
                            assert(post.nodes@[i2].id@ == node.id@);
                            let bkt = post.id_buckets@[b as int]@;
                            assert(bkt[bkt.len() - 1] == i2 as usize);
                            assert(bkt.contains(i2 as usize));
                        }
                    }
                    assert(post.has_id(node.id@));
                }
            },
        }
    }

    /// Appends an edge unconditionally; endpoints are not validated here.
    pub fn add_edge(&mut self, edge: Edge)
        requires
            old(self).well_formed(),
        ensures
            final(self).well_formed(),
            final(self).nodes@ == old(self).nodes@,
            final(self).edges@ == old(self).edges@.push(edge),
            final(self).out_edges@ == old(self).out_edges@,
            final(self).in_edges@ == old(self).in_edges@,
    {
        self.edges.push(edge);
    }

    /// Clears and rebuilds the adjacency index from the current edge
    /// sequence. Edges with an unresolvable endpoint are skipped without
    /// error; they stay in storage and contribute nothing to the index.
    pub fn build_adjacency(&mut self)
        requires
            old(self).well_formed(),
        ensures
            final(self).well_formed(),
            final(self).nodes@ == old(self).nodes@,
            final(self).edges@ == old(self).edges@,
            final(self).id_buckets@ == old(self).id_buckets@,
            final(self).adjacency_built(),
    {
        let n = self.nodes.len();
        let m = self.edges.len();
        let mut out_rows: Vec<Vec<usize>> = Vec::new();
        let mut in_rows: Vec<Vec<usize>> = Vec::new();
        let mut j: usize = 0;
        while j < n
            invariant
                j <= n,
                out_rows@.len() == j,
                in_rows@.len() == j,
                forall|x: int| 0 <= x < j ==> #[trigger] out_rows@[x]@.len() == 0,
                forall|x: int| 0 <= x < j ==> #[trigger] in_rows@[x]@.len() == 0,
            decreases n - j,
        {
            out_rows.push(Vec::new());
            in_rows.push(Vec::new());
            j = j + 1;
        }
        let mut k: usize = 0;
        while k < m
            invariant
                self.well_formed(),
                n == self.n(),
                m == self.edges@.len(),
                k <= m,
                out_rows@.len() == n,
                in_rows@.len() == n,
                forall|i: int|
                    0 <= i < n ==> (#[trigger] out_rows@[i]@) == self.out_row_upto(i, k as int),
                forall|i: int|
                    0 <= i < n ==> (#[trigger] in_rows@[i]@) == self.in_row_upto(i, k as int),
            decreases m - k,
        {
            let ghost pre_out = out_rows@;
            let ghost pre_in = in_rows@;
            let from_opt = self.node_index(self.edges[k].from.as_str());
            let to_opt = self.node_index(self.edges[k].to.as_str());
            match (from_opt, to_opt) {
                (Some(f), Some(t)) => {
                    out_rows[f].push(t);
                    in_rows[t].push(f);
                    proof {
                        let e = self.edges@[k as int];
                        assert(self.has_id(e.from@) && self.has_id(e.to@));
                        assert(self.edge_resolves(e));
                        assert(f as int == self.idx_of(e.from@));
                        assert(t as int == self.idx_of(e.to@));
                        assert forall|i: int| 0 <= i < n implies (#[trigger] out_rows@[i]@)
                            == self.out_row_upto(i, k as int + 1) by {
                            assert(pre_out[i]@ == self.out_row_upto(i, k as int));
                            if i == f as int {
                                assert(out_rows@[i]@ == pre_out[i]@.push(t));
                            } else {
                                assert(out_rows@[i]@ == pre_out[i]@);
                            }
                        }
                        assert forall|i: int| 0 <= i < n implies (#[trigger] in_rows@[i]@)
                            == self.in_row_upto(i, k as int + 1) by {
                            assert(pre_in[i]@ == self.in_row_upto(i, k as int));
                            if i == t as int {
                                assert(in_rows@[i]@ == pre_in[i]@.push(f));
                            } else {
                                assert(in_rows@[i]@ == pre_in[i]@);
                            }
                        }
                    }
                },
                _ => {
                    proof {
                        let e = self.edges@[k as int];
                        assert(!self.edge_resolves(e));
                        assert forall|i: int| 0 <= i < n implies (#[trigger] out_rows@[i]@)
                            == self.out_row_upto(i, k as int + 1) by {
                            assert(out_rows@[i]@ == self.out_row_upto(i, k as int));
                        }
                        assert forall|i: int| 0 <= i < n implies (#[trigger] in_rows@[i]@)
                            == self.in_row_upto(i, k as int + 1) by {
                            assert(in_rows@[i]@ == self.in_row_upto(i, k as int));
                        }
                    }
                },
            }
            k = k + 1;
        }
        self.out_edges = out_rows;
        self.in_edges = in_rows;
        proof {
            let pre = *old(self);
            let post = *self;
            assert forall|i: int| 0 <= i < post.n() implies (#[trigger] post.out_edges@[i]@)
                == post.out_row(i) && post.in_edges@[i]@ == post.in_row(i) by {
                lemma_same_prefix_rows(pre, post, i, pre.edges@.len() as int);
            }
            post.lemma_rows_bounded();
            assert forall|i: int, k2: int|
                0 <= i < post.n() && 0 <= k2 < post.out_edges@[i]@.len() implies (
            #[trigger] post.out_edges@[i]@[k2] as int) < post.n() by {
                assert(post.out_edges@[i]@ == post.out_row(i));
                assert((post.out_row(i)[k2] as int) < post.n());
            }
            assert forall|i: int, k2: int|
                0 <= i < post.n() && 0 <= k2 < post.in_edges@[i]@.len() implies (
            #[trigger] post.in_edges@[i]@[k2] as int) < post.n() by {
                lemma_same_prefix_rows(pre, post, i, pre.edges@.len() as int);
                assert(post.in_edges@[i]@ == post.in_row(i));
                assert((post.in_row(i)[k2] as int) < post.n());
            }
        }
    }

    /// Every index placed in an adjacency row by the row specification is
    /// a valid node index.
    proof fn lemma_row_upto_bounded(self, i: int, k: int)
        ensures
            forall|t: int|
                0 <= t < self.out_row_upto(i, k).len() ==> (#[trigger] self.out_row_upto(i, k)[t]
                    as int) < self.n(),
            forall|t: int|
                0 <= t < self.in_row_upto(i, k).len() ==> (#[trigger] self.in_row_upto(i, k)[t]
                    as int) < self.n(),
        decreases k,
    {
        if k > 0 {
            self.lemma_row_upto_bounded(i, k - 1);
            let e = self.edges@[k - 1];
            let prev_out = self.out_row_upto(i, k - 1);
            let prev_in = self.in_row_upto(i, k - 1);
            if self.edge_resolves(e) {
                assert(0 <= self.idx_of(e.to@) < self.n() && self.nodes@[self.idx_of(e.to@)].id@
                    == e.to@);
                assert(0 <= self.idx_of(e.from@) < self.n() && self.nodes@[self.idx_of(
                    e.from@,
                )].id@ == e.from@);
            }
            assert forall|t: int| 0 <= t < self.out_row_upto(i, k).len() implies (
            #[trigger] self.out_row_upto(i, k)[t] as int) < self.n() by {
                if t < prev_out.len() {
                    assert(self.out_row_upto(i, k)[t] == prev_out[t]);
                }
            }
            assert forall|t: int| 0 <= t < self.in_row_upto(i, k).len() implies (
            #[trigger] self.in_row_upto(i, k)[t] as int) < self.n() by {
                if t < prev_in.len() {
                    assert(self.in_row_upto(i, k)[t] == prev_in[t]);
                }
            }
        }
    }

    /// As `lemma_row_upto_bounded`, for every row at once.
    proof fn lemma_rows_bounded(self)
        ensures
            forall|i: int, t: int|
                0 <= t < self.out_row(i).len() ==> (#[trigger] self.out_row(i)[t] as int)
                    < self.n(),
            forall|i: int, t: int|
                0 <= t < self.in_row(i).len() ==> (#[trigger] self.in_row(i)[t] as int) < self.n(),
    {
        assert forall|i: int, t: int| 0 <= t < self.out_row(i).len() implies (
        #[trigger] self.out_row(i)[t] as int) < self.n() by {
            self.lemma_row_upto_bounded(i, self.edges@.len() as int);
        }
        assert forall|i: int, t: int| 0 <= t < self.in_row(i).len() implies (
        #[trigger] self.in_row(i)[t] as int) < self.n() by {
            self.lemma_row_upto_bounded(i, self.edges@.len() as int);
        }
    }

    /// Returns the number of nodes (distinct ids).
    pub fn node_count(&self) -> (c: usize)
        ensures
            c as int == self.n(),
    {
        self.nodes.len()
    }

    /// Returns the number of stored edges (duplicates counted).
    pub fn edge_count(&self) -> (c: usize)
        ensures
            c == self.edges@.len(),
    {
        self.edges.len()
    }
}

impl Default for GraphStore {
    /// An empty store, exactly as [`GraphStore::new`] builds it.
    fn default() -> (s: Self)
        ensures
            s.well_formed(),
            s.nodes@.len() == 0,
            s.edges@.len() == 0,
            s.adjacency_built(),
    {
        GraphStore::new()
    }
}

/// Law: an edge with an unresolvable endpoint contributes nothing to a
/// rebuilt adjacency index. Appending such an edge and rebuilding leaves
/// every adjacency row exactly as it was.
pub proof fn lemma_unresolved_edge_ignored(pre: GraphStore, post: GraphStore, e: Edge)
    requires
        !pre.edge_resolves(e),
        post.nodes@ == pre.nodes@,
        post.edges@ == pre.edges@.push(e),
    ensures
        forall|i: int| #[trigger] post.out_row(i) == pre.out_row(i),
        forall|i: int| #[trigger] post.in_row(i) == pre.in_row(i),
{
    assert forall|i: int| #[trigger] post.out_row(i) == pre.out_row(i) by {
        lemma_same_prefix_rows(pre, post, i, pre.edges@.len() as int);
        assert(post.edges@[post.edges@.len() - 1] == e);
        assert(!post.has_id(e.from@) || !post.has_id(e.to@));
        assert(post.out_row_upto(i, post.edges@.len() as int) == post.out_row_upto(
            i,
            pre.edges@.len() as int,
        ));
    }
    assert forall|i: int| #[trigger] post.in_row(i) == pre.in_row(i) by {
        lemma_same_prefix_rows(pre, post, i, pre.edges@.len() as int);
        assert(post.edges@[post.edges@.len() - 1] == e);
        assert(!post.has_id(e.from@) || !post.has_id(e.to@));
        assert(post.in_row_upto(i, post.edges@.len() as int) == post.in_row_upto(
            i,
            pre.edges@.len() as int,
        ));
    }
}

/// Adjacency rows depend only on the node list and the edge prefix read.
proof fn lemma_same_prefix_rows(pre: GraphStore, post: GraphStore, i: int, k: int)
    requires
        post.nodes@ == pre.nodes@,
        k <= pre.edges@.len(),
        forall|t: int| 0 <= t < k ==> post.edges@[t] == pre.edges@[t],
    ensures
        post.out_row_upto(i, k) == pre.out_row_upto(i, k),
        post.in_row_upto(i, k) == pre.in_row_upto(i, k),
    decreases k,
{
    if k > 0 {
        lemma_same_prefix_rows(pre, post, i, k - 1);
        assert(post.edges@[k - 1] == pre.edges@[k - 1]);
    }
}

} // verus!
