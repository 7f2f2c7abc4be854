//! The road graph: pruned nodes and the directed adjacency built from ways.
//!
//! Building is the step after parsing: nodes that no road way references are
//! dropped, each way's reference list is filtered down to the nodes that
//! exist, and every consecutive pair of the filtered list becomes a directed
//! edge (both directions unless the way is one-way).

use vstd::prelude::*;
use std::collections::HashMap;
use crate::elements::{Edge, Node, Way};
use crate::geo::{spec_distance, MAX_DISTANCE_METERS};

verus! {

broadcast use vstd::seq_lib::group_filter_ensures;

/// The built graph: nodes by id, outgoing edges by source id, and the node
/// ids as a list (the iteration order for coordinate snapping).
#[derive(Debug)]
pub struct Graph {
    pub nodes: HashMap<i64, Node>,
    pub adjacency: HashMap<i64, Vec<Edge>>,
    pub node_ids: Vec<i64>,
}

/// Whether some way references node `k`.
pub open spec fn referenced(ways: Seq<Way>, k: i64) -> bool {
    exists|j: int| 0 <= j < ways.len() && #[trigger] ways[j].nodes@.contains(k)
}

/// A way's reference list with the refs of missing nodes dropped.
pub open spec fn filtered_refs(refs: Seq<i64>, nodes: Map<i64, Node>) -> Seq<i64> {
    refs.filter(|r: i64| nodes.contains_key(r))
}

proof fn lemma_filtered_refs_push(refs: Seq<i64>, nodes: Map<i64, Node>, x: i64)
    ensures
        filtered_refs(refs.push(x), nodes) == if nodes.contains_key(x) {
            filtered_refs(refs, nodes).push(x)
        } else {
            filtered_refs(refs, nodes)
        },
{
    reveal(Seq::filter);
    assert(refs.push(x).drop_last() =~= refs);
    assert(refs.push(x).last() == x);
}

/// Whether positions `i, i+1` of `f` give the ordered pair `(u, v)`:
/// directly, or reversed when the way is bidirectional.
pub open spec fn pair_at(f: Seq<i64>, oneway: bool, i: int, u: i64, v: i64) -> bool {
    (f[i] == u && f[i + 1] == v) || (!oneway && f[i] == v && f[i + 1] == u)
}

/// Whether the way contributes the directed pair `(u, v)` from one of its
/// first `upto` filtered positions.
pub open spec fn way_pair_upto(w: Way, nodes: Map<i64, Node>, upto: int, u: i64, v: i64) -> bool {
    let f = filtered_refs(w.nodes@, nodes);
    exists|i: int|
        0 <= i < upto && i + 1 < f.len() && #[trigger] pair_at(f, w.is_oneway, i, u, v)
}

/// Whether the way contributes the directed pair `(u, v)`.
pub open spec fn way_pair(w: Way, nodes: Map<i64, Node>, u: i64, v: i64) -> bool {
    way_pair_upto(w, nodes, filtered_refs(w.nodes@, nodes).len() as int, u, v)
}

/// Whether some way contributes the directed pair `(u, v)`.
pub open spec fn ways_pair(ways: Seq<Way>, nodes: Map<i64, Node>, u: i64, v: i64) -> bool {
    exists|j: int| 0 <= j < ways.len() && way_pair(#[trigger] ways[j], nodes, u, v)
}

/// Pairs contributed by the first `j` ways, plus the first `i` positions of
/// way `j`.
pub open spec fn pair_upto(
    ways: Seq<Way>,
    nodes: Map<i64, Node>,
    j: int,
    i: int,
    u: i64,
    v: i64,
) -> bool {
    ||| exists|jj: int| 0 <= jj < j && way_pair(#[trigger] ways[jj], nodes, u, v)
    ||| (0 <= j < ways.len() && way_pair_upto(ways[j], nodes, i, u, v))
}

/// Whether the adjacency holds this exact edge, under its source key.
pub open spec fn adj_has(adj: Map<i64, Vec<Edge>>, e: Edge) -> bool {
    adj.contains_key(e.from) && adj[e.from]@.contains(e)
}

/// Every edge sits under its source key, every list is duplicate-free, and
/// no list is empty.
pub open spec fn adj_tidy(adj: Map<i64, Vec<Edge>>) -> bool {
    &&& forall|k: i64, i: int|
        adj.contains_key(k) && 0 <= i < adj[k]@.len() ==> (#[trigger] adj[k]@[i]).from == k
    &&& forall|k: i64|
        #[trigger] adj.contains_key(k) ==> adj[k]@.no_duplicates() && adj[k]@.len() > 0
}

/// What the adjacency of a built graph holds: exactly the contributed pairs,
/// weighted by the endpoint distance.
pub open spec fn edge_expected(nodes: Map<i64, Node>, ways: Seq<Way>, x: Edge) -> bool {
    &&& nodes.contains_key(x.from)
    &&& nodes.contains_key(x.to)
    &&& ways_pair(ways, nodes, x.from, x.to)
    &&& x.distance == spec_distance(nodes[x.from].position, nodes[x.to].position)
}

/// Pairs already emitted while the ways are walked: those of the first `j`
/// ways and of the first `i` positions of way `j`.
pub open spec fn edge_upto(
    nodes: Map<i64, Node>,
    ways: Seq<Way>,
    j: int,
    i: int,
    x: Edge,
) -> bool {
    &&& nodes.contains_key(x.from)
    &&& nodes.contains_key(x.to)
    &&& pair_upto(ways, nodes, j, i, x.from, x.to)
    &&& x.distance == spec_distance(nodes[x.from].position, nodes[x.to].position)
}

/// The exact description of a built graph's edges over its own nodes: an
/// edge is present exactly when some way contributes its endpoint pair, and
/// its weight is the distance between the endpoints.
pub open spec fn edges_exact(g: Graph, ways: Seq<Way>) -> bool {
    forall|x: Edge| #[trigger] adj_has(g.adjacency@, x) <==> edge_expected(g.nodes@, ways, x)
}

/// The exact description of a built graph's nodes: a node is kept exactly
/// when it was parsed and some (road) way references it, unchanged.
pub open spec fn nodes_exact(g: Graph, nodes_in: Map<i64, Node>, ways: Seq<Way>) -> bool {
    &&& forall|k: i64|
        #[trigger] g.nodes@.contains_key(k) <==> nodes_in.contains_key(k) && referenced(ways, k)
    &&& forall|k: i64| #[trigger] g.nodes@.contains_key(k) ==> g.nodes@[k] == nodes_in[k]
}

/// A graph built from these parsed nodes and (road) ways, exactly.
pub open spec fn built_from(g: Graph, nodes_in: Map<i64, Node>, ways: Seq<Way>) -> bool {
    &&& nodes_exact(g, nodes_in, ways)
    &&& edges_exact(g, ways)
}

impl Graph {
    /// The structural invariant: the id list mirrors the node map's keys,
    /// nodes are keyed by their own id, adjacency keys and edge endpoints
    /// are nodes, and every edge's weight is its endpoints' distance.
    pub open spec fn wf(self) -> bool {
        &&& self.node_ids@.no_duplicates()
        &&& forall|i: int|
            0 <= i < self.node_ids@.len() ==> self.nodes@.contains_key(
                #[trigger] self.node_ids@[i],
            )
        &&& forall|k: i64| #[trigger] self.nodes@.contains_key(k) ==> self.node_ids@.contains(k)
        &&& forall|k: i64| #[trigger] self.nodes@.contains_key(k) ==> self.nodes@[k].id == k
        &&& forall|k: i64|
            #[trigger] self.adjacency@.contains_key(k) ==> self.nodes@.contains_key(k)
        &&& forall|k: i64, i: int|
            self.adjacency@.contains_key(k) && 0 <= i < self.adjacency@[k]@.len() ==> {
                let e = #[trigger] self.adjacency@[k]@[i];
                &&& e.from == k
                &&& self.nodes@.contains_key(e.to)
                &&& e.distance == spec_distance(
                    self.nodes@[e.from].position,
                    self.nodes@[e.to].position,
                )
                &&& e.distance <= MAX_DISTANCE_METERS
            }
    }

    /// Whether the graph has a directed edge from `u` to `v`.
    pub open spec fn has_edge(self, u: i64, v: i64) -> bool {
        exists|d: u64| adj_has(self.adjacency@, Edge { from: u, to: v, distance: d })
    }

    /// How many nodes the graph retains.
    pub fn node_count(&self) -> (n: usize)
        ensures
            n == self.nodes@.len(),
    {
        self.nodes.len()
    }

    /// The node stored under this id, if any.
    pub fn get_node(&self, id: i64) -> (r: Option<&Node>)
        ensures
            match r {
                Some(n) => self.nodes@.contains_key(id) && *n == self.nodes@[id],
                None => !self.nodes@.contains_key(id),
            },
    {
        self.nodes.get(&id)
    }

    /// The outgoing edges of this node, if it has any.
    pub fn edges_of(&self, id: i64) -> (r: Option<&Vec<Edge>>)
        ensures
            match r {
                Some(es) => self.adjacency@.contains_key(id) && es@ == self.adjacency@[id]@,
                None => !self.adjacency@.contains_key(id),
            },
    {
        self.adjacency.get(&id)
    }
}

/// Node `k` is referenced by the first `j` ways, or by one of the first `i`
/// refs of way `j`.
pub open spec fn referenced_upto(ways: Seq<Way>, j: int, i: int, k: i64) -> bool {
    ||| referenced(ways.subrange(0, j), k)
    ||| (0 <= j < ways.len() && ways[j].nodes@.subrange(0, i).contains(k))
}

proof fn lemma_referenced_way_step(ways: Seq<Way>, j: int)
    requires
        0 <= j < ways.len(),
    ensures
        forall|k: i64|
            #[trigger] referenced_upto(ways, j + 1, 0, k) <==> referenced_upto(
                ways,
                j,
                ways[j].nodes@.len() as int,
                k,
            ),
{
    assert forall|k: i64|
        #[trigger] referenced_upto(ways, j + 1, 0, k) <==> referenced_upto(
            ways,
            j,
            ways[j].nodes@.len() as int,
            k,
        ) by {
        assert(ways[j].nodes@.subrange(0, ways[j].nodes@.len() as int) =~= ways[j].nodes@);
        if referenced(ways.subrange(0, j + 1), k) {
            let jj = choose|jj: int|
                0 <= jj < ways.subrange(0, j + 1).len() && #[trigger] ways.subrange(
                    0,
                    j + 1,
                )[jj].nodes@.contains(k);
            if jj < j {
                assert(ways.subrange(0, j)[jj].nodes@.contains(k));
            } else {
                assert(ways[j].nodes@.contains(k));
            }
        }
        if referenced(ways.subrange(0, j), k) {
            let jj = choose|jj: int|
                0 <= jj < ways.subrange(0, j).len() && #[trigger] ways.subrange(
                    0,
                    j,
                )[jj].nodes@.contains(k);
            assert(ways.subrange(0, j + 1)[jj].nodes@.contains(k));
        }
        if ways[j].nodes@.contains(k) {
            assert(ways.subrange(0, j + 1)[j].nodes@.contains(k));
        }
    }
}

/// Drops every parsed node that no way references; the returned list holds
/// the kept ids exactly once each.
fn prune_nodes(nodes_in: &HashMap<i64, Node>, ways: &Vec<Way>) -> (r: (
    HashMap<i64, Node>,
    Vec<i64>,
))
    ensures
        forall|k: i64|
            #[trigger] r.0@.contains_key(k) <==> nodes_in@.contains_key(k) && referenced(
                ways@,
                k,
            ),
        forall|k: i64| #[trigger] r.0@.contains_key(k) ==> r.0@[k] == nodes_in@[k],
        r.1@.no_duplicates(),
        forall|i: int| 0 <= i < r.1@.len() ==> r.0@.contains_key(#[trigger] r.1@[i]),
        forall|k: i64| #[trigger] r.0@.contains_key(k) ==> r.1@.contains(k),
{
    let mut kept: HashMap<i64, Node> = HashMap::new();
    let mut ids: Vec<i64> = Vec::new();
    let nways = ways.len();
    proof {
        assert(ways@.subrange(0, 0) =~= Seq::<Way>::empty());
    }
    let mut j: usize = 0;
    while j < nways
        invariant
            0 <= j <= nways,
            nways == ways@.len(),
            forall|k: i64|
                #[trigger] kept@.contains_key(k) <==> nodes_in@.contains_key(k)
                    && referenced_upto(ways@, j as int, 0, k),
            forall|k: i64| #[trigger] kept@.contains_key(k) ==> kept@[k] == nodes_in@[k],
            ids@.no_duplicates(),
            forall|i: int| 0 <= i < ids@.len() ==> kept@.contains_key(#[trigger] ids@[i]),
            forall|k: i64| #[trigger] kept@.contains_key(k) ==> ids@.contains(k),
        decreases nways - j,
    {
        let nrefs = ways[j].nodes.len();
        proof {
            assert(ways@[j as int].nodes@.subrange(0, 0) =~= Seq::<i64>::empty());
        }
        let mut i: usize = 0;
        while i < nrefs
            invariant
                0 <= i <= nrefs,
                0 <= j < nways,
                nways == ways@.len(),
                nrefs == ways@[j as int].nodes@.len(),
                forall|k: i64|
                    #[trigger] kept@.contains_key(k) <==> nodes_in@.contains_key(k)
                        && referenced_upto(ways@, j as int, i as int, k),
                forall|k: i64| #[trigger] kept@.contains_key(k) ==> kept@[k] == nodes_in@[k],
                ids@.no_duplicates(),
                forall|i2: int| 0 <= i2 < ids@.len() ==> kept@.contains_key(#[trigger] ids@[i2]),
                forall|k: i64| #[trigger] kept@.contains_key(k) ==> ids@.contains(k),
            decreases nrefs - i,
        {
            let r = ways[j].nodes[i];
            proof {
                let refs = ways@[j as int].nodes@;
                assert forall|k: i64|
                    #[trigger] referenced_upto(ways@, j as int, i as int + 1, k)
                        <==> referenced_upto(ways@, j as int, i as int, k) || k == r by {
                    let p = refs.subrange(0, i as int + 1);
                    if p.contains(k) {
                        let x = choose|x: int| 0 <= x < p.len() && p[x] == k;
                        if x < i {
                            assert(refs.subrange(0, i as int)[x] == k);
                        } else {
                            assert(k == r);
                        }
                    }
                    if refs.subrange(0, i as int).contains(k) {
                        let x = choose|x: int|
                            0 <= x < refs.subrange(0, i as int).len() && refs.subrange(
                                0,
                                i as int,
                            )[x] == k;
                        assert(p[x] == k);
                        assert(p.contains(k));
                    }
                    if k == r {
                        assert(p[i as int] == k);
                        assert(p.contains(k));
                    }
                }
            }
            if !kept.contains_key(&r) {
                match nodes_in.get(&r) {
                    Some(n) => {
                        let ghost old_ids = ids@;
                        kept.insert(r, *n);
                        ids.push(r);
                        proof {
                            assert forall|k: i64| #[trigger] kept@.contains_key(k) implies
                                ids@.contains(k) by {
                                if k == r {
                                    assert(ids@[ids@.len() - 1] == k);
                                } else {
                                    let x = choose|x: int|
                                        0 <= x < old_ids.len() && old_ids[x] == k;
                                    assert(ids@[x] == k);
                                }
                            }
                        }
                    },
                    None => {},
                }
            }
            i = i + 1;
        }
        proof {
            lemma_referenced_way_step(ways@, j as int);
        }
        j = j + 1;
    }
    proof {
        assert(ways@.subrange(0, nways as int) =~= ways@);
        assert forall|k: i64|
            #[trigger] kept@.contains_key(k) <==> nodes_in@.contains_key(k) && referenced(
                ways@,
                k,
            ) by {
            assert(referenced_upto(ways@, nways as int, 0, k) == referenced(ways@, k));
        }
    }
    (kept, ids)
}

fn edge_vec_contains(v: &Vec<Edge>, e: Edge) -> (r: bool)
    ensures
        r == v@.contains(e),
{
    let n = v.len();
    let mut i: usize = 0;
    while i < n
        invariant
            0 <= i <= n,
            n == v@.len(),
            forall|j: int| 0 <= j < i ==> v@[j] != e,
        decreases n - i,
    {
        if v[i] == e {
            return true;
        }
        i = i + 1;
    }
    false
}

/// Inserts an edge under its source key, once.
fn insert_edge(adj: &mut HashMap<i64, Vec<Edge>>, e: Edge)
    requires
        adj_tidy(old(adj)@),
    ensures
        adj_tidy(final (adj)@),
        forall|x: Edge| #[trigger] adj_has(final (adj)@, x) <==> adj_has(old(adj)@, x) || x == e,
{
    let mut list: Vec<Edge> = match adj.remove(&e.from) {
        Some(v) => v,
        None => Vec::new(),
    };
    let ghost old_list = list@;
    if !edge_vec_contains(&list, e) {
        list.push(e);
    }
    adj.insert(e.from, list);
    proof {
        assert forall|x: Edge| #[trigger] adj_has(adj@, x) implies adj_has(old(adj)@, x) || x
            == e by {
            if x.from == e.from {
                if adj@[e.from]@.contains(x) && x != e {
                    let i = choose|i: int|
                        0 <= i < adj@[e.from]@.len() && adj@[e.from]@[i] == x;
                    assert(old_list.contains(x));
                }
            }
        }
        assert forall|x: Edge| adj_has(old(adj)@, x) || x == e implies #[trigger] adj_has(
            adj@,
            x,
        ) by {
            if x == e {
                if !old_list.contains(e) {
                    assert(adj@[e.from]@.last() == e);
                }
            } else {
                if x.from == e.from {
                    let i = choose|i: int| 0 <= i < old_list.len() && old_list[i] == x;
                    assert(adj@[e.from]@[i] == x);
                }
            }
        }
        assert forall|k: i64, i: int|
            adj@.contains_key(k) && 0 <= i < adj@[k]@.len() implies (#[trigger] adj@[k]@[i]).from
            == k && adj@[k]@.no_duplicates() by {
            if k == e.from {
                if old(adj)@.contains_key(e.from) {
                    assert(forall|ii: int, jj: int|
                        0 <= ii < old_list.len() && 0 <= jj < old_list.len() && ii != jj
                            ==> old_list[ii] != old_list[jj]);
                }
            }
        }
    }
}

proof fn lemma_pair_step(ways: Seq<Way>, nodes: Map<i64, Node>, j: int, i: int)
    requires
        0 <= j < ways.len(),
        0 <= i,
        i + 1 < filtered_refs(ways[j].nodes@, nodes).len(),
    ensures
        forall|u: i64, v: i64|
            #[trigger] pair_upto(ways, nodes, j, i + 1, u, v) <==> pair_upto(ways, nodes, j, i, u, v)
                || pair_at(filtered_refs(ways[j].nodes@, nodes), ways[j].is_oneway, i, u, v),
{
    let f = filtered_refs(ways[j].nodes@, nodes);
    assert forall|u: i64, v: i64|
        #[trigger] pair_upto(ways, nodes, j, i + 1, u, v) <==> pair_upto(ways, nodes, j, i, u, v)
            || pair_at(f, ways[j].is_oneway, i, u, v) by {
        if way_pair_upto(ways[j], nodes, i + 1, u, v) {
            let x = choose|x: int|
                0 <= x < i + 1 && x + 1 < f.len() && #[trigger] pair_at(
                    f,
                    ways[j].is_oneway,
                    x,
                    u,
                    v,
                );
            if x < i {
                assert(way_pair_upto(ways[j], nodes, i, u, v));
            }
        }
        if pair_at(f, ways[j].is_oneway, i, u, v) {
            assert(way_pair_upto(ways[j], nodes, i + 1, u, v));
        }
        if way_pair_upto(ways[j], nodes, i, u, v) {
            let x = choose|x: int|
                0 <= x < i && x + 1 < f.len() && #[trigger] pair_at(f, ways[j].is_oneway, x, u, v);
            assert(way_pair_upto(ways[j], nodes, i + 1, u, v));
        }
    }
}

proof fn lemma_pair_way_done(ways: Seq<Way>, nodes: Map<i64, Node>, j: int, iend: int)
    requires
        0 <= j < ways.len(),
        iend + 1 >= filtered_refs(ways[j].nodes@, nodes).len(),
        iend >= 0,
    ensures
        forall|u: i64, v: i64|
            #[trigger] pair_upto(ways, nodes, j, iend, u, v) <==> pair_upto(
                ways,
                nodes,
                j + 1,
                0,
                u,
                v,
            ),
{
    let f = filtered_refs(ways[j].nodes@, nodes);
    assert forall|u: i64, v: i64|
        #[trigger] pair_upto(ways, nodes, j, iend, u, v) <==> pair_upto(
            ways,
            nodes,
            j + 1,
            0,
            u,
            v,
        ) by {
        if way_pair_upto(ways[j], nodes, iend, u, v) {
            assert(way_pair(ways[j], nodes, u, v));
        }
        if way_pair(ways[j], nodes, u, v) {
            let x = choose|x: int|
                0 <= x < f.len() && x + 1 < f.len() && #[trigger] pair_at(
                    f,
                    ways[j].is_oneway,
                    x,
                    u,
                    v,
                );
            assert(x < iend);
            assert(way_pair_upto(ways[j], nodes, iend, u, v));
        }
        if pair_upto(ways, nodes, j, iend, u, v) && !way_pair_upto(ways[j], nodes, iend, u, v) {
            let jj = choose|jj: int| 0 <= jj < j && way_pair(#[trigger] ways[jj], nodes, u, v);
            assert(pair_upto(ways, nodes, j + 1, 0, u, v));
        }
        if pair_upto(ways, nodes, j + 1, 0, u, v) {
            let jj = choose|jj: int| 0 <= jj < j + 1 && way_pair(#[trigger] ways[jj], nodes, u, v);
            if jj < j {
                assert(pair_upto(ways, nodes, j, iend, u, v));
            } else {
                assert(way_pair(ways[j], nodes, u, v));
            }
        }
    }
}

/// Builds the directed adjacency over the kept nodes: for every consecutive
/// pair of each way's filtered reference list, an edge forward, and one
/// backward unless the way is one-way.
fn build_adjacency(kept: &HashMap<i64, Node>, ways: &Vec<Way>) -> (adj: HashMap<i64, Vec<Edge>>)
    requires
        forall|k: i64| #[trigger] kept@.contains_key(k) ==> kept@[k].id == k,
    ensures
        adj_tidy(adj@),
        forall|x: Edge| #[trigger] adj_has(adj@, x) <==> edge_expected(kept@, ways@, x),
{
    let mut adj: HashMap<i64, Vec<Edge>> = HashMap::new();
    let nways = ways.len();
    let mut j: usize = 0;
    while j < nways
        invariant
            0 <= j <= nways,
            nways == ways@.len(),
            adj_tidy(adj@),
            forall|k: i64| #[trigger] kept@.contains_key(k) ==> kept@[k].id == k,
            forall|x: Edge| #[trigger] adj_has(adj@, x) <==> edge_upto(kept@, ways@, j as int, 0, x),
        decreases nways - j,
    {
        let nrefs = ways[j].nodes.len();
        let ghost w = ways@[j as int];
        // the way's reference list filtered to the kept nodes
        let mut f: Vec<i64> = Vec::new();
        proof {
            assert(w.nodes@.subrange(0, 0) =~= Seq::<i64>::empty());
            assert(filtered_refs(w.nodes@.subrange(0, 0), kept@) =~= Seq::<i64>::empty());
        }
        let mut i: usize = 0;
        while i < nrefs
            invariant
                0 <= i <= nrefs,
                0 <= j < nways,
                nways == ways@.len(),
                w == ways@[j as int],
                nrefs == w.nodes@.len(),
                f@ == filtered_refs(w.nodes@.subrange(0, i as int), kept@),
            decreases nrefs - i,
        {
            let r = ways[j].nodes[i];
            proof {
                let pre = w.nodes@.subrange(0, i as int);
                let post = w.nodes@.subrange(0, i as int + 1);
                assert(post =~= pre.push(r));
                lemma_filtered_refs_push(pre, kept@, r);
            }
            if kept.contains_key(&r) {
                f.push(r);
            }
            i = i + 1;
        }
        proof {
            assert(w.nodes@.subrange(0, nrefs as int) =~= w.nodes@);
        }
        let flen = f.len();
        let ghost fseq = filtered_refs(w.nodes@, kept@);
        let mut p: usize = 0;
        while flen >= 1 && p < flen - 1
            invariant
                0 <= p <= flen,
                flen == fseq.len(),
                0 <= j < nways,
                nways == ways@.len(),
                w == ways@[j as int],
                f@ == fseq,
                fseq == filtered_refs(w.nodes@, kept@),
                adj_tidy(adj@),
                forall|k: i64| #[trigger] kept@.contains_key(k) ==> kept@[k].id == k,
                forall|x: Edge|
                    #[trigger] adj_has(adj@, x) <==> edge_upto(
                        kept@,
                        ways@,
                        j as int,
                        p as int,
                        x,
                    ),
            decreases flen - p,
    {
            let a = f[p];
            let b = f[p + 1];
            proof {
                assert(fseq[p as int] == a);
                assert(fseq[p as int + 1] == b);
                assert(kept@.contains_key(a));
                assert(kept@.contains_key(b));
            }
            let na = *kept.get(&a).unwrap();
            let nb = *kept.get(&b).unwrap();
            let e = crate::elements::Edge::from_node_elements(&na, &nb);
            let ghost before = adj@;
            insert_edge(&mut adj, e);
            let oneway = ways[j].is_oneway;
            if !oneway {
                let er = e.reversed();
                insert_edge(&mut adj, er);
            }
            proof {
                lemma_pair_step(ways@, kept@, j as int, p as int);
                let erv = Edge { from: b, to: a, distance: e.distance };
                assert forall|x: Edge|
                    #[trigger] adj_has(adj@, x) <==> edge_upto(
                        kept@,
                        ways@,
                        j as int,
                        p as int + 1,
                        x,
                    ) by {
                    assert(pair_at(fseq, w.is_oneway, p as int, e.from, e.to));
                    if !w.is_oneway {
                        assert(pair_at(fseq, w.is_oneway, p as int, erv.from, erv.to));
                    }
                    if adj_has(adj@, x) {
                        if adj_has(before, x) {
                            assert(edge_upto(kept@, ways@, j as int, p as int, x));
                            assert(pair_upto(ways@, kept@, j as int, p as int, x.from, x.to)
                                ==> pair_upto(ways@, kept@, j as int, p as int + 1, x.from, x.to));
                        }
                    }
                    if edge_upto(kept@, ways@, j as int, p as int + 1, x)
                        && !edge_upto(kept@, ways@, j as int, p as int, x) {
                        assert(pair_at(fseq, w.is_oneway, p as int, x.from, x.to));
                        if x.from == a && x.to == b {
                            assert(x == e);
                        } else {
                            assert(!w.is_oneway && x.from == b && x.to == a);
                            assert(x == erv);
                        }
                    }
                }
            }
            p = p + 1;
        }
        proof {
            lemma_pair_way_done(ways@, kept@, j as int, p as int);
            if flen > 0 {
                assert(forall|x: Edge|
                    edge_upto(kept@, ways@, j as int, p as int, x) <==> edge_upto(
                        kept@,
                        ways@,
                        j as int + 1,
                        0,
                        x,
                    ));
            } else {
                assert(forall|u: i64, v: i64|
                    !way_pair_upto(w, kept@, 0, u, v));
            }
        }
        j = j + 1;
    }
    proof {
        assert forall|x: Edge|
            #[trigger] adj_has(adj@, x) <==> edge_expected(kept@, ways@, x) by {
            assert(pair_upto(ways@, kept@, nways as int, 0, x.from, x.to) == ways_pair(
                ways@,
                kept@,
                x.from,
                x.to,
            ));
        }
    }
    adj
}

/// Every node id used as an adjacency key is a node of the graph.
pub proof fn lemma_adjacency_keys_are_nodes(g: Graph, k: i64)
    requires
        g.wf(),
        g.adjacency@.contains_key(k),
    ensures
        g.nodes@.contains_key(k),
{
}

/// Both endpoints of every edge of the graph are nodes of the graph.
pub proof fn lemma_edge_endpoints_are_nodes(g: Graph, x: Edge)
    requires
        g.wf(),
        adj_has(g.adjacency@, x),
    ensures
        g.nodes@.contains_key(x.from),
        g.nodes@.contains_key(x.to),
{
    let i = choose|i: int| 0 <= i < g.adjacency@[x.from]@.len() && g.adjacency@[x.from]@[i] == x;
    assert(g.adjacency@[x.from]@[i] == x);
}

/// Every edge's weight is the great-circle distance between its endpoints.
pub proof fn lemma_edge_weight_is_distance(g: Graph, x: Edge)
    requires
        g.wf(),
        adj_has(g.adjacency@, x),
    ensures
        x.distance == spec_distance(g.nodes@[x.from].position, g.nodes@[x.to].position),
{
    let i = choose|i: int| 0 <= i < g.adjacency@[x.from]@.len() && g.adjacency@[x.from]@[i] == x;
    assert(g.adjacency@[x.from]@[i] == x);
}

/// No node of a built graph is absent from every way's filtered reference
/// list: each one was kept because some road way references it, and that
/// way's filtered list still holds it.
pub proof fn lemma_kept_node_on_some_way(g: Graph, ns: Map<i64, Node>, ws: Seq<Way>, k: i64)
    requires
        built_from(g, ns, ws),
        g.nodes@.contains_key(k),
    ensures
        exists|j: int|
            0 <= j < ws.len() && #[trigger] filtered_refs(ws[j].nodes@, g.nodes@).contains(k),
{
    let j = choose|j: int| 0 <= j < ws.len() && #[trigger] ws[j].nodes@.contains(k);
    let refs = ws[j].nodes@;
    let i = choose|i: int| 0 <= i < refs.len() && refs[i] == k;
    assert(filtered_refs(refs, g.nodes@).contains(refs[i]));
}

/// A bidirectional way's contribution is symmetric: whenever it contributes
/// the pair `(u, v)`, the built graph holds both the edge `u` to `v` and the
/// edge `v` to `u`, with the same weight.
pub proof fn lemma_bidirectional_symmetry(
    g: Graph,
    ns: Map<i64, Node>,
    ws: Seq<Way>,
    j: int,
    u: i64,
    v: i64,
)
    requires
        built_from(g, ns, ws),
        0 <= j < ws.len(),
        !ws[j].is_oneway,
        way_pair(ws[j], g.nodes@, u, v),
    ensures
        g.nodes@.contains_key(u),
        g.nodes@.contains_key(v),
        adj_has(
            g.adjacency@,
            Edge {
                from: u,
                to: v,
                distance: spec_distance(g.nodes@[u].position, g.nodes@[v].position),
            },
        ),
        adj_has(
            g.adjacency@,
            Edge {
                from: v,
                to: u,
                distance: spec_distance(g.nodes@[u].position, g.nodes@[v].position),
            },
        ),
{
    let f = filtered_refs(ws[j].nodes@, g.nodes@);
    let i = choose|i: int|
        0 <= i < f.len() && i + 1 < f.len() && #[trigger] pair_at(f, ws[j].is_oneway, i, u, v);
    assert(f.contains(f[i]));
    assert(f.contains(f[i + 1]));
    assert(g.nodes@.contains_key(u) && g.nodes@.contains_key(v));
    assert(pair_at(f, ws[j].is_oneway, i, v, u));
    assert(way_pair(ws[j], g.nodes@, v, u));
    assert(ways_pair(ws, g.nodes@, u, v));
    assert(ways_pair(ws, g.nodes@, v, u));
    crate::geo::lemma_distance_round_trip(g.nodes@[u].position, g.nodes@[v].position);
    let d = spec_distance(g.nodes@[u].position, g.nodes@[v].position);
    assert(edge_expected(g.nodes@, ws, Edge { from: u, to: v, distance: d }));
    assert(edge_expected(g.nodes@, ws, Edge { from: v, to: u, distance: d }));
}

/// Builds the graph from parsed nodes and the collected road ways: prune,
/// filter each way's references, and emit the edges of consecutive pairs.
pub fn build_graph(nodes_in: &HashMap<i64, Node>, ways: &Vec<Way>) -> (g: Graph)
    requires
        forall|k: i64| #[trigger] nodes_in@.contains_key(k) ==> nodes_in@[k].id == k,
    ensures
        g.wf(),
        built_from(g, nodes_in@, ways@),
{
    let (kept, ids) = prune_nodes(nodes_in, ways);
    let adj = build_adjacency(&kept, ways);
    let g = Graph { nodes: kept, adjacency: adj, node_ids: ids };
    proof {
        assert forall|k: i64| #[trigger] g.adjacency@.contains_key(k) implies
            g.nodes@.contains_key(k) by {
            let x = g.adjacency@[k]@[0];
            assert(g.adjacency@[k]@.contains(x));
            assert(adj_has(g.adjacency@, x));
        }
        assert forall|k: i64, i: int|
            g.adjacency@.contains_key(k) && 0 <= i < g.adjacency@[k]@.len() implies {
            let e = #[trigger] g.adjacency@[k]@[i];
            &&& e.from == k
            &&& g.nodes@.contains_key(e.to)
            &&& e.distance == spec_distance(
                g.nodes@[e.from].position,
                g.nodes@[e.to].position,
            )
            &&& e.distance <= MAX_DISTANCE_METERS
        } by {
            let e = g.adjacency@[k]@[i];
            assert(g.adjacency@[k]@.contains(e));
            assert(adj_has(g.adjacency@, e));
            crate::geo::lemma_distance_bound(
                g.nodes@[e.from].position,
                g.nodes@[e.to].position,
            );
        }
    }
    g
}

} // verus!
