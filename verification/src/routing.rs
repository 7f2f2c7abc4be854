//! The routing engine: A* over the built graph with integer weights.
//!
//! The heuristic is the great-circle distance to the goal. The open set is a
//! min-priority list over `f = g + h` with lazy deletion: improving a node
//! pushes a fresh entry, and stale entries are discarded when popped.

use vstd::prelude::*;
use vstd::set_lib::lemma_len_subset;
use std::collections::{HashMap, HashSet};
use crate::elements::Edge;
use crate::geo::{distance, spec_distance, Coordinates, MAX_DISTANCE_METERS};
use crate::graph::{adj_has, Graph};

verus! {

/// Why no route came back.
#[derive(Clone, Copy, Debug, PartialEq, Eq, Structural)]
pub enum RouteError {
    /// The graph has no nodes, so there is nothing to snap to.
    EmptyGraph,
    /// The search exhausted the open set without reaching the goal.
    NoRouteFound,
}

/// The weight of the edge between two nodes (by the graph invariant, the
/// weight any edge between them carries).
pub open spec fn edge_dist(g: Graph, u: i64, v: i64) -> int {
    spec_distance(g.nodes@[u].position, g.nodes@[v].position) as int
}

/// A nonempty walk through existing nodes, each consecutive pair joined by
/// an edge.
pub open spec fn valid_path(g: Graph, p: Seq<i64>) -> bool {
    &&& p.len() >= 1
    &&& forall|i: int| 0 <= i < p.len() ==> g.nodes@.contains_key(#[trigger] p[i])
    &&& forall|i: int| 0 <= i < p.len() - 1 ==> g.has_edge(#[trigger] p[i], p[i + 1])
}

/// The sum of the edge weights along a path.
pub open spec fn path_cost(g: Graph, p: Seq<i64>) -> int
    decreases p.len(),
{
    if p.len() <= 1 {
        0
    } else {
        edge_dist(g, p[0], p[1]) + path_cost(g, p.drop_first())
    }
}

pub open spec fn is_path_between(g: Graph, s: i64, t: i64, p: Seq<i64>) -> bool {
    valid_path(g, p) && p[0] == s && p.last() == t
}

pub open spec fn has_path_cost(g: Graph, s: i64, t: i64, c: int) -> bool {
    exists|p: Seq<i64>| is_path_between(g, s, t, p) && path_cost(g, p) == c
}

pub open spec fn reachable(g: Graph, s: i64, t: i64) -> bool {
    exists|p: Seq<i64>| is_path_between(g, s, t, p)
}

/// `c` is the cost of a shortest path from `s` to `t`.
pub open spec fn is_shortest_cost(g: Graph, s: i64, t: i64, c: int) -> bool {
    &&& has_path_cost(g, s, t, c)
    &&& forall|p: Seq<i64>| #[trigger] is_path_between(g, s, t, p) ==> path_cost(g, p) >= c
}

/// The heuristic: great-circle distance from `v` to the goal `t`.
pub open spec fn h_of(g: Graph, v: i64, t: i64) -> int {
    spec_distance(g.nodes@[v].position, g.nodes@[t].position) as int
}

/// The heuristic is consistent on this graph for goal `t`: along every edge
/// it drops by at most the edge weight. Great-circle distance satisfies the
/// triangle inequality up to rounding; this predicate names the graphs where
/// the rounded values do too.
pub open spec fn consistent_heuristic(g: Graph, t: i64) -> bool {
    forall|u: i64, v: i64|
        #[trigger] g.has_edge(u, v) ==> h_of(g, u, t) <= edge_dist(g, u, v) + h_of(g, v, t)
}

/// `v` is the node of the graph nearest to `c`; ties go to the lowest id.
pub open spec fn is_nearest(g: Graph, c: Coordinates, v: i64) -> bool {
    &&& g.nodes@.contains_key(v)
    &&& forall|u: i64|
        #[trigger] g.nodes@.contains_key(u) ==> spec_distance(c, g.nodes@[v].position)
            < spec_distance(c, g.nodes@[u].position) || (spec_distance(c, g.nodes@[v].position)
            == spec_distance(c, g.nodes@[u].position) && v <= u)
}

/// At most one node is nearest to a coordinate.
pub proof fn lemma_nearest_unique(g: Graph, c: Coordinates, v1: i64, v2: i64)
    requires
        is_nearest(g, c, v1),
        is_nearest(g, c, v2),
    ensures
        v1 == v2,
{
}

// ------------------------------------------------------------------
// Path lemmas
// ------------------------------------------------------------------

pub proof fn lemma_cost_nonneg(g: Graph, p: Seq<i64>)
    ensures
        path_cost(g, p) >= 0,
    decreases p.len(),
{
    if p.len() > 1 {
        lemma_cost_nonneg(g, p.drop_first());
    }
}

/// A contiguous piece of a valid path is a valid path.
pub proof fn lemma_subpath_valid(g: Graph, p: Seq<i64>, a: int, b: int)
    requires
        valid_path(g, p),
        0 <= a < b <= p.len(),
    ensures
        valid_path(g, p.subrange(a, b)),
        p.subrange(a, b)[0] == p[a],
        p.subrange(a, b).last() == p[b - 1],
{
    let q = p.subrange(a, b);
    assert forall|i: int| 0 <= i < q.len() - 1 implies g.has_edge(#[trigger] q[i], q[i + 1]) by {
        assert(q[i] == p[a + i]);
        assert(q[i + 1] == p[a + i + 1]);
    }
}

/// A path's cost splits at any of its positions.
pub proof fn lemma_cost_split(g: Graph, p: Seq<i64>, j: int)
    requires
        0 <= j < p.len(),
    ensures
        path_cost(g, p) == path_cost(g, p.subrange(0, j + 1)) + path_cost(
            g,
            p.subrange(j, p.len() as int),
        ),
    decreases j,
{
    if j == 0 {
        assert(p.subrange(0, 1).len() == 1);
        assert(p.subrange(0, p.len() as int) =~= p);
    } else {
        let q = p.drop_first();
        lemma_cost_split(g, q, j - 1);
        assert(p.subrange(0, j + 1).drop_first() =~= q.subrange(0, j));
        assert(p.subrange(j, p.len() as int) =~= q.subrange(j - 1, q.len() as int));
        assert(path_cost(g, p.subrange(0, j + 1)) == edge_dist(g, p[0], p[1]) + path_cost(
            g,
            q.subrange(0, j),
        )) by {
            assert(p.subrange(0, j + 1)[0] == p[0]);
            assert(p.subrange(0, j + 1)[1] == p[1]);
            assert(p.subrange(0, j + 1).len() == j + 1 >= 2);
        }
        assert(p.len() >= 2);
        assert(path_cost(g, p) == edge_dist(g, p[0], p[1]) + path_cost(g, q));
        assert(path_cost(g, q) == path_cost(g, q.subrange(0, j)) + path_cost(
            g,
            q.subrange(j - 1, q.len() as int),
        ));
    }
}

/// Appending a reachable node extends the cost by one edge weight.
pub proof fn lemma_cost_push(g: Graph, p: Seq<i64>, v: i64)
    requires
        p.len() >= 1,
    ensures
        path_cost(g, p.push(v)) == path_cost(g, p) + edge_dist(g, p.last(), v),
    decreases p.len(),
{
    if p.len() == 1 {
        let pp = p.push(v);
        assert(pp.len() == 2);
        assert(pp[0] == p[0]);
        assert(pp[1] == v);
        assert(pp.drop_first().len() == 1);
        assert(path_cost(g, pp.drop_first()) == 0);
        assert(path_cost(g, pp) == edge_dist(g, pp[0], pp[1]) + path_cost(g, pp.drop_first()));
        assert(path_cost(g, p) == 0);
        assert(p.last() == p[0]);
    } else {
        lemma_cost_push(g, p.drop_first(), v);
        assert(p.push(v).drop_first() =~= p.drop_first().push(v));
        assert(p.push(v)[0] == p[0]);
        assert(p.push(v)[1] == p[1]);
        assert(p.drop_first().last() == p.last());
        assert(p.push(v).len() >= 2);
        assert(path_cost(g, p.push(v)) == edge_dist(g, p[0], p[1]) + path_cost(
            g,
            p.push(v).drop_first(),
        ));
        assert(path_cost(g, p) == edge_dist(g, p[0], p[1]) + path_cost(g, p.drop_first()));
    }
}

/// Extending a path with one edge extends reachability and cost.
pub proof fn lemma_path_extend(g: Graph, s: i64, u: i64, v: i64, c: int)
    requires
        has_path_cost(g, s, u, c),
        g.has_edge(u, v),
        g.nodes@.contains_key(v),
    ensures
        has_path_cost(g, s, v, c + edge_dist(g, u, v)),
{
    let p = choose|p: Seq<i64>| is_path_between(g, s, u, p) && path_cost(g, p) == c;
    let p2 = p.push(v);
    lemma_cost_push(g, p, v);
    assert forall|i: int| 0 <= i < p2.len() implies g.nodes@.contains_key(#[trigger] p2[i]) by {
        if i < p.len() {
            assert(p2[i] == p[i]);
        }
    }
    assert forall|i: int| 0 <= i < p2.len() - 1 implies g.has_edge(#[trigger] p2[i], p2[i + 1]) by {
        if i < p.len() - 1 {
            assert(p2[i] == p[i]);
            assert(p2[i + 1] == p[i + 1]);
        } else {
            assert(p2[i] == p.last());
            assert(p2[i + 1] == v);
        }
    }
    assert(is_path_between(g, s, v, p2));
    assert(path_cost(g, p2) == c + edge_dist(g, u, v));
}

/// Along a valid path, a consistent heuristic drops by at most the cost.
pub proof fn lemma_h_along_path(g: Graph, t: i64, q: Seq<i64>)
    requires
        consistent_heuristic(g, t),
        valid_path(g, q),
    ensures
        h_of(g, q[0], t) <= path_cost(g, q) + h_of(g, q.last(), t),
    decreases q.len(),
{
    if q.len() > 1 {
        let q2 = q.drop_first();
        assert(valid_path(g, q2)) by {
            assert forall|i: int| 0 <= i < q2.len() - 1 implies g.has_edge(
                #[trigger] q2[i],
                q2[i + 1],
            ) by {
                assert(q2[i] == q[i + 1]);
                assert(q2[i + 1] == q[i + 2]);
            }
        }
        lemma_h_along_path(g, t, q2);
        assert(g.has_edge(q[0], q[1]));
        assert(q2.last() == q.last());
    }
}

/// The first position of the path that is not in the closed set.
proof fn first_unclosed(p: Seq<i64>, cl: Set<i64>) -> (j: int)
    requires
        p.len() >= 1,
        !cl.contains(p.last()),
    ensures
        0 <= j < p.len(),
        !cl.contains(p[j]),
        forall|i: int| 0 <= i < j ==> cl.contains(#[trigger] p[i]),
    decreases p.len(),
{
    if !cl.contains(p[0]) {
        0
    } else {
        let q = p.drop_first();
        assert(q.last() == p.last());
        let j2 = first_unclosed(q, cl);
        assert forall|i: int| 0 <= i < j2 + 1 implies cl.contains(#[trigger] p[i]) by {
            if i > 0 {
                assert(q[i - 1] == p[i]);
            }
        }
        assert(p[j2 + 1] == q[j2]);
        j2 + 1
    }
}

/// A set that contains the path's start and is closed under edges contains
/// its end.
proof fn lemma_closed_under_edges(g: Graph, cl: Set<i64>, p: Seq<i64>)
    requires
        valid_path(g, p),
        cl.contains(p[0]),
        forall|u: i64, v: i64| cl.contains(u) && #[trigger] g.has_edge(u, v) ==> cl.contains(v),
    ensures
        cl.contains(p.last()),
    decreases p.len(),
{
    if p.len() > 1 {
        let q = p.drop_first();
        assert(g.has_edge(p[0], p[1]));
        assert(cl.contains(p[1]));
        assert(valid_path(g, q)) by {
            assert forall|i: int| 0 <= i < q.len() - 1 implies g.has_edge(
                #[trigger] q[i],
                q[i + 1],
            ) by {
                assert(q[i] == p[i + 1]);
                assert(q[i + 1] == p[i + 2]);
            }
        }
        assert(q[0] == p[1]);
        lemma_closed_under_edges(g, cl, q);
        assert(q.last() == p.last());
    }
}

fn heuristic(g: &Graph, v: i64, t: i64) -> (h: u64)
    requires
        g.wf(),
        g.nodes@.contains_key(v),
        g.nodes@.contains_key(t),
    ensures
        h as int == h_of(*g, v, t),
        h <= MAX_DISTANCE_METERS,
{
    let nv = *g.nodes.get(&v).unwrap();
    let nt = *g.nodes.get(&t).unwrap();
    distance(&nv.position, &nt.position)
}

/// The id of the node nearest to the queried coordinate; among equally near
/// nodes, the lowest id.
fn nearest_node(g: &Graph, c: &Coordinates) -> (v: i64)
    requires
        g.wf(),
        g.node_ids@.len() > 0,
    ensures
        is_nearest(*g, *c, v),
{
    let n = g.node_ids.len();
    let mut best = g.node_ids[0];
    let bn = *g.nodes.get(&best).unwrap();
    let mut best_d = distance(c, &bn.position);
    let mut i: usize = 1;
    while i < n
        invariant
            1 <= i <= n,
            n == g.node_ids@.len(),
            g.nodes@.contains_key(best),
            best_d == spec_distance(*c, g.nodes@[best].position),
            forall|j: int|
                0 <= j < i ==> spec_distance(*c, g.nodes@[best].position) < spec_distance(
                    *c,
                    g.nodes@[#[trigger] g.node_ids@[j]].position,
                ) || (spec_distance(*c, g.nodes@[best].position) == spec_distance(
                    *c,
                    g.nodes@[g.node_ids@[j]].position,
                ) && best <= g.node_ids@[j]),
        decreases n - i,
    {
        let id = g.node_ids[i];
        let nd = *g.nodes.get(&id).unwrap();
        let d = distance(c, &nd.position);
        if d < best_d || (d == best_d && id < best) {
            best = id;
            best_d = d;
        }
        i = i + 1;
    }
    proof {
        assert forall|u: i64| #[trigger] g.nodes@.contains_key(u) implies spec_distance(
            *c,
            g.nodes@[best].position,
        ) < spec_distance(*c, g.nodes@[u].position) || (spec_distance(
            *c,
            g.nodes@[best].position,
        ) == spec_distance(*c, g.nodes@[u].position) && best <= u) by {
            assert(g.node_ids@.contains(u));
            let j = choose|j: int| 0 <= j < g.node_ids@.len() && g.node_ids@[j] == u;
            assert(g.node_ids@[j] == u);
        }
    }
    best
}

/// Removes and returns an entry with the least priority.
fn pop_min(open: &mut Vec<(u128, i64)>) -> (e: (u128, i64))
    requires
        old(open)@.len() > 0,
    ensures
        exists|k: int|
            0 <= k < old(open)@.len() && old(open)@[k] == e && #[trigger] final(open)@ == old(
                open,
            )@.remove(k),
        forall|i: int| 0 <= i < old(open)@.len() ==> e.0 <= (#[trigger] old(open)@[i]).0,
{
    let n = open.len();
    let mut k: usize = 0;
    let mut i: usize = 1;
    while i < n
        invariant
            0 <= k < i <= n,
            n == open@.len(),
            forall|j: int| 0 <= j < i ==> open@[k as int].0 <= (#[trigger] open@[j]).0,
        decreases n - i,
    {
        if open[i].0 < open[k].0 {
            k = i;
        }
        i = i + 1;
    }
    let e = open.remove(k);
    e
}

/// When the parent map telescopes the tentative costs, the cost of the path
/// is the difference of the endpoints' tentative costs.
proof fn lemma_telescope(g: Graph, gm: Map<i64, u128>, p: Seq<i64>)
    requires
        p.len() >= 1,
        forall|i: int|
            0 <= i < p.len() ==> gm.contains_key(#[trigger] p[i]),
        forall|i: int|
            0 <= i < p.len() - 1 ==> gm[#[trigger] p[i + 1]] as int == gm[p[i]] as int + edge_dist(
                g,
                p[i],
                p[i + 1],
            ),
    ensures
        path_cost(g, p) == gm[p.last()] as int - gm[p[0]] as int,
    decreases p.len(),
{
    if p.len() > 1 {
        let q = p.drop_first();
        assert forall|i: int|
            0 <= i < q.len() - 1 implies gm[#[trigger] q[i + 1]] as int == gm[q[i]] as int
            + edge_dist(g, q[i], q[i + 1]) by {
            assert(q[i] == p[i + 1]);
            assert(q[i + 1] == p[i + 2]);
            assert(gm[p[i + 2]] as int == gm[p[i + 1]] as int + edge_dist(g, p[i + 1], p[i + 2]));
        }
        lemma_telescope(g, gm, q);
        assert(q.last() == p.last());
        assert(gm[p[1]] as int == gm[p[0]] as int + edge_dist(g, p[0], p[1]));
    }
}

/// The A* loop invariant: tentative costs are sound, every open node has a
/// current entry, closed nodes are fully relaxed (and optimal when the
/// heuristic is consistent), and the parent map telescopes the costs along
/// a forest rooted at the start, ordered by closing time.
pub open spec fn astar_inv(
    g: Graph,
    start: i64,
    end: i64,
    gm: Map<i64, u128>,
    par: Map<i64, i64>,
    cl: Set<i64>,
    open: Seq<(u128, i64)>,
    ord: Map<i64, int>,
) -> bool {
    &&& gm.contains_key(start) && gm[start] == 0
    &&& cl.subset_of(gm.dom())
    &&& forall|i: int| 0 <= i < open.len() ==> gm.contains_key((#[trigger] open[i]).1)
    &&& forall|k: i64| #[trigger] gm.contains_key(k) ==> g.nodes@.contains_key(k)
    &&& !cl.contains(end)
    &&& forall|k: i64| #[trigger] gm.contains_key(k) ==> has_path_cost(g, start, k, gm[k] as int)
    &&& forall|k: i64|
        #[trigger] gm.contains_key(k) && !cl.contains(k) ==> exists|i: int|
            0 <= i < open.len() && (#[trigger] open[i]).1 == k && open[i].0 as int == gm[k] as int
                + h_of(g, k, end)
    &&& forall|i: int|
        0 <= i < open.len() ==> (#[trigger] open[i]).0 as int >= gm[open[i].1] as int + h_of(
            g,
            open[i].1,
            end,
        )
    &&& forall|u: i64, v: i64|
        cl.contains(u) && #[trigger] g.has_edge(u, v) ==> gm.contains_key(v) && (cl.contains(v)
            || gm[v] as int <= gm[u] as int + edge_dist(g, u, v))
    &&& forall|k: i64|
        #[trigger] gm.contains_key(k) ==> gm[k] as int <= cl.len() * (MAX_DISTANCE_METERS as int)
    &&& (consistent_heuristic(g, end) ==> forall|k: i64|
        #[trigger] cl.contains(k) ==> is_shortest_cost(g, start, k, gm[k] as int))
    &&& forall|k: i64| #[trigger] par.contains_key(k) ==> gm.contains_key(k) && k != start
    &&& forall|k: i64| #[trigger] gm.contains_key(k) && k != start ==> par.contains_key(k)
    &&& forall|k: i64|
        #[trigger] par.contains_key(k) ==> cl.contains(par[k]) && g.has_edge(par[k], k)
            && gm[par[k]] as int + edge_dist(g, par[k], k) == gm[k] as int
    &&& forall|k: i64| #[trigger] cl.contains(k) ==> ord.contains_key(k) && 0 <= ord[k] < cl.len()
    &&& forall|k: i64|
        #[trigger] par.contains_key(k) && cl.contains(k) ==> ord[par[k]] < ord[k]
}

/// At the moment a node is popped with the least priority, its tentative
/// cost is at most the cost of any path that reaches it: the first unclosed
/// node of the path holds an open entry whose priority bounds the popped
/// one, and a consistent heuristic carries the bound along the path's tail.
#[verifier::rlimit(100)]
proof fn lemma_pop_bounds_path(
    g: Graph,
    start: i64,
    end: i64,
    gm: Map<i64, u128>,
    par: Map<i64, i64>,
    cl: Set<i64>,
    open: Seq<(u128, i64)>,
    ord: Map<i64, int>,
    u: i64,
    fu: u128,
    p: Seq<i64>,
)
    requires
        g.wf(),
        astar_inv(g, start, end, gm, par, cl, open, ord),
        consistent_heuristic(g, end),
        gm.contains_key(u),
        !cl.contains(u),
        fu as int >= gm[u] as int + h_of(g, u, end),
        forall|i: int| 0 <= i < open.len() ==> fu <= (#[trigger] open[i]).0,
        is_path_between(g, start, u, p),
    ensures
        gm[u] as int <= path_cost(g, p),
{
    let j = first_unclosed(p, cl);
    let w = p[j];
    let pre = p.subrange(0, j + 1);
    let suf = p.subrange(j, p.len() as int);
    lemma_cost_split(g, p, j);
    lemma_subpath_valid(g, p, j, p.len() as int);
    if j == 0 {
        assert(w == start);
        lemma_cost_nonneg(g, pre);
        assert(gm[w] as int <= path_cost(g, pre));
    } else {
        let x = p[j - 1];
        assert(cl.contains(x));
        lemma_subpath_valid(g, p, 0, j);
        let prex = p.subrange(0, j);
        assert(is_path_between(g, start, x, prex));
        assert(is_shortest_cost(g, start, x, gm[x] as int));
        assert(path_cost(g, prex) >= gm[x] as int);
        assert(g.has_edge(p[j - 1], p[j]));
        assert(gm.contains_key(w) && gm[w] as int <= gm[x] as int + edge_dist(g, x, w));
        lemma_cost_split(g, pre, j - 1);
        assert(pre.subrange(0, j) =~= prex);
        let last2 = pre.subrange(j - 1, j + 1);
        assert(last2.len() == 2);
        assert(last2[0] == x && last2[1] == w);
        assert(last2.drop_first().len() == 1);
        assert(path_cost(g, last2.drop_first()) == 0);
        assert(path_cost(g, last2) == edge_dist(g, x, w));
        assert(gm[w] as int <= path_cost(g, pre));
    }
    assert(gm.contains_key(w));
    let i = choose|i: int|
        0 <= i < open.len() && (#[trigger] open[i]).1 == w && open[i].0 as int == gm[w] as int
            + h_of(g, w, end);
    assert(fu <= open[i].0);
    assert(suf[0] == w);
    assert(suf.last() == p.last());
    lemma_h_along_path(g, end, suf);
    assert(h_of(g, w, end) <= path_cost(g, suf) + h_of(g, u, end));
}

/// Walks the parent map from the goal back to the start and reverses. The
/// result is a path whose cost is exactly the goal's tentative cost.
fn retrace(
    g: &Graph,
    parent: &HashMap<i64, i64>,
    Ghost(gm): Ghost<Map<i64, u128>>,
    Ghost(cl): Ghost<Set<i64>>,
    Ghost(ord): Ghost<Map<i64, int>>,
    start: i64,
    end: i64,
) -> (p: Vec<i64>)
    requires
        g.wf(),
        cl.contains(end),
        gm.contains_key(start) && gm[start] == 0,
        cl.subset_of(gm.dom()),
        forall|k: i64| #[trigger] gm.contains_key(k) ==> g.nodes@.contains_key(k),
        forall|k: i64| #[trigger] cl.contains(k) && k != start ==> parent@.contains_key(k),
        forall|k: i64|
            #[trigger] parent@.contains_key(k) ==> cl.contains(parent@[k]) && g.has_edge(
                parent@[k],
                k,
            ) && gm[parent@[k]] as int + edge_dist(*g, parent@[k], k) == gm[k] as int,
        forall|k: i64| #[trigger] cl.contains(k) ==> ord.contains_key(k) && 0 <= ord[k],
        forall|k: i64|
            #[trigger] parent@.contains_key(k) && cl.contains(k) ==> ord[parent@[k]] < ord[k],
    ensures
        p@.len() >= 1,
        p@[0] == start,
        p@.last() == end,
        valid_path(*g, p@),
        path_cost(*g, p@) == gm[end] as int,
{
    let mut chain: Vec<i64> = Vec::new();
    chain.push(end);
    let mut cur = end;
    while cur != start
        invariant
            chain@.len() >= 1,
            chain@[0] == end,
            chain@.last() == cur,
            cl.contains(cur),
            forall|i: int| 0 <= i < chain@.len() ==> cl.contains(#[trigger] chain@[i]),
            forall|i: int| 0 <= i < chain@.len() ==> gm.contains_key(#[trigger] chain@[i]),
            forall|i: int|
                0 <= i < chain@.len() - 1 ==> g.has_edge(#[trigger] chain@[i + 1], chain@[i])
                    && gm[chain@[i]] as int == gm[chain@[i + 1]] as int + edge_dist(
                    *g,
                    chain@[i + 1],
                    chain@[i],
                ),
        decreases ord[cur],
    {
        let prev = *parent.get(&cur).unwrap();
        let ghost old_chain = chain@;
        chain.push(prev);
        cur = prev;
        proof {
            assert forall|i: int|
                0 <= i < chain@.len() - 1 implies g.has_edge(#[trigger] chain@[i + 1], chain@[i])
                && gm[chain@[i]] as int == gm[chain@[i + 1]] as int + edge_dist(
                *g,
                chain@[i + 1],
                chain@[i],
            ) by {
                if i < old_chain.len() - 1 {
                    assert(chain@[i] == old_chain[i]);
                    assert(chain@[i + 1] == old_chain[i + 1]);
                } else {
                    assert(chain@[i] == old_chain.last());
                }
            }
        }
    }
    // reverse the chain into start-to-end order
    let n = chain.len();
    let mut out: Vec<i64> = Vec::new();
    let mut k: usize = n;
    while k > 0
        invariant
            0 <= k <= n,
            n == chain@.len(),
            out@.len() == n - k,
            forall|i: int| 0 <= i < out@.len() ==> out@[i] == chain@[n - 1 - i],
        decreases k,
    {
        k = k - 1;
        out.push(chain[k]);
    }
    proof {
        assert(out@.len() == chain@.len());
        assert(out@[0] == chain@[n - 1]);
        assert(out@.last() == chain@[0]);
        assert forall|i: int| 0 <= i < out@.len() implies g.nodes@.contains_key(
            #[trigger] out@[i],
        ) by {
            assert(out@[i] == chain@[n - 1 - i]);
        }
        assert forall|i: int| 0 <= i < out@.len() - 1 implies g.has_edge(
            #[trigger] out@[i],
            out@[i + 1],
        ) by {
            assert(out@[i] == chain@[n - 1 - i]);
            assert(out@[i + 1] == chain@[n - 2 - i]);
            assert(g.has_edge(chain@[(n - 2 - i) + 1], chain@[n - 2 - i]));
        }
        assert forall|i: int| 0 <= i < out@.len() implies gm.contains_key(#[trigger] out@[i]) by {
            assert(out@[i] == chain@[n - 1 - i]);
        }
        assert forall|i: int|
            0 <= i < out@.len() - 1 implies gm[#[trigger] out@[i + 1]] as int == gm[out@[i]] as int
            + edge_dist(*g, out@[i], out@[i + 1]) by {
            assert(out@[i] == chain@[n - 1 - i]);
            assert(out@[i + 1] == chain@[n - 2 - i]);
            let jj = n - 2 - i;
            assert(gm[chain@[jj]] as int == gm[chain@[jj + 1]] as int + edge_dist(
                *g,
                chain@[jj + 1],
                chain@[jj],
            ));
        }
        lemma_telescope(*g, gm, out@);
    }
    out
}

/// The context that holds while the freshly closed node `u` is being
/// relaxed: everything of the search invariant that does not speak of `u`'s
/// own edges.
#[verifier::opaque]
pub open spec fn relax_ctx(
    g: Graph,
    start: i64,
    end: i64,
    u: i64,
    gu: u128,
    csize: int,
    gm: Map<i64, u128>,
    par: Map<i64, i64>,
    cl: Set<i64>,
    open: Seq<(u128, i64)>,
    ord: Map<i64, int>,
) -> bool {
    &&& g.wf()
    &&& g.nodes@.contains_key(start)
    &&& g.nodes@.contains_key(end)
    &&& start != end
    &&& u != end
    &&& cl.contains(u)
    &&& gm.contains_key(u) && gm[u] == gu
    &&& cl.len() == csize
    &&& 0 <= csize <= usize::MAX as int
    &&& gu as int <= (csize - 1) * (MAX_DISTANCE_METERS as int)
    &&& gm.contains_key(start) && gm[start] == 0
    &&& cl.subset_of(gm.dom())
    &&& forall|ii: int| 0 <= ii < open.len() ==> gm.contains_key((#[trigger] open[ii]).1)
    &&& forall|k: i64| #[trigger] gm.contains_key(k) ==> g.nodes@.contains_key(k)
    &&& !cl.contains(end)
    &&& forall|k: i64| #[trigger] gm.contains_key(k) ==> has_path_cost(g, start, k, gm[k] as int)
    &&& forall|k: i64|
        #[trigger] gm.contains_key(k) && !cl.contains(k) ==> exists|ii: int|
            0 <= ii < open.len() && (#[trigger] open[ii]).1 == k && open[ii].0 as int
                == gm[k] as int + h_of(g, k, end)
    &&& forall|ii: int|
        0 <= ii < open.len() ==> (#[trigger] open[ii]).0 as int >= gm[open[ii].1] as int + h_of(
            g,
            open[ii].1,
            end,
        )
    &&& forall|k: i64|
        #[trigger] gm.contains_key(k) ==> gm[k] as int <= cl.len() * (MAX_DISTANCE_METERS as int)
    &&& (consistent_heuristic(g, end) ==> forall|k: i64|
        #[trigger] cl.contains(k) ==> is_shortest_cost(g, start, k, gm[k] as int))
    &&& forall|k: i64| #[trigger] par.contains_key(k) ==> gm.contains_key(k) && k != start
    &&& forall|k: i64| #[trigger] gm.contains_key(k) && k != start ==> par.contains_key(k)
    &&& forall|k: i64|
        #[trigger] par.contains_key(k) ==> cl.contains(par[k]) && g.has_edge(par[k], k)
            && gm[par[k]] as int + edge_dist(g, par[k], k) == gm[k] as int
    &&& forall|k: i64| #[trigger] cl.contains(k) ==> ord.contains_key(k) && 0 <= ord[k] < cl.len()
    &&& forall|k: i64| #[trigger] par.contains_key(k) && cl.contains(k) ==> ord[par[k]] < ord[k]
}

/// After an improving relaxation, the context holds of the updated cost
/// map, parent map and open list.
#[verifier::rlimit(100)]
proof fn lemma_relax_restore(
    g: Graph,
    start: i64,
    end: i64,
    u: i64,
    gu: u128,
    csize: int,
    gm: Map<i64, u128>,
    par: Map<i64, i64>,
    cl: Set<i64>,
    open: Seq<(u128, i64)>,
    ord: Map<i64, int>,
    ed: Edge,
    t: u128,
    hv: u64,
)
    requires
        relax_ctx(g, start, end, u, gu, csize, gm, par, cl, open, ord),
        adj_has(g.adjacency@, ed),
        ed.from == u,
        g.wf(),
        !cl.contains(ed.to),
        t as int == gu as int + edge_dist(g, u, ed.to),
        !gm.contains_key(ed.to) || (t as int) < gm[ed.to] as int,
        hv as int == h_of(g, ed.to, end),
    ensures
        relax_ctx(
            g,
            start,
            end,
            u,
            gu,
            csize,
            gm.insert(ed.to, t),
            par.insert(ed.to, u),
            cl,
            open.push((((t + hv as u128) as u128), ed.to)),
            ord,
        ),
{
    reveal(relax_ctx);
    let gm2 = gm.insert(ed.to, t);
    let par2 = par.insert(ed.to, u);
    let open2 = open.push((((t + hv as u128) as u128), ed.to));
    let i = choose|i: int| 0 <= i < g.adjacency@[u]@.len() && g.adjacency@[u]@[i] == ed;
    assert(g.adjacency@[u]@[i] == ed);
    assert(g.nodes@.contains_key(ed.to));
    assert(ed.distance <= MAX_DISTANCE_METERS);
    assert(g.has_edge(u, ed.to)) by {
        assert(adj_has(g.adjacency@, Edge { from: u, to: ed.to, distance: ed.distance }));
    }
    assert(ed.to != start) by {
        if ed.to == start {
            assert(gm.contains_key(start));
        }
    }
    assert(ed.to != u);
    lemma_path_extend(g, start, u, ed.to, gu as int);
    assert(has_path_cost(g, start, ed.to, t as int));
    assert forall|k: i64| #[trigger] gm2.contains_key(k) implies has_path_cost(
        g,
        start,
        k,
        gm2[k] as int,
    ) by {
        if k != ed.to {
            assert(gm.contains_key(k));
        }
    }
    assert forall|k: i64|
        gm2.contains_key(k) && !cl.contains(k) implies exists|ii: int|
            0 <= ii < open2.len() && (#[trigger] open2[ii]).1 == k && open2[ii].0 as int
            == gm2[k] as int + h_of(g, k, end) by {
        if k == ed.to {
            assert(open2[open2.len() - 1].1 == ed.to);
            assert(open2[open2.len() - 1].0 as int == gm2[ed.to] as int + h_of(g, ed.to, end));
        } else {
            let wi = choose|ii: int|
                0 <= ii < open.len() && (#[trigger] open[ii]).1 == k && open[ii].0 as int
                    == gm[k] as int + h_of(g, k, end);
            assert(open2[wi] == open[wi]);
        }
    }
    assert forall|ii: int|
        0 <= ii < open2.len() implies gm2.contains_key((#[trigger] open2[ii]).1)
        && open2[ii].0 as int >= gm2[open2[ii].1] as int + h_of(g, open2[ii].1, end) by {
        if ii < open2.len() - 1 {
            assert(open2[ii] == open[ii]);
            assert(gm.contains_key(open[ii].1));
            if open[ii].1 == ed.to {
                assert(gm2[ed.to] as int <= gm[ed.to] as int);
            }
        }
    }
    assert forall|k: i64| #[trigger] gm2.contains_key(k) implies gm2[k] as int <= cl.len() * (
    MAX_DISTANCE_METERS as int) by {
        if k == ed.to {
            assert(gu as int <= (csize - 1) * (MAX_DISTANCE_METERS as int));
            assert(edge_dist(g, u, ed.to) == ed.distance as int);
        } else {
            assert(gm.contains_key(k));
        }
    }
    assert forall|k: i64| #[trigger] par2.contains_key(k) implies cl.contains(par2[k])
        && g.has_edge(par2[k], k) && gm2[par2[k]] as int + edge_dist(g, par2[k], k)
        == gm2[k] as int by {
        if k == ed.to {
            assert(par2[ed.to] == u);
            assert(gm2[u] == gm[u]);
        } else {
            assert(par.contains_key(k));
            assert(par2[k] == par[k]);
            assert(cl.contains(par[k]));
            assert(par[k] != ed.to);
            assert(gm2[par[k]] == gm[par[k]]);
            assert(k != ed.to ==> gm2[k] == gm[k]);
        }
    }
}

/// Relaxes one outgoing edge of the freshly closed node: when the target is
/// unclosed and the tentative cost improves, record the new cost and parent
/// and push a fresh open entry.
#[verifier::rlimit(100)]
fn relax_edge(
    g: &Graph,
    start: i64,
    end: i64,
    u: i64,
    gu: u128,
    Ghost(csize): Ghost<int>,
    ed: Edge,
    gmap: &mut HashMap<i64, u128>,
    parent: &mut HashMap<i64, i64>,
    closed: &HashSet<i64>,
    open: &mut Vec<(u128, i64)>,
    Ghost(ord): Ghost<Map<i64, int>>,
)
    requires
        relax_ctx(
            *g,
            start,
            end,
            u,
            gu,
            csize,
            old(gmap)@,
            old(parent)@,
            closed@,
            old(open)@,
            ord,
        ),
        adj_has(g.adjacency@, ed),
        ed.from == u,
    ensures
        relax_ctx(
            *g,
            start,
            end,
            u,
            gu,
            csize,
            final(gmap)@,
            final(parent)@,
            closed@,
            final(open)@,
            ord,
        ),
        final(gmap)@.contains_key(ed.to) && (closed@.contains(ed.to) || final(gmap)@[ed.to] as int <= gu as int + edge_dist(*g, u, ed.to)),
        forall|k: i64|
            #[trigger] old(gmap)@.contains_key(k) ==> final(gmap)@.contains_key(k) && final(gmap)@[k] <= old(gmap)@[k],
        forall|k: i64|
            #[trigger] final(gmap)@.contains_key(k) ==> old(gmap)@.contains_key(k) || k == ed.to,
        forall|k: i64| #[trigger] closed@.contains(k) ==> final(gmap)@[k] == old(gmap)@[k],
{
    proof {
        reveal(relax_ctx);
        let i = choose|i: int|
            0 <= i < g.adjacency@[u]@.len() && g.adjacency@[u]@[i] == ed;
        assert(g.adjacency@[u]@[i] == ed);
        assert(g.nodes@.contains_key(ed.to));
        assert(ed.distance <= MAX_DISTANCE_METERS);
        assert(ed.distance as int == edge_dist(*g, u, ed.to));
        assert(g.has_edge(u, ed.to)) by {
            assert(adj_has(g.adjacency@, Edge { from: u, to: ed.to, distance: ed.distance }));
        }
    }
    if !closed.contains(&ed.to) {
        let t = gu + (ed.distance as u128);
        let improve = match gmap.get(&ed.to) {
            None => true,
            Some(gv) => t < *gv,
        };
        if improve {
            let ghost gm_old = gmap@;
            let ghost par_old = parent@;
            let ghost open_old = open@;
            gmap.insert(ed.to, t);
            parent.insert(ed.to, u);
            let hv = heuristic(g, ed.to, end);
            open.push((t + (hv as u128), ed.to));
            proof {
                lemma_relax_restore(
                    *g,
                    start,
                    end,
                    u,
                    gu,
                    csize,
                    gm_old,
                    par_old,
                    closed@,
                    open_old,
                    ord,
                    ed,
                    t,
                    hv,
                );
                assert(gmap@ == gm_old.insert(ed.to, t));
                assert(parent@ == par_old.insert(ed.to, u));
                assert(open@ == open_old.push((((t + hv as u128) as u128), ed.to)));
            }
        }
    }
}

/// A* from `start` to `end`: pop the least `f = g + h`, discard stale
/// entries, relax the popped node's outgoing edges, and push improved
/// neighbors afresh. Returns a path exactly when one exists; when the
/// heuristic is consistent on this graph, the returned path is shortest.
#[verifier::rlimit(100)]
#[verifier::loop_isolation(true)]
fn astar(g: &Graph, start: i64, end: i64) -> (r: Option<Vec<i64>>)
    requires
        g.wf(),
        g.nodes@.contains_key(start),
        g.nodes@.contains_key(end),
    ensures
        match r {
            Some(p) => p@.len() >= 1 && p@[0] == start && p@.last() == end && valid_path(*g, p@)
                && (consistent_heuristic(*g, end) ==> is_shortest_cost(
                *g,
                start,
                end,
                path_cost(*g, p@),
            )),
            None => !reachable(*g, start, end),
        },
{
    let mut gmap: HashMap<i64, u128> = HashMap::new();
    let mut parent: HashMap<i64, i64> = HashMap::new();
    let mut closed: HashSet<i64> = HashSet::new();
    let mut open: Vec<(u128, i64)> = Vec::new();
    let ghost mut ord: Map<i64, int> = Map::empty();
    if start == end {
        let mut p: Vec<i64> = Vec::new();
        p.push(start);
        proof {
            assert(p@.len() == 1 && p@[0] == start && p@.last() == start);
            assert(valid_path(*g, p@));
            assert(path_cost(*g, p@) == 0);
            assert(is_path_between(*g, start, start, p@));
            if consistent_heuristic(*g, end) {
                assert forall|q: Seq<i64>| #[trigger] is_path_between(*g, start, end, q) implies
                    path_cost(*g, q) >= 0 by {
                    lemma_cost_nonneg(*g, q);
                }
            }
        }
        return Some(p);
    }
    gmap.insert(start, 0u128);
    let h0 = heuristic(g, start, end);
    open.push((h0 as u128, start));
    proof {
        let p0 = seq![start];
        assert(p0.len() == 1 && p0[0] == start && p0.last() == start);
        assert(valid_path(*g, p0));
        assert(path_cost(*g, p0) == 0);
        assert(is_path_between(*g, start, start, p0));
        assert(has_path_cost(*g, start, start, 0));
        assert(open@.len() == 1);
        assert(open@[0] == ((h0 as u128), start));
        assert(closed@ =~= Set::<i64>::empty());
        assert(closed@.len() == 0);
        assert(closed@.subset_of(gmap@.dom()));
        assert(astar_inv(*g, start, end, gmap@, parent@, closed@, open@, ord));
        lemma_len_subset(closed@, g.nodes@.dom());
    }
    loop
        invariant
            g.wf(),
            g.nodes@.contains_key(start),
            g.nodes@.contains_key(end),
            start != end,
            astar_inv(*g, start, end, gmap@, parent@, closed@, open@, ord),
            closed@.len() <= g.nodes@.dom().len(),
        decreases g.nodes@.dom().len() - closed@.len(), open@.len(),
    {
        if open.len() == 0 {
            proof {
                if reachable(*g, start, end) {
                    let p = choose|p: Seq<i64>| is_path_between(*g, start, end, p);
                    assert forall|x: i64, v: i64|
                        closed@.contains(x) && #[trigger] g.has_edge(x, v) implies closed@.contains(
                        v,
                    ) by {
                        if !closed@.contains(v) {
                            assert(gmap@.contains_key(v));
                            assert(false);
                        }
                    }
                    if !closed@.contains(start) {
                        assert(gmap@.contains_key(start));
                        assert(false);
                    }
                    lemma_closed_under_edges(*g, closed@, p);
                    assert(false);
                }
            }
            return None;
        }
        let ghost oo = open@;
        let ghost cl_old = closed@;
        let ghost ord_old = ord;
        let e = pop_min(&mut open);
        let fu = e.0;
        let u = e.1;
        let ghost ri = choose|k: int| 0 <= k < oo.len() && oo[k] == e && open@ == oo.remove(k);
        proof {
            assert(oo[ri].1 == u);
            // entries of the shrunk list are entries of the old one
            assert forall|i: int|
                0 <= i < open@.len() implies gmap@.contains_key((#[trigger] open@[i]).1)
                && open@[i].0 as int >= gmap@[open@[i].1] as int + h_of(*g, open@[i].1, end) by {
                if i < ri {
                    assert(open@[i] == oo[i]);
                } else {
                    assert(open@[i] == oo[i + 1]);
                }
            }
            // every unclosed known node other than u keeps its entry
            assert forall|k: i64|
                gmap@.contains_key(k) && !closed@.contains(k) && k != u implies exists|i: int|
                    0 <= i < open@.len() && (#[trigger] open@[i]).1 == k && open@[i].0 as int
                    == gmap@[k] as int + h_of(*g, k, end) by {
                let wi = choose|i: int|
                    0 <= i < oo.len() && (#[trigger] oo[i]).1 == k && oo[i].0 as int
                        == gmap@[k] as int + h_of(*g, k, end);
                if wi < ri {
                    assert(open@[wi] == oo[wi]);
                } else {
                    assert(wi != ri);
                    assert(open@[wi - 1] == oo[wi]);
                }
            }
        }
        if closed.contains(&u) {
            continue ;
        }
        closed.insert(u);
        let csize = closed.len();
        proof {
            ord = ord.insert(u, cl_old.len() as int);
            assert(closed@ == cl_old.insert(u));
            assert(closed@.len() == cl_old.len() + 1);
            lemma_len_subset(closed@, gmap@.dom());
            assert(gmap@.dom().finite());
            lemma_len_subset(gmap@.dom(), g.nodes@.dom());
            // optimality of the popped node under a consistent heuristic
            if consistent_heuristic(*g, end) {
                assert forall|p: Seq<i64>| #[trigger] is_path_between(*g, start, u, p) implies
                    path_cost(*g, p) >= gmap@[u] as int by {
                    lemma_pop_bounds_path(
                        *g,
                        start,
                        end,
                        gmap@,
                        parent@,
                        cl_old,
                        oo,
                        ord_old,
                        u,
                        fu,
                        p,
                    );
                }
                assert(is_shortest_cost(*g, start, u, gmap@[u] as int));
            }
        }
        if u == end {
            let p = retrace(g, &parent, Ghost(gmap@), Ghost(closed@), Ghost(ord), start, end);
            return Some(p);
        }
        let gu = *gmap.get(&u).unwrap();
        proof {
            assert(gu as int <= cl_old.len() * (MAX_DISTANCE_METERS as int));
            assert(cl_old.len() == csize - 1);
        }
        let edges_opt = g.adjacency.get(&u);
        match edges_opt {
            None => {
                proof {
                    assert forall|x: i64, v: i64|
                        closed@.contains(x) && #[trigger] g.has_edge(x, v) implies
                        gmap@.contains_key(v) && (closed@.contains(v) || gmap@[v] as int
                            <= gmap@[x] as int + edge_dist(*g, x, v)) by {
                        if x == u {
                            let d = choose|d: u64|
                                adj_has(g.adjacency@, Edge { from: u, to: v, distance: d });
                            assert(g.adjacency@.contains_key(u));
                            assert(false);
                        }
                    }
                }
            },
            Some(es) => {
                let m = es.len();
                proof {
                    assert(relax_ctx(
                        *g,
                        start,
                        end,
                        u,
                        gu,
                        csize as int,
                        gmap@,
                        parent@,
                        closed@,
                        open@,
                        ord,
                    )) by {
                        reveal(relax_ctx);
                    }
                }
                let mut i: usize = 0;
                while i < m
                    invariant
                        0 <= i <= m,
                        g.wf(),
                        g.adjacency@.contains_key(u),
                        es@ == g.adjacency@[u]@,
                        m == es@.len(),
                        closed@.len() <= g.nodes@.dom().len(),
                        relax_ctx(
                            *g,
                            start,
                            end,
                            u,
                            gu,
                            csize as int,
                            gmap@,
                            parent@,
                            closed@,
                            open@,
                            ord,
                        ),
                        forall|x: i64, v: i64|
                            closed@.contains(x) && x != u && #[trigger] g.has_edge(x, v)
                                ==> gmap@.contains_key(v) && (closed@.contains(v)
                                || gmap@[v] as int <= gmap@[x] as int + edge_dist(*g, x, v)),
                        forall|ii: int|
                            0 <= ii < i ==> gmap@.contains_key((#[trigger] es@[ii]).to) && (
                            closed@.contains(es@[ii].to) || gmap@[es@[ii].to] as int
                                <= gu as int + edge_dist(*g, u, es@[ii].to)),
                    decreases m - i,
                {
                    let ed = es[i];
                    proof {
                        assert(g.adjacency@[u]@[i as int] == ed);
                        assert(ed.from == u);
                        assert(adj_has(g.adjacency@, ed)) by {
                            assert(g.adjacency@[ed.from]@[i as int] == ed);
                        }
                    }
                    let ghost gm_before = gmap@;
                    relax_edge(
                        g,
                        start,
                        end,
                        u,
                        gu,
                        Ghost(csize as int),
                        ed,
                        &mut gmap,
                        &mut parent,
                        &closed,
                        &mut open,
                        Ghost(ord),
                    );
                    proof {
                        reveal(relax_ctx);
                        assert forall|x: i64, v: i64|
                            closed@.contains(x) && x != u && #[trigger] g.has_edge(x, v) implies
                            gmap@.contains_key(v) && (closed@.contains(v) || gmap@[v] as int
                                <= gmap@[x] as int + edge_dist(*g, x, v)) by {
                            assert(gm_before.contains_key(v));
                            assert(gmap@[x] == gm_before[x]);
                        }
                        assert forall|ii: int|
                            0 <= ii < i + 1 implies gmap@.contains_key((#[trigger] es@[ii]).to)
                            && (closed@.contains(es@[ii].to) || gmap@[es@[ii].to] as int
                                <= gu as int + edge_dist(*g, u, es@[ii].to)) by {
                            if ii < i {
                                assert(gm_before.contains_key(es@[ii].to));
                            }
                        }
                    }
                    i = i + 1;
                }
                proof {
                    reveal(relax_ctx);
                    assert forall|x: i64, v: i64|
                        closed@.contains(x) && #[trigger] g.has_edge(x, v) implies
                        gmap@.contains_key(v) && (closed@.contains(v) || gmap@[v] as int
                            <= gmap@[x] as int + edge_dist(*g, x, v)) by {
                        if x == u {
                            let d = choose|d: u64|
                                adj_has(g.adjacency@, Edge { from: u, to: v, distance: d });
                            let edge = Edge { from: u, to: v, distance: d };
                            let ii = choose|ii: int|
                                0 <= ii < g.adjacency@[u]@.len() && g.adjacency@[u]@[ii] == edge;
                            assert(es@[ii].to == v);
                        }
                    }
                }
            },
        }
    }
}

/// Computes a shortest driving route between two coordinates: each query
/// point snaps to the nearest graph node (ties to the lowest id), and A*
/// searches between the snapped nodes. Succeeds exactly when the graph is
/// nonempty and the snapped end is reachable from the snapped start; the
/// result then walks existing edges from the one snapped node to the other,
/// and its cost is shortest whenever the heuristic is consistent.
pub fn route(graph: &Graph, start_coords: &Coordinates, end_coords: &Coordinates) -> (r: Result<
    Vec<i64>,
    RouteError,
>)
    requires
        graph.wf(),
    ensures
        match r {
            Ok(p) => {
                &&& graph.nodes@.len() > 0
                &&& p@.len() >= 1
                &&& is_nearest(*graph, *start_coords, p@[0])
                &&& is_nearest(*graph, *end_coords, p@.last())
                &&& valid_path(*graph, p@)
                &&& (consistent_heuristic(*graph, p@.last()) ==> is_shortest_cost(
                    *graph,
                    p@[0],
                    p@.last(),
                    path_cost(*graph, p@),
                ))
            },
            Err(RouteError::EmptyGraph) => graph.nodes@.len() == 0,
            Err(RouteError::NoRouteFound) => graph.nodes@.len() > 0 && forall|s: i64, t: i64|
                is_nearest(*graph, *start_coords, s) && is_nearest(*graph, *end_coords, t)
                    ==> !reachable(*graph, s, t),
        },
{
    if graph.node_ids.len() == 0 {
        proof {
            if graph.nodes@.len() > 0 {
                assert(graph.nodes@.dom().len() > 0);
                let k = graph.nodes@.dom().choose();
                assert(graph.nodes@.dom().contains(k)) by {
                    if graph.nodes@.dom() =~= Set::<i64>::empty() {
                        assert(false);
                    }
                }
                assert(graph.nodes@.contains_key(k));
                assert(graph.node_ids@.contains(k));
                assert(false);
            }
        }
        return Err(RouteError::EmptyGraph);
    }
    let start = nearest_node(graph, start_coords);
    let end = nearest_node(graph, end_coords);
    proof {
        assert(graph.nodes@.dom().contains(start));
        if graph.nodes@.len() == 0 {
            graph.nodes@.dom().lemma_len0_is_empty();
            assert(false);
        }
    }
    match astar(graph, start, end) {
        Some(p) => {
            Ok(p)
        },
        None => {
            proof {
                assert forall|s: i64, t: i64|
                    is_nearest(*graph, *start_coords, s) && is_nearest(*graph, *end_coords, t)
                        implies !reachable(*graph, s, t) by {
                    lemma_nearest_unique(*graph, *start_coords, s, start);
                    lemma_nearest_unique(*graph, *end_coords, t, end);
                }
            }
            Err(RouteError::NoRouteFound)
        },
    }
}

} // verus!
