//! The bidirectional search engine.
//!
//! A query runs two simultaneous Dijkstra relaxations over one shared
//! priority queue: forward from the source over outgoing edges, backward
//! from the target over incoming edges walked in reverse. Stale queue
//! entries are discarded lazily on pop, the best meeting node is updated
//! whenever a popped label merged with the opposite direction's best
//! label improves on it, and the search runs until the queue is empty.
//! The final path is reconstructed from the predecessor and successor
//! chains and unpacked into original edges.

use vstd::prelude::*;
use crate::costs::{
    COST_DIMENSION, INFINITY, add_edge_costs, clip, lemma_scal_sat_add, lemma_scal_zero, sat_add,
    sat_add_seq, scal, zero_costs, zero_seq,
};
use crate::graph::{
    Edge, Graph, edge_ok, expand_path, half_edge_in_ok, half_edge_out_ok, is_walk,
    lemma_expand_path_original, lemma_is_walk_concat, walk_scal,
};
use crate::state::{Direction, State};

verus! {

/// There is a directed walk of at most `k` edges from `s` to `t`.
pub open spec fn reach(edges: Seq<Edge>, s: usize, t: usize, k: nat) -> bool
    decreases k,
{
    s == t || (k > 0 && exists|j: int|
        0 <= j < edges.len() && (#[trigger] edges[j]).source_id == s && reach(
            edges,
            edges[j].target_id,
            t,
            (k - 1) as nat,
        ))
}

/// There is a directed walk from `s` to `t`.
pub open spec fn connected(edges: Seq<Edge>, s: usize, t: usize) -> bool {
    exists|k: nat| reach(edges, s, t, k)
}

/// Every node is connected to itself.
pub proof fn lemma_connected_refl(edges: Seq<Edge>, s: usize)
    ensures
        connected(edges, s, s),
{
    assert(reach(edges, s, s, 0));
}

/// A walk from `s` to an edge's source extends over that edge.
proof fn lemma_reach_extend(edges: Seq<Edge>, s: usize, j: int, k: nat)
    requires
        0 <= j < edges.len(),
        reach(edges, s, edges[j].source_id, k),
    ensures
        reach(edges, s, edges[j].target_id, k + 1),
    decreases k,
{
    let u = edges[j].source_id;
    let v = edges[j].target_id;
    if s == u {
        assert(reach(edges, v, v, k));
        assert(edges[j].source_id == s && reach(edges, edges[j].target_id, v, k));
        assert(reach(edges, s, v, k + 1));
    } else {
        let j0 = choose|j0: int|
            0 <= j0 < edges.len() && (#[trigger] edges[j0]).source_id == s && reach(
                edges,
                edges[j0].target_id,
                u,
                (k - 1) as nat,
            );
        lemma_reach_extend(edges, edges[j0].target_id, j, (k - 1) as nat);
        assert(edges[j0].source_id == s && reach(edges, edges[j0].target_id, v, k));
        assert(reach(edges, s, v, k + 1));
    }
}

/// Connectivity extends over an edge leaving the reached node.
pub proof fn lemma_connected_extend(edges: Seq<Edge>, s: usize, j: int)
    requires
        0 <= j < edges.len(),
        connected(edges, s, edges[j].source_id),
    ensures
        connected(edges, s, edges[j].target_id),
{
    let k = choose|k: nat| reach(edges, s, edges[j].source_id, k);
    lemma_reach_extend(edges, s, j, k);
}

/// Connectivity extends backward over an edge entering the start node.
pub proof fn lemma_connected_prepend(edges: Seq<Edge>, j: int, t: usize)
    requires
        0 <= j < edges.len(),
        connected(edges, edges[j].target_id, t),
    ensures
        connected(edges, edges[j].source_id, t),
{
    let k = choose|k: nat| reach(edges, edges[j].target_id, t, k);
    let s = edges[j].source_id;
    assert(edges[j].source_id == s && reach(edges, edges[j].target_id, t, k));
    assert(reach(edges, s, t, k + 1));
}

/// Some walk from `src` to `n` costs exactly `c` under `alpha`.
#[verifier::opaque]
pub open spec fn walk_to(edges: Seq<Edge>, src: usize, n: usize, c: int, alpha: Seq<u64>) -> bool {
    exists|w: Seq<usize>| is_walk(edges, src, n, w) && #[trigger] walk_scal(edges, w, alpha) == c
}

/// Some walk from `n` to `tgt` costs exactly `c` under `alpha`.
#[verifier::opaque]
pub open spec fn walk_from(edges: Seq<Edge>, n: usize, tgt: usize, c: int, alpha: Seq<u64>) -> bool {
    exists|w: Seq<usize>| is_walk(edges, n, tgt, w) && #[trigger] walk_scal(edges, w, alpha) == c
}

/// A walk extends over one more edge leaving its end.
proof fn lemma_is_walk_snoc(edges: Seq<Edge>, s: usize, w: Seq<usize>, j: int)
    requires
        0 <= j < edges.len(),
        j <= usize::MAX,
        is_walk(edges, s, edges[j].source_id, w),
    ensures
        is_walk(edges, s, edges[j].target_id, w.push(j as usize)),
    decreases w.len(),
{
    if w.len() == 0 {
        let w1 = w.push(j as usize);
        assert(w1[0] == j as usize);
        assert(w1.drop_first() =~= Seq::<usize>::empty());
        assert(is_walk(edges, edges[j].target_id, edges[j].target_id, Seq::<usize>::empty()));
    } else {
        lemma_is_walk_snoc(edges, edges[w[0] as int].target_id, w.drop_first(), j);
        assert(w.push(j as usize).drop_first() =~= w.drop_first().push(j as usize));
        assert(w.push(j as usize)[0] == w[0]);
    }
}

/// Appending one edge adds its scalarized cost, with saturation.
proof fn lemma_walk_scal_snoc(edges: Seq<Edge>, w: Seq<usize>, j: int, alpha: Seq<u64>)
    requires
        0 <= j < edges.len(),
        j <= usize::MAX,
    ensures
        walk_scal(edges, w.push(j as usize), alpha) == clip(
            walk_scal(edges, w, alpha) + scal(edges[j].edge_costs@, alpha),
        ),
    decreases w.len(),
{
    crate::costs::lemma_dot_nonneg(edges[j].edge_costs@, alpha);
    if w.len() == 0 {
        let w1 = w.push(j as usize);
        assert(w1[0] == j as usize);
        assert(w1.drop_first() =~= Seq::<usize>::empty());
        assert(walk_scal(edges, Seq::<usize>::empty(), alpha) == 0);
        assert(walk_scal(edges, w1, alpha) == clip(scal(edges[j].edge_costs@, alpha) + 0));
    } else {
        lemma_walk_scal_snoc(edges, w.drop_first(), j, alpha);
        lemma_walk_scal_nonneg(edges, w.drop_first(), alpha);
        crate::costs::lemma_dot_nonneg(edges[w[0] as int].edge_costs@, alpha);
        assert(w.push(j as usize).drop_first() =~= w.drop_first().push(j as usize));
        assert(w.push(j as usize)[0] == w[0]);
        let s0 = scal(edges[w[0] as int].edge_costs@, alpha);
        let rest = walk_scal(edges, w.drop_first(), alpha);
        let sj = scal(edges[j].edge_costs@, alpha);
        crate::costs::lemma_clip_add(s0, rest + sj);
        crate::costs::lemma_clip_add(s0 + rest, sj);
        assert(walk_scal(edges, w.push(j as usize), alpha) == clip(
            s0 + walk_scal(edges, w.drop_first().push(j as usize), alpha),
        ));
        assert(walk_scal(edges, w.drop_first().push(j as usize), alpha) == clip(rest + sj));
        assert(walk_scal(edges, w, alpha) == clip(s0 + rest));
    }
}

/// The cost of a concatenation of walks is the saturating sum of the
/// two costs.
proof fn lemma_walk_scal_concat(edges: Seq<Edge>, w1: Seq<usize>, w2: Seq<usize>, alpha: Seq<u64>)
    ensures
        walk_scal(edges, w1 + w2, alpha) == clip(
            walk_scal(edges, w1, alpha) + walk_scal(edges, w2, alpha),
        ),
    decreases w1.len(),
{
    lemma_walk_scal_nonneg(edges, w2, alpha);
    if w1.len() == 0 {
        assert(w1 + w2 =~= w2);
    } else {
        lemma_walk_scal_concat(edges, w1.drop_first(), w2, alpha);
        lemma_walk_scal_nonneg(edges, w1.drop_first(), alpha);
        crate::costs::lemma_dot_nonneg(edges[w1[0] as int].edge_costs@, alpha);
        assert((w1 + w2).drop_first() =~= w1.drop_first() + w2);
        assert((w1 + w2)[0] == w1[0]);
        let s0 = scal(edges[w1[0] as int].edge_costs@, alpha);
        let r1 = walk_scal(edges, w1.drop_first(), alpha);
        let r2 = walk_scal(edges, w2, alpha);
        crate::costs::lemma_clip_add(s0, r1 + r2);
        crate::costs::lemma_clip_add(s0 + r1, r2);
    }
}

/// Every edge has a strictly positive scalarized cost under `alpha`.
pub open spec fn positive_costs(edges: Seq<Edge>, alpha: Seq<u64>) -> bool {
    forall|j: int| 0 <= j < edges.len() ==> scal((#[trigger] edges[j]).edge_costs@, alpha) > 0
}

/// A frontier entry the engine may trust: the right dimension, the scalar
/// accumulated in lock-step with the vector, a node inside the graph, and
/// the connectivity its direction certifies.
pub open spec fn state_ok(g: Graph, src: usize, tgt: usize, alpha: Seq<u64>, st: State) -> bool {
    &&& st.node_id < g.node_count
    &&& st.costs@.len() == COST_DIMENSION
    &&& st.total_cost as int == scal(st.costs@, alpha)
    &&& (st.direction == Direction::Forward ==> connected(g.edges@, src, st.node_id) && walk_to(
        g.edges@,
        src,
        st.node_id,
        st.total_cost as int,
        alpha,
    ))
    &&& (st.direction == Direction::Backward ==> connected(g.edges@, st.node_id, tgt)
        && walk_from(g.edges@, st.node_id, tgt, st.total_cost as int, alpha))
}

/// Soundness of the forward distance array: one entry per node, entries
/// of the right dimension, and every finite entry carries a scalar that
/// matches its vector and certifies forward reachability from the source.
pub open spec fn dist_ok_fwd(g: Graph, src: usize, alpha: Seq<u64>, d: Seq<(Vec<u64>, u64)>) -> bool {
    &&& d.len() == g.node_count
    &&& forall|n: int| 0 <= n < d.len() ==> (#[trigger] d[n]).0@.len() == COST_DIMENSION
    &&& forall|n: int|
        0 <= n < d.len() && (#[trigger] d[n]).1 != INFINITY ==> d[n].1 as int == scal(d[n].0@, alpha)
            && connected(g.edges@, src, n as usize) && walk_to(
            g.edges@,
            src,
            n as usize,
            d[n].1 as int,
            alpha,
        )
}

/// Soundness of the backward distance array, symmetric to the forward
/// one: a finite entry certifies a walk from the node to the target.
pub open spec fn dist_ok_bwd(g: Graph, tgt: usize, alpha: Seq<u64>, d: Seq<(Vec<u64>, u64)>) -> bool {
    &&& d.len() == g.node_count
    &&& forall|n: int| 0 <= n < d.len() ==> (#[trigger] d[n]).0@.len() == COST_DIMENSION
    &&& forall|n: int|
        0 <= n < d.len() && (#[trigger] d[n]).1 != INFINITY ==> d[n].1 as int == scal(d[n].0@, alpha)
            && connected(g.edges@, n as usize, tgt) && walk_from(
            g.edges@,
            n as usize,
            tgt,
            d[n].1 as int,
            alpha,
        )
}

/// Soundness of the predecessor table: one slot per node, and a set
/// slot at node `n` names the predecessor together with the edge that
/// really runs from that predecessor to `n`.
pub open spec fn prev_ok(g: Graph, p: Seq<Option<(usize, usize)>>) -> bool {
    &&& p.len() == g.node_count
    &&& forall|n: int|
        0 <= n < p.len() ==> ((#[trigger] p[n]) matches Some(pr) ==> pr.0 < g.node_count && pr.1
            < g.edges@.len() && g.edges@[pr.1 as int].source_id == pr.0 && g.edges@[
            pr.1 as int
        ].target_id == n)
}

/// Soundness of the successor table: one slot per node, and a set slot
/// at node `n` names the successor together with the edge that really
/// runs from `n` to that successor.
pub open spec fn succ_ok(g: Graph, p: Seq<Option<(usize, usize)>>) -> bool {
    &&& p.len() == g.node_count
    &&& forall|n: int|
        0 <= n < p.len() ==> ((#[trigger] p[n]) matches Some(pr) ==> pr.0 < g.node_count && pr.1
            < g.edges@.len() && g.edges@[pr.1 as int].source_id == n && g.edges@[
            pr.1 as int
        ].target_id == pr.0)
}

/// Soundness of the best meeting node: when set, it names a node inside
/// the graph whose merged scalar is finite, matches the merged vector,
/// and certifies a meeting point reachable forward from the source and
/// backward to the target.
pub open spec fn best_ok(
    g: Graph,
    src: usize,
    tgt: usize,
    alpha: Seq<u64>,
    b: (Option<usize>, Vec<u64>, u64),
) -> bool {
    &&& b.1@.len() == COST_DIMENSION
    &&& (b.0 matches Some(m) ==> m < g.node_count && b.2 < INFINITY && b.2 as int == scal(
        b.1@,
        alpha,
    ) && connected(g.edges@, src, m) && connected(g.edges@, m, tgt) && (exists|q: Seq<usize>|
        is_walk(g.edges@, src, tgt, q) && #[trigger] walk_scal(g.edges@, q, alpha) == b.2 as int))
    &&& (b.0 is None ==> b.2 == INFINITY)
}

/// Total of the scalar entries of a distance array; together with the
/// queue length it bounds the remaining work of a query, because every
/// push is paid for by a strict decrease of some node's distance.
pub open spec fn sum_dists(d: Seq<(Vec<u64>, u64)>) -> int
    decreases d.len(),
{
    if d.len() == 0 {
        0
    } else {
        sum_dists(d.drop_last()) + d.last().1
    }
}

/// The work bound is never negative.
pub proof fn lemma_sum_dists_nonneg(d: Seq<(Vec<u64>, u64)>)
    ensures
        sum_dists(d) >= 0,
    decreases d.len(),
{
    if d.len() > 0 {
        lemma_sum_dists_nonneg(d.drop_last());
    }
}

/// Overwriting one entry changes the work bound by the scalar difference.
pub proof fn lemma_sum_dists_update(d: Seq<(Vec<u64>, u64)>, n: int, v: (Vec<u64>, u64))
    requires
        0 <= n < d.len(),
    ensures
        sum_dists(d.update(n, v)) == sum_dists(d) - d[n].1 + v.1,
    decreases d.len(),
{
    if n == d.len() - 1 {
        assert(d.update(n, v).drop_last() =~= d.drop_last());
        assert(d.update(n, v).last() == v);
    } else {
        assert(d.update(n, v).drop_last() =~= d.drop_last().update(n, v));
        lemma_sum_dists_update(d.drop_last(), n, v);
        assert(d.update(n, v).last() == d.last());
    }
}

/// Remove the entry with the smallest scalar cost from the queue and
/// return it; on an empty queue return nothing and leave it unchanged.
fn pop_min(q: &mut Vec<State>) -> (r: Option<State>)
    ensures
        r is None <==> old(q)@.len() == 0,
        r is None ==> final(q)@ == old(q)@,
        r matches Some(s) ==> {
            &&& (forall|j: int|
                0 <= j < old(q)@.len() ==> s.total_cost <= (#[trigger] old(q)@[j]).total_cost)
            &&& exists|i: int|
                0 <= i < old(q)@.len() && s == old(q)@[i] && final(q)@ == old(q)@.remove(i)
        },
{
    if q.len() == 0 {
        return None;
    }
    let mut min_idx: usize = 0;
    let mut i: usize = 1;
    while i < q.len()
        invariant
            q@.len() > 0,
            min_idx < i,
            i <= q@.len(),
            forall|j: int| 0 <= j < i ==> q@[min_idx as int].total_cost <= (#[trigger] q@[j]).total_cost,
        decreases q@.len() - i,
    {
        if q[i].total_cost < q[min_idx].total_cost {
            min_idx = i;
        }
        i = i + 1;
    }
    let s = q.remove(min_idx);
    Some(s)
}

/// One entry of the queue is a zero-cost seed at `src`: the state either
/// search starts from when source and target coincide.
pub open spec fn is_seed(st: State, src: usize) -> bool {
    st.node_id == src && st.total_cost == 0 && st.costs@ == zero_seq(COST_DIMENSION as nat)
}

/// Some entry of the queue is a zero-cost seed at `src`.
pub open spec fn has_seed(q: Seq<State>, src: usize) -> bool {
    exists|i: int| 0 <= i < q.len() && is_seed(#[trigger] q[i], src)
}

/// A queue entry produced by relaxing one adjacent edge of the
/// candidate: the vector and the scalar advance in lock-step from the
/// candidate over that edge, in the candidate's direction.
pub open spec fn relaxed_from(g: Graph, c: State, alpha: Seq<u64>, st: State) -> bool {
    exists|j: int|
        0 <= j < g.edges@.len() && ((c.direction == Direction::Forward && (#[trigger] g.edges@[
            j
        ]).source_id == c.node_id && st.node_id == g.edges@[j].target_id) || (c.direction
            == Direction::Backward && g.edges@[j].target_id == c.node_id && st.node_id == g.edges@[
            j
        ].source_id)) && st.direction == c.direction && st.costs@ == sat_add_seq(
            c.costs@,
            g.edges@[j].edge_costs@,
        ) && st.total_cost as int == clip(c.total_cost as int + scal(g.edges@[j].edge_costs@, alpha))
}

/// Node `n`'s record in one direction either kept its old value and
/// chain slot, or was strictly improved by relaxing some adjacent edge
/// of the candidate, with the chain slot now naming the candidate and
/// that edge.
pub open spec fn relaxed_or_kept(
    g: Graph,
    c: State,
    alpha: Seq<u64>,
    d0: Seq<(Vec<u64>, u64)>,
    d1: Seq<(Vec<u64>, u64)>,
    p0: Seq<Option<(usize, usize)>>,
    p1: Seq<Option<(usize, usize)>>,
    n: int,
    forward: bool,
) -> bool {
    (d1[n] == d0[n] && p1[n] == p0[n]) || (forward && exists|j: int|
        0 <= j < g.edges@.len() && (#[trigger] g.edges@[j]).source_id == c.node_id && g.edges@[
            j
        ].target_id == n as usize && d1[n].0@ == sat_add_seq(c.costs@, g.edges@[j].edge_costs@)
            && d1[n].1 as int == clip(
            c.total_cost as int + scal(g.edges@[j].edge_costs@, alpha),
        ) && d1[n].1 < d0[n].1 && p1[n] == Some((c.node_id, j as usize))) || (!forward && exists|
        j: int,
    |
        0 <= j < g.edges@.len() && (#[trigger] g.edges@[j]).target_id == c.node_id && g.edges@[
            j
        ].source_id == n as usize && d1[n].0@ == sat_add_seq(c.costs@, g.edges@[j].edge_costs@)
            && d1[n].1 as int == clip(
            c.total_cost as int + scal(g.edges@[j].edge_costs@, alpha),
        ) && d1[n].1 < d0[n].1 && p1[n] == Some((c.node_id, j as usize)))
}

/// Every edge leaving node `n` is fully relaxed in the forward distance
/// array: its head's distance is no worse than relaxing the edge once
/// more from `n`.
pub open spec fn node_relaxed(g: Graph, d: Seq<(Vec<u64>, u64)>, alpha: Seq<u64>, n: int) -> bool {
    forall|j: int|
        0 <= j < g.edges@.len() && (#[trigger] g.edges@[j]).source_id == n ==> d[g.edges@[
            j
        ].target_id as int].1 as int <= clip(d[n].1 + scal(g.edges@[j].edge_costs@, alpha))
}

/// The queue holds a forward entry at node `n` carrying `n`'s current
/// distance.
pub open spec fn fwd_witness(q: Seq<State>, d: Seq<(Vec<u64>, u64)>, n: int) -> bool {
    exists|i: int|
        0 <= i < q.len() && (#[trigger] q[i]).direction == Direction::Forward && q[i].node_id == n
            && q[i].total_cost == d[n].1
}

/// Forward progress: every forward-reached node either still has a
/// queue entry carrying its current distance, or all its outgoing edges
/// are relaxed. With an empty queue this collapses to a fully relaxed
/// distance array over the reached nodes.
pub open spec fn fwd_progress(g: Graph, q: Seq<State>, d: Seq<(Vec<u64>, u64)>, alpha: Seq<u64>) -> bool {
    forall|n: int|
        0 <= n < d.len() && (#[trigger] d[n]).1 != INFINITY ==> (fwd_witness(q, d, n)
            || node_relaxed(g, d, alpha, n))
}

/// Forward progress where the entry just popped from the queue may
/// itself stand in for a node's missing witness.
pub open spec fn fwd_progress_except(
    g: Graph,
    q: Seq<State>,
    d: Seq<(Vec<u64>, u64)>,
    alpha: Seq<u64>,
    c: State,
) -> bool {
    forall|n: int|
        0 <= n < d.len() && (#[trigger] d[n]).1 != INFINITY ==> (fwd_witness(q, d, n)
            || node_relaxed(g, d, alpha, n) || (c.direction == Direction::Forward && c.node_id == n
            && c.total_cost == d[n].1))
}

/// The best meeting scalar is bounded by the target's forward distance,
/// unless the target's current-distance entry is still queued.
pub open spec fn best_bound(b2: u64, q: Seq<State>, d: Seq<(Vec<u64>, u64)>, tgt: usize) -> bool {
    b2 <= d[tgt as int].1 || fwd_witness(q, d, tgt as int)
}

/// The best-bound where the popped entry may stand in for the target's
/// missing witness.
pub open spec fn best_bound_except(
    b2: u64,
    q: Seq<State>,
    d: Seq<(Vec<u64>, u64)>,
    tgt: usize,
    c: State,
) -> bool {
    b2 <= d[tgt as int].1 || fwd_witness(q, d, tgt as int) || (c.direction == Direction::Forward
        && c.node_id == tgt && c.total_cost == d[tgt as int].1)
}

/// The bidirectional search engine with its per-query state: the shared
/// priority queue, one distance array per direction, the predecessor and
/// successor tables, and the best meeting node found so far.
pub struct Dijkstra {
    pub source_node: usize,
    pub target_node: usize,
    pub candidates: Vec<State>,
    pub to_dist: Vec<(Vec<u64>, u64)>,
    pub from_dist: Vec<(Vec<u64>, u64)>,
    pub previous: Vec<Option<(usize, usize)>>,
    pub successive: Vec<Option<(usize, usize)>>,
    pub best_node: (Option<usize>, Vec<u64>, u64),
}

impl Dijkstra {
    /// Everything the relaxation loop preserves about the per-query
    /// state with respect to a graph and a weight vector.
    pub open spec fn inv(self, g: Graph, alpha: Seq<u64>) -> bool {
        &&& self.source_node < g.node_count
        &&& self.target_node < g.node_count
        &&& forall|i: int|
            0 <= i < self.candidates@.len() ==> state_ok(
                g,
                self.source_node,
                self.target_node,
                alpha,
                #[trigger] self.candidates@[i],
            )
        &&& dist_ok_fwd(g, self.source_node, alpha, self.to_dist@)
        &&& dist_ok_bwd(g, self.target_node, alpha, self.from_dist@)
        &&& prev_ok(g, self.previous@)
        &&& succ_ok(g, self.successive@)
        &&& best_ok(g, self.source_node, self.target_node, alpha, self.best_node)
        &&& self.to_dist@[self.source_node as int].1 == 0
        &&& self.from_dist@[self.target_node as int].1 == 0
    }

    /// The sharper bookkeeping available when source and target coincide
    /// and every edge costs something: only the seeds carry scalar zero,
    /// the origin's distance records stay at zero, its chain slots stay
    /// empty, and a best meeting scalar of zero can only describe the
    /// trivial meeting at the origin itself.
    pub open spec fn seed_inv(self, g: Graph, alpha: Seq<u64>) -> bool {
        &&& forall|i: int|
            0 <= i < self.candidates@.len() && (#[trigger] self.candidates@[i]).total_cost == 0
                ==> is_seed(self.candidates@[i], self.source_node)
        &&& self.to_dist@[self.source_node as int].1 == 0
        &&& self.to_dist@[self.source_node as int].0@ == zero_seq(COST_DIMENSION as nat)
        &&& forall|n: int|
            0 <= n < self.to_dist@.len() && (#[trigger] self.to_dist@[n]).1 == 0 ==> n
                == self.source_node
        &&& self.from_dist@[self.source_node as int].1 == 0
        &&& self.from_dist@[self.source_node as int].0@ == zero_seq(COST_DIMENSION as nat)
        &&& forall|n: int|
            0 <= n < self.from_dist@.len() && (#[trigger] self.from_dist@[n]).1 == 0 ==> n
                == self.source_node
        &&& self.previous@[self.source_node as int] is None
        &&& self.successive@[self.source_node as int] is None
        &&& (self.best_node.2 == 0 ==> self.best_node.0 == Some(self.source_node)
            && self.best_node.1@ == zero_seq(COST_DIMENSION as nat))
    }

    /// A fresh engine with no per-query state; every query re-initializes
    /// all of it.
    pub fn new() -> (r: Dijkstra)
        ensures
            r.source_node == 0,
            r.target_node == 0,
            r.candidates@.len() == 0,
            r.to_dist@.len() == 0,
            r.from_dist@.len() == 0,
            r.previous@.len() == 0,
            r.successive@.len() == 0,
            r.best_node.0 is None,
            r.best_node.1@ == zero_seq(COST_DIMENSION as nat),
            r.best_node.2 == INFINITY,
    {
        Dijkstra {
            source_node: 0,
            target_node: 0,
            candidates: Vec::new(),
            to_dist: Vec::new(),
            from_dist: Vec::new(),
            previous: Vec::new(),
            successive: Vec::new(),
            best_node: (None, zero_costs(), INFINITY),
        }
    }
}

/// A distance array of `n` entries, all unreached.
fn make_dist_array(n: usize) -> (r: Vec<(Vec<u64>, u64)>)
    ensures
        r@.len() == n,
        forall|i: int|
            0 <= i < n ==> (#[trigger] r@[i]).1 == INFINITY && r@[i].0@ == zero_seq(
                COST_DIMENSION as nat,
            ),
{
    let mut r: Vec<(Vec<u64>, u64)> = Vec::new();
    let mut i: usize = 0;
    while i < n
        invariant
            i <= n,
            r@.len() == i,
            forall|j: int|
                0 <= j < i ==> (#[trigger] r@[j]).1 == INFINITY && r@[j].0@ == zero_seq(
                    COST_DIMENSION as nat,
                ),
        decreases n - i,
    {
        r.push((zero_costs(), INFINITY));
        i = i + 1;
    }
    r
}

/// A predecessor or successor table of `n` empty slots.
fn make_chain_array(n: usize) -> (r: Vec<Option<(usize, usize)>>)
    ensures
        r@.len() == n,
        forall|i: int| 0 <= i < n ==> (#[trigger] r@[i]) is None,
{
    let mut r: Vec<Option<(usize, usize)>> = Vec::new();
    let mut i: usize = 0;
    while i < n
        invariant
            i <= n,
            r@.len() == i,
            forall|j: int| 0 <= j < i ==> (#[trigger] r@[j]) is None,
        decreases n - i,
    {
        r.push(None);
        i = i + 1;
    }
    r
}


impl Dijkstra {
    /// Reset all per-query state for a query from `source` to `target`:
    /// seed both searches with a zero-cost state at their origin, mark
    /// every node unreached except the two origins, and clear the chain
    /// tables and the best meeting node.
    fn init_query(
        &mut self,
        g: &Graph,
        source: usize,
        target: usize,
        Ghost(alpha): Ghost<Seq<u64>>,
    )
        requires
            g.wf(),
            source < g.node_count,
            target < g.node_count,
            alpha.len() == COST_DIMENSION,
        ensures
            final(self).inv(*g, alpha),
            final(self).source_node == source,
            final(self).target_node == target,
            has_seed(final(self).candidates@, source),
            final(self).candidates@.len() == 2,
            final(self).candidates@[0].node_id == source,
            final(self).candidates@[0].direction == Direction::Forward,
            final(self).candidates@[0].total_cost == 0,
            final(self).candidates@[0].costs@ == zero_seq(COST_DIMENSION as nat),
            final(self).candidates@[1].node_id == target,
            final(self).candidates@[1].direction == Direction::Backward,
            final(self).candidates@[1].total_cost == 0,
            final(self).candidates@[1].costs@ == zero_seq(COST_DIMENSION as nat),
            final(self).to_dist@.len() == g.node_count,
            final(self).from_dist@.len() == g.node_count,
            forall|n: int|
                0 <= n < g.node_count && n != source ==> (#[trigger] final(self).to_dist@[n]).1
                    == INFINITY,
            final(self).to_dist@[source as int].1 == 0,
            forall|n: int|
                0 <= n < g.node_count ==> (#[trigger] final(self).to_dist@[n]).0@ == zero_seq(
                    COST_DIMENSION as nat,
                ),
            forall|n: int|
                0 <= n < g.node_count && n != target ==> (#[trigger] final(self).from_dist@[n]).1
                    == INFINITY,
            final(self).from_dist@[target as int].1 == 0,
            forall|n: int|
                0 <= n < g.node_count ==> (#[trigger] final(self).from_dist@[n]).0@ == zero_seq(
                    COST_DIMENSION as nat,
                ),
            forall|n: int| 0 <= n < g.node_count ==> (#[trigger] final(self).previous@[n]) is None,
            forall|n: int|
                0 <= n < g.node_count ==> (#[trigger] final(self).successive@[n]) is None,
            final(self).best_node.0 is None,
            final(self).best_node.1@ == zero_seq(COST_DIMENSION as nat),
            final(self).best_node.2 == INFINITY,
            fwd_progress(*g, final(self).candidates@, final(self).to_dist@, alpha),
            best_bound(
                final(self).best_node.2,
                final(self).candidates@,
                final(self).to_dist@,
                target,
            ),
            source == target ==> final(self).seed_inv(*g, alpha),
    {
        let num_of_nodes = g.node_count;
        self.source_node = source;
        self.target_node = target;

        proof {
            lemma_scal_zero(alpha);
            assert(zero_seq(COST_DIMENSION as nat) =~= zero_seq(alpha.len()));
            lemma_connected_refl(g.edges@, source);
            lemma_connected_refl(g.edges@, target);
        }

        self.candidates = Vec::new();
        self.candidates.push(
            State {
                node_id: source,
                costs: zero_costs(),
                total_cost: 0,
                direction: Direction::Forward,
            },
        );
        self.candidates.push(
            State {
                node_id: target,
                costs: zero_costs(),
                total_cost: 0,
                direction: Direction::Backward,
            },
        );

        let mut to_dist = make_dist_array(num_of_nodes);
        to_dist[source] = (zero_costs(), 0);
        self.to_dist = to_dist;
        let mut from_dist = make_dist_array(num_of_nodes);
        from_dist[target] = (zero_costs(), 0);
        self.from_dist = from_dist;

        self.previous = make_chain_array(num_of_nodes);
        self.successive = make_chain_array(num_of_nodes);

        self.best_node = (None, zero_costs(), INFINITY);

        proof {
            reveal(walk_to);
            reveal(walk_from);
            assert(is_walk(g.edges@, source, source, Seq::<usize>::empty()));
            assert(walk_scal(g.edges@, Seq::<usize>::empty(), alpha) == 0);
            assert(walk_to(g.edges@, source, source, 0, alpha));
            assert(is_walk(g.edges@, target, target, Seq::<usize>::empty()));
            assert(walk_from(g.edges@, target, target, 0, alpha));
            assert(is_seed(self.candidates@[0], source));
            assert(has_seed(self.candidates@, source));
            assert(self.candidates@[0].direction == Direction::Forward && self.candidates@[
                0
            ].node_id == source && self.candidates@[0].total_cost
                == self.to_dist@[source as int].1);
            assert(fwd_witness(self.candidates@, self.to_dist@, source as int));
            assert forall|n: int|
                0 <= n < self.to_dist@.len() && (#[trigger] self.to_dist@[n]).1
                    != INFINITY implies (fwd_witness(self.candidates@, self.to_dist@, n)
                || node_relaxed(*g, self.to_dist@, alpha, n)) by {
                assert(n == source as int);
            }
        }
    }

    /// Process one popped frontier entry: discard it if it is stale,
    /// otherwise merge it with the opposite direction's label at the
    /// same node to update the best meeting node, then relax every
    /// adjacent shortcut edge in its direction, recording improved
    /// distances, chain entries and new queue entries.
    fn process_state(&mut self, g: &Graph, candidate: State, alpha: &Vec<u64>)
        requires
            g.wf(),
            alpha@.len() == COST_DIMENSION,
            old(self).inv(*g, alpha@),
            state_ok(*g, old(self).source_node, old(self).target_node, alpha@, candidate),
            fwd_progress_except(*g, old(self).candidates@, old(self).to_dist@, alpha@, candidate),
            best_bound_except(
                old(self).best_node.2,
                old(self).candidates@,
                old(self).to_dist@,
                old(self).target_node,
                candidate,
            ),
            (old(self).source_node == old(self).target_node && positive_costs(g.edges@, alpha@)
                && old(self).seed_inv(*g, alpha@)) ==> (candidate.total_cost == 0 ==> is_seed(
                candidate,
                old(self).source_node,
            )),
        ensures
            final(self).inv(*g, alpha@),
            final(self).source_node == old(self).source_node,
            final(self).target_node == old(self).target_node,
            final(self).candidates@.len() >= old(self).candidates@.len(),
            forall|i: int|
                0 <= i < old(self).candidates@.len() ==> final(self).candidates@[i]
                    == #[trigger] old(self).candidates@[i],
            final(self).best_node.2 <= old(self).best_node.2,
            fwd_progress(*g, final(self).candidates@, final(self).to_dist@, alpha@),
            best_bound(
                final(self).best_node.2,
                final(self).candidates@,
                final(self).to_dist@,
                final(self).target_node,
            ),
            sum_dists(final(self).to_dist@) + sum_dists(final(self).from_dist@)
                + final(self).candidates@.len() <= sum_dists(old(self).to_dist@)
                + sum_dists(old(self).from_dist@) + old(self).candidates@.len(),
            (old(self).source_node == old(self).target_node && positive_costs(g.edges@, alpha@)
                && old(self).seed_inv(*g, alpha@)) ==> final(self).seed_inv(*g, alpha@) && (is_seed(
                candidate,
                old(self).source_node,
            ) ==> final(self).best_node.2 == 0),
            (candidate.direction == Direction::Forward && candidate.total_cost > old(
                self,
            ).to_dist@[candidate.node_id as int].1) ==> *final(self) == *old(self),
            (candidate.direction == Direction::Backward && candidate.total_cost > old(
                self,
            ).from_dist@[candidate.node_id as int].1) ==> *final(self) == *old(self),
            candidate.direction == Direction::Forward ==> final(self).from_dist@ == old(
                self,
            ).from_dist@ && final(self).successive@ == old(self).successive@,
            candidate.direction == Direction::Backward ==> final(self).to_dist@ == old(
                self,
            ).to_dist@ && final(self).previous@ == old(self).previous@,
            forall|n: int|
                0 <= n < old(self).to_dist@.len() ==> (#[trigger] final(self).to_dist@[n]).1 <= old(
                    self,
                ).to_dist@[n].1,
            forall|n: int|
                0 <= n < old(self).from_dist@.len() ==> (#[trigger] final(self).from_dist@[n]).1
                    <= old(self).from_dist@[n].1,
            forall|i: int|
                old(self).candidates@.len() <= i < final(self).candidates@.len() ==> relaxed_from(
                    *g,
                    candidate,
                    alpha@,
                    #[trigger] final(self).candidates@[i],
                ),
            (candidate.direction == Direction::Forward && candidate.total_cost <= old(
                self,
            ).to_dist@[candidate.node_id as int].1) ==> {
                let m = clip(
                    candidate.total_cost as int + old(self).from_dist@[candidate.node_id as int].1
                        as int,
                );
                &&& (m < old(self).best_node.2 as int ==> final(self).best_node.0 == Some(
                    candidate.node_id,
                ) && final(self).best_node.1@ == sat_add_seq(
                    candidate.costs@,
                    old(self).from_dist@[candidate.node_id as int].0@,
                ) && final(self).best_node.2 as int == m)
                &&& (m >= old(self).best_node.2 as int ==> final(self).best_node == old(
                    self,
                ).best_node)
                &&& forall|n: int|
                    0 <= n < old(self).to_dist@.len() ==> #[trigger] relaxed_or_kept(
                        *g,
                        candidate,
                        alpha@,
                        old(self).to_dist@,
                        final(self).to_dist@,
                        old(self).previous@,
                        final(self).previous@,
                        n,
                        true,
                    )
                &&& forall|j: int|
                    0 <= j < g.edges@.len() && (#[trigger] g.edges@[j]).source_id
                        == candidate.node_id ==> final(self).to_dist@[g.edges@[
                        j
                    ].target_id as int].1 as int <= clip(
                        candidate.total_cost as int + scal(g.edges@[j].edge_costs@, alpha@),
                    )
            },
            (candidate.direction == Direction::Backward && candidate.total_cost <= old(
                self,
            ).from_dist@[candidate.node_id as int].1) ==> {
                let m = clip(
                    candidate.total_cost as int + old(self).to_dist@[candidate.node_id as int].1
                        as int,
                );
                &&& (m < old(self).best_node.2 as int ==> final(self).best_node.0 == Some(
                    candidate.node_id,
                ) && final(self).best_node.1@ == sat_add_seq(
                    candidate.costs@,
                    old(self).to_dist@[candidate.node_id as int].0@,
                ) && final(self).best_node.2 as int == m)
                &&& (m >= old(self).best_node.2 as int ==> final(self).best_node == old(
                    self,
                ).best_node)
                &&& forall|n: int|
                    0 <= n < old(self).from_dist@.len() ==> #[trigger] relaxed_or_kept(
                        *g,
                        candidate,
                        alpha@,
                        old(self).from_dist@,
                        final(self).from_dist@,
                        old(self).successive@,
                        final(self).successive@,
                        n,
                        false,
                    )
                &&& forall|j: int|
                    0 <= j < g.edges@.len() && (#[trigger] g.edges@[j]).target_id
                        == candidate.node_id ==> final(self).from_dist@[g.edges@[
                        j
                    ].source_id as int].1 as int <= clip(
                        candidate.total_cost as int + scal(g.edges@[j].edge_costs@, alpha@),
                    )
            },
    {
        let node_id = candidate.node_id;
        let total_cost = candidate.total_cost;
        let ghost seed_case = old(self).source_node == old(self).target_node && positive_costs(
            g.edges@,
            alpha@,
        ) && old(self).seed_inv(*g, alpha@);
        if candidate.direction == Direction::Forward {
            if total_cost > self.to_dist[node_id].1 {
                proof {
                    assert forall|n: int|
                        0 <= n < self.to_dist@.len() && (#[trigger] self.to_dist@[n]).1
                            != INFINITY implies (fwd_witness(self.candidates@, self.to_dist@, n)
                        || node_relaxed(*g, self.to_dist@, alpha@, n)) by {
                        assert(!(candidate.node_id == n && candidate.total_cost
                            == self.to_dist@[n].1));
                    }
                }
                return ;
            }
            let merged_cost = sat_add(total_cost, self.from_dist[node_id].1);
            let merged_cost_vector = add_edge_costs(&candidate.costs, &self.from_dist[node_id].0);
            proof {
                if seed_case && is_seed(candidate, old(self).source_node) {
                    assert(self.from_dist@[node_id as int].1 == 0);
                    assert(merged_cost == 0);
                }
            }
            if merged_cost < self.best_node.2 {
                proof {
                    assert(self.from_dist@[node_id as int].1 != INFINITY);
                    lemma_scal_sat_add(candidate.costs@, self.from_dist@[node_id as int].0@, alpha@);
                    reveal(walk_to);
                    reveal(walk_from);
                    let w1 = choose|w1: Seq<usize>|
                        is_walk(g.edges@, self.source_node, node_id, w1) && #[trigger] walk_scal(
                            g.edges@,
                            w1,
                            alpha@,
                        ) == candidate.total_cost as int;
                    let w2 = choose|w2: Seq<usize>|
                        is_walk(g.edges@, node_id, self.target_node, w2) && #[trigger] walk_scal(
                            g.edges@,
                            w2,
                            alpha@,
                        ) == self.from_dist@[node_id as int].1 as int;
                    lemma_is_walk_concat(
                        g.edges@,
                        self.source_node,
                        node_id,
                        self.target_node,
                        w1,
                        w2,
                    );
                    lemma_walk_scal_concat(g.edges@, w1, w2, alpha@);
                    assert(walk_scal(g.edges@, w1 + w2, alpha@) == merged_cost as int);
                    if seed_case && merged_cost == 0 {
                        assert(self.from_dist@[node_id as int].1 == 0);
                        assert(node_id == old(self).source_node);
                        assert(candidate.costs@ == zero_seq(COST_DIMENSION as nat));
                        assert(merged_cost_vector@ =~= zero_seq(COST_DIMENSION as nat));
                    }
                }
                self.best_node = (Some(node_id), merged_cost_vector, merged_cost);
            }
            let half_edges = g.get_ch_edges_out(node_id);
            proof {
                assert forall|n: int|
                    0 <= n < self.to_dist@.len() implies #[trigger] relaxed_or_kept(
                    *g,
                    candidate,
                    alpha@,
                    old(self).to_dist@,
                    self.to_dist@,
                    old(self).previous@,
                    self.previous@,
                    n,
                    true,
                ) by {}
                assert forall|n: int|
                    0 <= n < self.to_dist@.len() && (#[trigger] self.to_dist@[n]).1
                        != INFINITY implies (fwd_witness(self.candidates@, self.to_dist@, n)
                    || node_relaxed(*g, self.to_dist@, alpha@, n) || n == node_id as int) by {}
                if !(self.best_node.2 <= self.to_dist@[self.target_node as int].1) && !fwd_witness(
                    self.candidates@,
                    self.to_dist@,
                    self.target_node as int,
                ) {
                    assert(candidate.node_id == self.target_node && candidate.total_cost
                        == self.to_dist@[self.target_node as int].1);
                    assert(self.from_dist@[self.target_node as int].1 == 0);
                    assert(merged_cost == total_cost);
                    assert(self.best_node.2 <= self.to_dist@[self.target_node as int].1);
                }
            }
            let ghost mid = *self;
            let mut idx: usize = 0;
            while idx < half_edges.len()
                invariant
                    g.wf(),
                    alpha@.len() == COST_DIMENSION,
                    idx <= half_edges@.len(),
                    self.inv(*g, alpha@),
                    self.source_node == old(self).source_node,
                    self.target_node == old(self).target_node,
                    self.best_node == mid.best_node,
                    state_ok(*g, self.source_node, self.target_node, alpha@, candidate),
                    candidate.node_id == node_id,
                    candidate.total_cost == total_cost,
                    candidate.direction == Direction::Forward,
                    forall|k: int|
                        0 <= k < half_edges@.len() ==> half_edge_out_ok(
                            g.edges@,
                            node_id,
                            #[trigger] half_edges@[k],
                        ),
                    self.candidates@.len() >= old(self).candidates@.len(),
                    forall|i: int|
                        0 <= i < old(self).candidates@.len() ==> self.candidates@[i]
                            == #[trigger] old(self).candidates@[i],
                    sum_dists(self.to_dist@) + sum_dists(self.from_dist@) + self.candidates@.len()
                        <= sum_dists(old(self).to_dist@) + sum_dists(old(self).from_dist@)
                        + old(self).candidates@.len(),
                    seed_case == (old(self).source_node == old(self).target_node
                        && positive_costs(g.edges@, alpha@) && old(self).seed_inv(*g, alpha@)),
                    seed_case ==> self.seed_inv(*g, alpha@),
                    self.from_dist@ == old(self).from_dist@,
                    self.successive@ == old(self).successive@,
                    forall|n: int|
                        0 <= n < self.to_dist@.len() ==> (#[trigger] self.to_dist@[n]).1 <= old(
                            self,
                        ).to_dist@[n].1,
                    forall|n: int|
                        0 <= n < self.to_dist@.len() ==> #[trigger] relaxed_or_kept(
                            *g,
                            candidate,
                            alpha@,
                            old(self).to_dist@,
                            self.to_dist@,
                            old(self).previous@,
                            self.previous@,
                            n,
                            true,
                        ),
                    forall|i: int|
                        old(self).candidates@.len() <= i < self.candidates@.len() ==> relaxed_from(
                            *g,
                            candidate,
                            alpha@,
                            #[trigger] self.candidates@[i],
                        ),
                    total_cost <= self.to_dist@[node_id as int].1,
                    forall|k: int|
                        0 <= k < idx ==> self.to_dist@[(#[trigger] half_edges@[k]).target_id as int].1
                            as int <= clip(
                            total_cost + scal(half_edges@[k].edge_costs@, alpha@),
                        ),
                    forall|n: int|
                        0 <= n < self.to_dist@.len() && (#[trigger] self.to_dist@[n]).1
                            != INFINITY ==> (fwd_witness(self.candidates@, self.to_dist@, n)
                            || node_relaxed(*g, self.to_dist@, alpha@, n) || n == node_id as int),
                    best_bound(
                        self.best_node.2,
                        self.candidates@,
                        self.to_dist@,
                        self.target_node,
                    ),
                decreases half_edges@.len() - idx,
            {
                let he = &half_edges[idx];
                let ghost d0 = self.to_dist@;
                let ghost q0 = self.candidates@;
                let ghost p0 = self.previous@;
                proof {
                    assert(half_edge_out_ok(g.edges@, node_id, half_edges@[idx as int]));
                    assert(edge_ok(g.edges@, g.node_count as int, he.edge_id as int));
                }
                let edge_scal = he.calc_costs(alpha);
                let new_total = sat_add(total_cost, edge_scal);
                if new_total < self.to_dist[he.target_id].1 {
                    let new_costs = add_edge_costs(&candidate.costs, &he.edge_costs);
                    let state_costs = add_edge_costs(&candidate.costs, &he.edge_costs);
                    proof {
                        lemma_scal_sat_add(candidate.costs@, he.edge_costs@, alpha@);
                        lemma_connected_extend(g.edges@, self.source_node, he.edge_id as int);
                        lemma_sum_dists_update(
                            self.to_dist@,
                            he.target_id as int,
                            (new_costs, new_total),
                        );
                        reveal(walk_to);
                        let w0 = choose|w0: Seq<usize>|
                            is_walk(g.edges@, self.source_node, candidate.node_id, w0)
                                && #[trigger] walk_scal(g.edges@, w0, alpha@)
                                == candidate.total_cost as int;
                        lemma_is_walk_snoc(g.edges@, self.source_node, w0, he.edge_id as int);
                        lemma_walk_scal_snoc(g.edges@, w0, he.edge_id as int, alpha@);
                        assert(walk_scal(g.edges@, w0.push(he.edge_id), alpha@)
                            == new_total as int);
                        assert(walk_to(
                            g.edges@,
                            self.source_node,
                            he.target_id,
                            new_total as int,
                            alpha@,
                        ));
                        if seed_case {
                            assert(scal(g.edges@[he.edge_id as int].edge_costs@, alpha@) > 0);
                            assert(new_total > 0);
                            assert(he.target_id != self.source_node);
                        }
                    }
                    self.to_dist[he.target_id] = (new_costs, new_total);
                    self.previous[he.target_id] = Some((node_id, he.edge_id));
                    self.candidates.push(
                        State {
                            node_id: he.target_id,
                            costs: state_costs,
                            total_cost: new_total,
                            direction: Direction::Forward,
                        },
                    );
                    proof {
                        let v = he.target_id as int;
                        let last = self.candidates@.len() - 1;
                        assert(self.candidates@[last].direction == Direction::Forward
                            && self.candidates@[last].node_id == he.target_id
                            && self.candidates@[last].total_cost == self.to_dist@[v].1);
                        assert(fwd_witness(self.candidates@, self.to_dist@, v));
                        assert forall|n: int|
                            0 <= n < self.to_dist@.len() && (#[trigger] self.to_dist@[n]).1
                                != INFINITY implies (fwd_witness(
                            self.candidates@,
                            self.to_dist@,
                            n,
                        ) || node_relaxed(*g, self.to_dist@, alpha@, n) || n
                            == node_id as int) by {
                            if n != v && n != node_id as int {
                                assert(self.to_dist@[n] == d0[n]);
                                if fwd_witness(q0, d0, n) {
                                    let w = choose|w: int|
                                        0 <= w < q0.len() && (#[trigger] q0[w]).direction
                                            == Direction::Forward && q0[w].node_id == n
                                            && q0[w].total_cost == d0[n].1;
                                    assert(self.candidates@[w] == q0[w]);
                                    assert(fwd_witness(self.candidates@, self.to_dist@, n));
                                } else if node_relaxed(*g, d0, alpha@, n) {
                                    assert forall|j: int|
                                        0 <= j < g.edges@.len() && (#[trigger] g.edges@[
                                            j
                                        ]).source_id == n implies self.to_dist@[g.edges@[
                                        j
                                    ].target_id as int].1 as int <= clip(
                                        self.to_dist@[n].1 + scal(
                                            g.edges@[j].edge_costs@,
                                            alpha@,
                                        ),
                                    ) by {
                                        assert(edge_ok(g.edges@, g.node_count as int, j));
                                        let m = g.edges@[j].target_id as int;
                                        assert(d0[m].1 as int <= clip(
                                            d0[n].1 + scal(g.edges@[j].edge_costs@, alpha@),
                                        ));
                                        assert(self.to_dist@[m].1 <= d0[m].1);
                                        assert(self.to_dist@[n].1 == d0[n].1);
                                    }
                                    assert(node_relaxed(*g, self.to_dist@, alpha@, n));
                                }
                            }
                        }
                        if self.target_node as int == v {
                        } else if fwd_witness(q0, d0, self.target_node as int) {
                            let w = choose|w: int|
                                0 <= w < q0.len() && (#[trigger] q0[w]).direction
                                    == Direction::Forward && q0[w].node_id == self.target_node
                                    && q0[w].total_cost == d0[self.target_node as int].1;
                            assert(self.candidates@[w] == q0[w]);
                            assert(fwd_witness(
                                self.candidates@,
                                self.to_dist@,
                                self.target_node as int,
                            ));
                        }
                        let j = he.edge_id as int;
                        assert(g.edges@[j].source_id == candidate.node_id);
                        assert(g.edges@[j].target_id == he.target_id);
                        assert(g.edges@[j].edge_costs@ == he.edge_costs@);
                        assert(relaxed_from(*g, candidate, alpha@, self.candidates@[last]));
                        assert forall|i2: int|
                            old(self).candidates@.len() <= i2
                                < self.candidates@.len() implies relaxed_from(
                            *g,
                            candidate,
                            alpha@,
                            #[trigger] self.candidates@[i2],
                        ) by {
                            if i2 < self.candidates@.len() - 1 {
                                assert(self.candidates@[i2] == q0[i2]);
                            }
                        }
                        assert(self.previous@[v] == Some((candidate.node_id, he.edge_id)));
                        assert(relaxed_or_kept(
                            *g,
                            candidate,
                            alpha@,
                            old(self).to_dist@,
                            self.to_dist@,
                            old(self).previous@,
                            self.previous@,
                            v,
                            true,
                        ));
                        assert forall|n: int|
                            0 <= n < self.to_dist@.len() implies #[trigger] relaxed_or_kept(
                            *g,
                            candidate,
                            alpha@,
                            old(self).to_dist@,
                            self.to_dist@,
                            old(self).previous@,
                            self.previous@,
                            n,
                            true,
                        ) by {
                            if n != v {
                                assert(self.to_dist@[n] == d0[n]);
                                assert(self.previous@[n] == p0[n]);
                                assert(relaxed_or_kept(
                                    *g,
                                    candidate,
                                    alpha@,
                                    old(self).to_dist@,
                                    d0,
                                    old(self).previous@,
                                    p0,
                                    n,
                                    true,
                                ));
                                if !(d0[n] == old(self).to_dist@[n] && p0[n] == old(
                                    self,
                                ).previous@[n]) {
                                    let j2 = choose|j2: int|
                                        0 <= j2 < g.edges@.len() && (#[trigger] g.edges@[
                                            j2
                                        ]).source_id == candidate.node_id && g.edges@[
                                            j2
                                        ].target_id == n as usize && d0[n].0@ == sat_add_seq(
                                            candidate.costs@,
                                            g.edges@[j2].edge_costs@,
                                        ) && d0[n].1 as int == clip(
                                            candidate.total_cost as int + scal(
                                                g.edges@[j2].edge_costs@,
                                                alpha@,
                                            ),
                                        ) && d0[n].1 < old(self).to_dist@[n].1 && p0[n] == Some(
                                            (candidate.node_id, j2 as usize),
                                        );
                                    assert(g.edges@[j2].source_id == candidate.node_id
                                        && g.edges@[j2].target_id == n as usize
                                        && self.to_dist@[n].0@ == sat_add_seq(
                                        candidate.costs@,
                                        g.edges@[j2].edge_costs@,
                                    ) && self.to_dist@[n].1 as int == clip(
                                        candidate.total_cost as int + scal(
                                            g.edges@[j2].edge_costs@,
                                            alpha@,
                                        ),
                                    ) && self.to_dist@[n].1 < old(self).to_dist@[n].1
                                        && self.previous@[n] == Some(
                                        (candidate.node_id, j2 as usize),
                                    ));
                                }
                            }
                        }
                        assert forall|k: int|
                            0 <= k < idx + 1 implies self.to_dist@[(#[trigger] half_edges@[
                            k
                        ]).target_id as int].1 as int <= clip(
                            total_cost + scal(half_edges@[k].edge_costs@, alpha@),
                        ) by {
                            assert(half_edge_out_ok(g.edges@, node_id, half_edges@[k]));
                            assert(edge_ok(
                                g.edges@,
                                g.node_count as int,
                                half_edges@[k].edge_id as int,
                            ));
                            let m = half_edges@[k].target_id as int;
                            if k < idx {
                                assert(d0[m].1 as int <= clip(
                                    total_cost + scal(half_edges@[k].edge_costs@, alpha@),
                                ));
                                assert(self.to_dist@[m].1 <= d0[m].1);
                            } else {
                                assert(self.to_dist@[v].1 == new_total);
                            }
                        }
                    }
                } else {
                    proof {
                        assert(self.to_dist@[he.target_id as int].1 <= new_total);
                        assert(new_total as int == clip(
                            total_cost + scal(half_edges@[idx as int].edge_costs@, alpha@),
                        ));
                    }
                }
                idx = idx + 1;
            }
            proof {
                assert forall|j: int|
                    0 <= j < g.edges@.len() && (#[trigger] g.edges@[j]).source_id
                        == node_id implies self.to_dist@[g.edges@[j].target_id as int].1 as int
                    <= clip(
                    self.to_dist@[node_id as int].1 + scal(g.edges@[j].edge_costs@, alpha@),
                ) by {
                    assert(edge_ok(g.edges@, g.node_count as int, j));
                    let k = choose|k: int|
                        0 <= k < half_edges@.len() && half_edges@[k].edge_id == j;
                    assert(half_edge_out_ok(g.edges@, node_id, half_edges@[k]));
                    assert(self.to_dist@[half_edges@[k].target_id as int].1 as int <= clip(
                        total_cost + scal(half_edges@[k].edge_costs@, alpha@),
                    ));
                }
                assert(node_relaxed(*g, self.to_dist@, alpha@, node_id as int));
                assert forall|n: int|
                    0 <= n < self.to_dist@.len() && (#[trigger] self.to_dist@[n]).1
                        != INFINITY implies (fwd_witness(self.candidates@, self.to_dist@, n)
                    || node_relaxed(*g, self.to_dist@, alpha@, n)) by {
                    if n == node_id as int {
                        assert(node_relaxed(*g, self.to_dist@, alpha@, n));
                    }
                }
                assert forall|j: int|
                    0 <= j < g.edges@.len() && (#[trigger] g.edges@[j]).source_id
                        == node_id implies self.to_dist@[g.edges@[j].target_id as int].1 as int
                    <= clip(
                    total_cost as int + scal(g.edges@[j].edge_costs@, alpha@),
                ) by {
                    assert(edge_ok(g.edges@, g.node_count as int, j));
                    let k = choose|k: int|
                        0 <= k < half_edges@.len() && half_edges@[k].edge_id == j;
                    assert(half_edge_out_ok(g.edges@, node_id, half_edges@[k]));
                    assert(self.to_dist@[half_edges@[k].target_id as int].1 as int <= clip(
                        total_cost + scal(half_edges@[k].edge_costs@, alpha@),
                    ));
                }
            }
        } else {
            if total_cost > self.from_dist[node_id].1 {
                proof {
                    assert forall|n: int|
                        0 <= n < self.to_dist@.len() && (#[trigger] self.to_dist@[n]).1
                            != INFINITY implies (fwd_witness(self.candidates@, self.to_dist@, n)
                        || node_relaxed(*g, self.to_dist@, alpha@, n)) by {
                        assert(candidate.direction != Direction::Forward);
                    }
                }
                return ;
            }
            let merged_cost = sat_add(total_cost, self.to_dist[node_id].1);
            let merged_cost_vector = add_edge_costs(&candidate.costs, &self.to_dist[node_id].0);
            proof {
                if seed_case && is_seed(candidate, old(self).source_node) {
                    assert(self.to_dist@[node_id as int].1 == 0);
                    assert(merged_cost == 0);
                }
            }
            if merged_cost < self.best_node.2 {
                proof {
                    assert(self.to_dist@[node_id as int].1 != INFINITY);
                    lemma_scal_sat_add(candidate.costs@, self.to_dist@[node_id as int].0@, alpha@);
                    reveal(walk_to);
                    reveal(walk_from);
                    let w1 = choose|w1: Seq<usize>|
                        is_walk(g.edges@, self.source_node, node_id, w1) && #[trigger] walk_scal(
                            g.edges@,
                            w1,
                            alpha@,
                        ) == self.to_dist@[node_id as int].1 as int;
                    let w2 = choose|w2: Seq<usize>|
                        is_walk(g.edges@, node_id, self.target_node, w2) && #[trigger] walk_scal(
                            g.edges@,
                            w2,
                            alpha@,
                        ) == candidate.total_cost as int;
                    lemma_is_walk_concat(
                        g.edges@,
                        self.source_node,
                        node_id,
                        self.target_node,
                        w1,
                        w2,
                    );
                    lemma_walk_scal_concat(g.edges@, w1, w2, alpha@);
                    assert(walk_scal(g.edges@, w1 + w2, alpha@) == merged_cost as int);
                    if seed_case && merged_cost == 0 {
                        assert(self.to_dist@[node_id as int].1 == 0);
                        assert(node_id == old(self).source_node);
                        assert(candidate.costs@ == zero_seq(COST_DIMENSION as nat));
                        assert(merged_cost_vector@ =~= zero_seq(COST_DIMENSION as nat));
                    }
                }
                self.best_node = (Some(node_id), merged_cost_vector, merged_cost);
            }
            let half_edges = g.get_ch_edges_in(node_id);
            proof {
                assert forall|n: int|
                    0 <= n < self.from_dist@.len() implies #[trigger] relaxed_or_kept(
                    *g,
                    candidate,
                    alpha@,
                    old(self).from_dist@,
                    self.from_dist@,
                    old(self).successive@,
                    self.successive@,
                    n,
                    false,
                ) by {}
                assert forall|n: int|
                    0 <= n < self.to_dist@.len() && (#[trigger] self.to_dist@[n]).1
                        != INFINITY implies (fwd_witness(self.candidates@, self.to_dist@, n)
                    || node_relaxed(*g, self.to_dist@, alpha@, n)) by {
                    assert(candidate.direction != Direction::Forward);
                }
            }
            let ghost mid = *self;
            let mut idx: usize = 0;
            while idx < half_edges.len()
                invariant
                    g.wf(),
                    alpha@.len() == COST_DIMENSION,
                    idx <= half_edges@.len(),
                    self.inv(*g, alpha@),
                    self.source_node == old(self).source_node,
                    self.target_node == old(self).target_node,
                    self.best_node == mid.best_node,
                    state_ok(*g, self.source_node, self.target_node, alpha@, candidate),
                    candidate.node_id == node_id,
                    candidate.total_cost == total_cost,
                    candidate.direction == Direction::Backward,
                    forall|k: int|
                        0 <= k < half_edges@.len() ==> half_edge_in_ok(
                            g.edges@,
                            node_id,
                            #[trigger] half_edges@[k],
                        ),
                    self.candidates@.len() >= old(self).candidates@.len(),
                    forall|i: int|
                        0 <= i < old(self).candidates@.len() ==> self.candidates@[i]
                            == #[trigger] old(self).candidates@[i],
                    sum_dists(self.to_dist@) + sum_dists(self.from_dist@) + self.candidates@.len()
                        <= sum_dists(old(self).to_dist@) + sum_dists(old(self).from_dist@)
                        + old(self).candidates@.len(),
                    seed_case == (old(self).source_node == old(self).target_node
                        && positive_costs(g.edges@, alpha@) && old(self).seed_inv(*g, alpha@)),
                    seed_case ==> self.seed_inv(*g, alpha@),
                    self.to_dist@ == old(self).to_dist@,
                    self.previous@ == old(self).previous@,
                    total_cost <= self.from_dist@[node_id as int].1,
                    forall|n: int|
                        0 <= n < self.from_dist@.len() ==> (#[trigger] self.from_dist@[n]).1 <= old(
                            self,
                        ).from_dist@[n].1,
                    forall|n: int|
                        0 <= n < self.from_dist@.len() ==> #[trigger] relaxed_or_kept(
                            *g,
                            candidate,
                            alpha@,
                            old(self).from_dist@,
                            self.from_dist@,
                            old(self).successive@,
                            self.successive@,
                            n,
                            false,
                        ),
                    forall|i: int|
                        old(self).candidates@.len() <= i < self.candidates@.len() ==> relaxed_from(
                            *g,
                            candidate,
                            alpha@,
                            #[trigger] self.candidates@[i],
                        ),
                    forall|k: int|
                        0 <= k < idx ==> self.from_dist@[(#[trigger] half_edges@[
                        k
                    ]).target_id as int].1 as int <= clip(
                        total_cost + scal(half_edges@[k].edge_costs@, alpha@),
                    ),
                    fwd_progress(*g, self.candidates@, self.to_dist@, alpha@),
                    best_bound(
                        self.best_node.2,
                        self.candidates@,
                        self.to_dist@,
                        self.target_node,
                    ),
                decreases half_edges@.len() - idx,
            {
                let he = &half_edges[idx];
                let ghost q0 = self.candidates@;
                let ghost d0 = self.from_dist@;
                let ghost p0 = self.successive@;
                proof {
                    assert(half_edge_in_ok(g.edges@, node_id, half_edges@[idx as int]));
                    assert(edge_ok(g.edges@, g.node_count as int, he.edge_id as int));
                }
                let edge_scal = he.calc_costs(alpha);
                let new_total = sat_add(total_cost, edge_scal);
                if new_total < self.from_dist[he.target_id].1 {
                    let new_costs = add_edge_costs(&candidate.costs, &he.edge_costs);
                    let state_costs = add_edge_costs(&candidate.costs, &he.edge_costs);
                    proof {
                        lemma_scal_sat_add(candidate.costs@, he.edge_costs@, alpha@);
                        lemma_connected_prepend(g.edges@, he.edge_id as int, self.target_node);
                        lemma_sum_dists_update(
                            self.from_dist@,
                            he.target_id as int,
                            (new_costs, new_total),
                        );
                        reveal(walk_from);
                        let w0 = choose|w0: Seq<usize>|
                            is_walk(g.edges@, candidate.node_id, self.target_node, w0)
                                && #[trigger] walk_scal(g.edges@, w0, alpha@)
                                == candidate.total_cost as int;
                        let w1 = seq![he.edge_id] + w0;
                        assert(w1[0] == he.edge_id);
                        assert(w1.drop_first() =~= w0);
                        assert(is_walk(g.edges@, he.target_id, self.target_node, w1));
                        crate::costs::lemma_dot_nonneg(
                            g.edges@[he.edge_id as int].edge_costs@,
                            alpha@,
                        );
                        lemma_walk_scal_nonneg(g.edges@, w0, alpha@);
                        assert(walk_scal(g.edges@, w1, alpha@) == clip(
                            scal(g.edges@[he.edge_id as int].edge_costs@, alpha@)
                                + candidate.total_cost,
                        ));
                        assert(walk_scal(g.edges@, w1, alpha@) == new_total as int);
                        assert(walk_from(
                            g.edges@,
                            he.target_id,
                            self.target_node,
                            new_total as int,
                            alpha@,
                        ));
                        if seed_case {
                            assert(scal(g.edges@[he.edge_id as int].edge_costs@, alpha@) > 0);
                            assert(new_total > 0);
                            assert(he.target_id != self.source_node);
                        }
                    }
                    self.from_dist[he.target_id] = (new_costs, new_total);
                    self.successive[he.target_id] = Some((node_id, he.edge_id));
                    self.candidates.push(
                        State {
                            node_id: he.target_id,
                            costs: state_costs,
                            total_cost: new_total,
                            direction: Direction::Backward,
                        },
                    );
                    proof {
                        let v = he.target_id as int;
                        let last = self.candidates@.len() - 1;
                        let j = he.edge_id as int;
                        assert(g.edges@[j].target_id == candidate.node_id);
                        assert(g.edges@[j].source_id == he.target_id);
                        assert(g.edges@[j].edge_costs@ == he.edge_costs@);
                        assert(relaxed_from(*g, candidate, alpha@, self.candidates@[last]));
                        assert forall|i2: int|
                            old(self).candidates@.len() <= i2
                                < self.candidates@.len() implies relaxed_from(
                            *g,
                            candidate,
                            alpha@,
                            #[trigger] self.candidates@[i2],
                        ) by {
                            if i2 < self.candidates@.len() - 1 {
                                assert(self.candidates@[i2] == q0[i2]);
                            }
                        }
                        assert(self.successive@[v] == Some((candidate.node_id, he.edge_id)));
                        assert(relaxed_or_kept(
                            *g,
                            candidate,
                            alpha@,
                            old(self).from_dist@,
                            self.from_dist@,
                            old(self).successive@,
                            self.successive@,
                            v,
                            false,
                        ));
                        assert forall|n: int|
                            0 <= n < self.from_dist@.len() implies #[trigger] relaxed_or_kept(
                            *g,
                            candidate,
                            alpha@,
                            old(self).from_dist@,
                            self.from_dist@,
                            old(self).successive@,
                            self.successive@,
                            n,
                            false,
                        ) by {
                            if n != v {
                                assert(self.from_dist@[n] == d0[n]);
                                assert(self.successive@[n] == p0[n]);
                                assert(relaxed_or_kept(
                                    *g,
                                    candidate,
                                    alpha@,
                                    old(self).from_dist@,
                                    d0,
                                    old(self).successive@,
                                    p0,
                                    n,
                                    false,
                                ));
                                if !(d0[n] == old(self).from_dist@[n] && p0[n] == old(
                                    self,
                                ).successive@[n]) {
                                    let j2 = choose|j2: int|
                                        0 <= j2 < g.edges@.len() && (#[trigger] g.edges@[
                                            j2
                                        ]).target_id == candidate.node_id && g.edges@[
                                            j2
                                        ].source_id == n as usize && d0[n].0@ == sat_add_seq(
                                            candidate.costs@,
                                            g.edges@[j2].edge_costs@,
                                        ) && d0[n].1 as int == clip(
                                            candidate.total_cost as int + scal(
                                                g.edges@[j2].edge_costs@,
                                                alpha@,
                                            ),
                                        ) && d0[n].1 < old(self).from_dist@[n].1 && p0[n] == Some(
                                            (candidate.node_id, j2 as usize),
                                        );
                                    assert(g.edges@[j2].target_id == candidate.node_id
                                        && g.edges@[j2].source_id == n as usize
                                        && self.from_dist@[n].0@ == sat_add_seq(
                                        candidate.costs@,
                                        g.edges@[j2].edge_costs@,
                                    ) && self.from_dist@[n].1 as int == clip(
                                        candidate.total_cost as int + scal(
                                            g.edges@[j2].edge_costs@,
                                            alpha@,
                                        ),
                                    ) && self.from_dist@[n].1 < old(self).from_dist@[n].1
                                        && self.successive@[n] == Some(
                                        (candidate.node_id, j2 as usize),
                                    ));
                                }
                            }
                        }
                        assert forall|k: int|
                            0 <= k < idx + 1 implies self.from_dist@[(#[trigger] half_edges@[
                            k
                        ]).target_id as int].1 as int <= clip(
                            total_cost + scal(half_edges@[k].edge_costs@, alpha@),
                        ) by {
                            assert(half_edge_in_ok(g.edges@, node_id, half_edges@[k]));
                            assert(edge_ok(
                                g.edges@,
                                g.node_count as int,
                                half_edges@[k].edge_id as int,
                            ));
                            let m = half_edges@[k].target_id as int;
                            if k < idx {
                                assert(d0[m].1 as int <= clip(
                                    total_cost + scal(half_edges@[k].edge_costs@, alpha@),
                                ));
                                assert(self.from_dist@[m].1 <= d0[m].1);
                            } else {
                                assert(self.from_dist@[v].1 == new_total);
                            }
                        }
                        assert forall|n: int|
                            0 <= n < self.to_dist@.len() && (#[trigger] self.to_dist@[n]).1
                                != INFINITY implies (fwd_witness(
                            self.candidates@,
                            self.to_dist@,
                            n,
                        ) || node_relaxed(*g, self.to_dist@, alpha@, n)) by {
                            if fwd_witness(q0, self.to_dist@, n) {
                                let w = choose|w: int|
                                    0 <= w < q0.len() && (#[trigger] q0[w]).direction
                                        == Direction::Forward && q0[w].node_id == n
                                        && q0[w].total_cost == self.to_dist@[n].1;
                                assert(self.candidates@[w] == q0[w]);
                                assert(fwd_witness(self.candidates@, self.to_dist@, n));
                            }
                        }
                        if fwd_witness(q0, self.to_dist@, self.target_node as int) {
                            let w = choose|w: int|
                                0 <= w < q0.len() && (#[trigger] q0[w]).direction
                                    == Direction::Forward && q0[w].node_id == self.target_node
                                    && q0[w].total_cost
                                    == self.to_dist@[self.target_node as int].1;
                            assert(self.candidates@[w] == q0[w]);
                            assert(fwd_witness(
                                self.candidates@,
                                self.to_dist@,
                                self.target_node as int,
                            ));
                        }
                    }
                } else {
                    proof {
                        assert(self.from_dist@[he.target_id as int].1 <= new_total);
                        assert(new_total as int == clip(
                            total_cost + scal(half_edges@[idx as int].edge_costs@, alpha@),
                        ));
                    }
                }
                idx = idx + 1;
            }
        }
    }
}


/// A walk's accumulated scalarized cost is a clipped non-negative value.
proof fn lemma_walk_scal_nonneg(edges: Seq<Edge>, p: Seq<usize>, alpha: Seq<u64>)
    ensures
        0 <= walk_scal(edges, p, alpha) <= u64::MAX as int,
    decreases p.len(),
{
    if p.len() > 0 {
        crate::costs::lemma_dot_nonneg(edges[p[0] as int].edge_costs@, alpha);
        lemma_walk_scal_nonneg(edges, p.drop_first(), alpha);
    }
}

/// On a fully relaxed forward distance array, the distance of a walk's
/// end is bounded by the bound on its start plus the walk's accumulated
/// scalarized cost.
proof fn lemma_relaxed_walk_bound(
    g: Graph,
    d: Seq<(Vec<u64>, u64)>,
    alpha: Seq<u64>,
    s: usize,
    t: usize,
    p: Seq<usize>,
    b: int,
)
    requires
        g.wf(),
        d.len() == g.node_count,
        forall|n: int|
            0 <= n < d.len() && (#[trigger] d[n]).1 != INFINITY ==> node_relaxed(g, d, alpha, n),
        is_walk(g.edges@, s, t, p),
        s < g.node_count,
        d[s as int].1 as int <= b,
        0 <= b < u64::MAX as int,
    ensures
        d[t as int].1 as int <= clip(b + walk_scal(g.edges@, p, alpha)),
    decreases p.len(),
{
    lemma_walk_scal_nonneg(g.edges@, p, alpha);
    if p.len() > 0 {
        let j = p[0] as int;
        assert(edge_ok(g.edges@, g.node_count as int, j));
        let u = g.edges@[j].target_id;
        let w = scal(g.edges@[j].edge_costs@, alpha);
        crate::costs::lemma_dot_nonneg(g.edges@[j].edge_costs@, alpha);
        assert(d[s as int].1 != INFINITY);
        assert(node_relaxed(g, d, alpha, s as int));
        assert(d[u as int].1 as int <= clip(d[s as int].1 + w));
        let rest = walk_scal(g.edges@, p.drop_first(), alpha);
        lemma_walk_scal_nonneg(g.edges@, p.drop_first(), alpha);
        let b2 = clip(b + w);
        if b2 < u64::MAX as int {
            assert(d[u as int].1 as int <= b2);
            lemma_relaxed_walk_bound(g, d, alpha, u, t, p.drop_first(), b2);
            crate::costs::lemma_clip_add(b + w, rest);
            crate::costs::lemma_clip_add(b, w + rest);
            assert(clip(b2 + rest) == clip(b + w + rest));
            assert(clip(b + walk_scal(g.edges@, p, alpha)) == clip(b + w + rest));
        } else {
            assert(b + w >= u64::MAX as int);
            assert(walk_scal(g.edges@, p, alpha) == clip(w + rest));
            assert(clip(b + walk_scal(g.edges@, p, alpha)) == u64::MAX as int);
        }
    }
}

/// Edge ids along the predecessor chain from `n` back to its root, in
/// travel order (the root's edge first), following at most `fuel`
/// links.
pub open spec fn prev_chain(p: Seq<Option<(usize, usize)>>, n: int, fuel: nat) -> Seq<usize>
    decreases fuel,
{
    if fuel == 0 {
        Seq::empty()
    } else {
        match p[n] {
            None => Seq::empty(),
            Some(pr) => prev_chain(p, pr.0 as int, (fuel - 1) as nat).push(pr.1),
        }
    }
}

/// Edge ids along the successor chain from `n` forward to its root, in
/// travel order (the edge leaving `n` first), following at most `fuel`
/// links.
pub open spec fn succ_chain(p: Seq<Option<(usize, usize)>>, n: int, fuel: nat) -> Seq<usize>
    decreases fuel,
{
    if fuel == 0 {
        Seq::empty()
    } else {
        match p[n] {
            None => Seq::empty(),
            Some(pr) => seq![pr.1] + succ_chain(p, pr.0 as int, (fuel - 1) as nat),
        }
    }
}

/// Fresh copy of a cost vector.
fn clone_costs(v: &Vec<u64>) -> (r: Vec<u64>)
    ensures
        r@ == v@,
{
    let mut r: Vec<u64> = Vec::new();
    let mut i: usize = 0;
    while i < v.len()
        invariant
            i <= v@.len(),
            r@ == v@.take(i as int),
        decreases v@.len() - i,
    {
        r.push(v[i]);
        proof {
            assert(v@.take(i + 1) =~= v@.take(i as int).push(v@[i as int]));
        }
        i = i + 1;
    }
    proof {
        assert(v@.take(v@.len() as int) =~= v@);
    }
    r
}

impl Dijkstra {
    /// Rebuild the shortcut-edge path through the given meeting node and
    /// unpack it into original edges: walk the forward predecessor chain
    /// back to the source, reverse it, append the backward successor
    /// chain, and expand every shortcut. Each walk carries a step budget
    /// of one per node as a guard against a malformed chain.
    fn construct_path(&self, g: &Graph, node_id: usize) -> (r: Vec<usize>)
        requires
            g.wf(),
            node_id < g.node_count,
            prev_ok(*g, self.previous@),
            succ_ok(*g, self.successive@),
        ensures
            r@ == expand_path(
                g.edges@,
                prev_chain(self.previous@, node_id as int, g.node_count as nat) + succ_chain(
                    self.successive@,
                    node_id as int,
                    g.node_count as nat,
                ),
            ),
            forall|k: int|
                0 <= k < r@.len() ==> (#[trigger] r@[k]) < g.edges@.len() && g.edges@[r@[
                    k
                ] as int].repl_edge_1 == -1,
            (self.previous@[node_id as int] is None && self.successive@[node_id as int] is None)
                ==> r@.len() == 0,
    {
        let ghost fuel0 = g.node_count as nat;
        let mut chain: Vec<usize> = Vec::new();
        let mut node_and_edge = self.previous[node_id];
        let mut steps: usize = g.node_count;
        let ghost mut cur: int = node_id as int;
        while steps > 0 && node_and_edge.is_some()
            invariant
                g.wf(),
                prev_ok(*g, self.previous@),
                0 <= cur < g.node_count,
                node_and_edge == self.previous@[cur],
                node_and_edge matches Some(pr) ==> pr.0 < g.node_count && pr.1 < g.edges@.len(),
                forall|k: int| 0 <= k < chain@.len() ==> (#[trigger] chain@[k]) < g.edges@.len(),
                prev_chain(self.previous@, node_id as int, fuel0) == prev_chain(
                    self.previous@,
                    cur,
                    steps as nat,
                ) + chain@.reverse(),
                self.previous@[node_id as int] is None ==> chain@.len() == 0
                    && node_and_edge is None,
            decreases steps,
        {
            let (current_node_id, edge_id) = node_and_edge.unwrap();
            let ghost chain0 = chain@;
            let ghost steps0 = steps as nat;
            let ghost cur0 = cur;
            node_and_edge = self.previous[current_node_id];
            chain.push(edge_id);
            steps = steps - 1;
            proof {
                cur = current_node_id as int;
                assert(self.previous@[cur0] == Some((current_node_id, edge_id)));
                assert(prev_chain(self.previous@, cur0, steps0) == prev_chain(
                    self.previous@,
                    cur,
                    (steps0 - 1) as nat,
                ).push(edge_id));
                assert(chain@.reverse() =~= seq![edge_id] + chain0.reverse());
                assert(prev_chain(self.previous@, cur, (steps0 - 1) as nat).push(edge_id)
                    + chain0.reverse() =~= prev_chain(self.previous@, cur, (steps0 - 1) as nat)
                    + chain@.reverse());
            }
        }
        proof {
            assert(prev_chain(self.previous@, cur, steps as nat) == Seq::<usize>::empty());
            assert(prev_chain(self.previous@, node_id as int, fuel0) =~= chain@.reverse());
        }
        let mut path: Vec<usize> = Vec::new();
        let mut i: usize = chain.len();
        while i > 0
            invariant
                i <= chain@.len(),
                forall|k: int| 0 <= k < chain@.len() ==> (#[trigger] chain@[k]) < g.edges@.len(),
                path@.len() == chain@.len() - i,
                path@ == chain@.reverse().take(chain@.len() - i),
                forall|k: int| 0 <= k < path@.len() ==> (#[trigger] path@[k]) < g.edges@.len(),
            decreases i,
        {
            i = i - 1;
            path.push(chain[i]);
            proof {
                assert(chain@.reverse()[chain@.len() - 1 - i] == chain@[i as int]);
                assert(path@ =~= chain@.reverse().take(chain@.len() - i));
            }
        }
        proof {
            assert(chain@.reverse().take(chain@.len() as int) =~= chain@.reverse());
            assert(path@ == prev_chain(self.previous@, node_id as int, fuel0));
        }
        let mut node_and_edge_back = self.successive[node_id];
        let mut steps_back: usize = g.node_count;
        let ghost mut cur_back: int = node_id as int;
        while steps_back > 0 && node_and_edge_back.is_some()
            invariant
                g.wf(),
                succ_ok(*g, self.successive@),
                0 <= cur_back < g.node_count,
                node_and_edge_back == self.successive@[cur_back],
                node_and_edge_back matches Some(pr) ==> pr.0 < g.node_count && pr.1
                    < g.edges@.len(),
                forall|k: int| 0 <= k < path@.len() ==> (#[trigger] path@[k]) < g.edges@.len(),
                prev_chain(self.previous@, node_id as int, fuel0) + succ_chain(
                    self.successive@,
                    node_id as int,
                    fuel0,
                ) == path@ + succ_chain(self.successive@, cur_back, steps_back as nat),
                (self.previous@[node_id as int] is None && self.successive@[node_id as int]
                    is None) ==> path@.len() == 0 && node_and_edge_back is None,
            decreases steps_back,
        {
            let (current_node_id, edge_id) = node_and_edge_back.unwrap();
            let ghost path0 = path@;
            let ghost steps0 = steps_back as nat;
            let ghost cur0 = cur_back;
            node_and_edge_back = self.successive[current_node_id];
            path.push(edge_id);
            steps_back = steps_back - 1;
            proof {
                cur_back = current_node_id as int;
                assert(self.successive@[cur0] == Some((current_node_id, edge_id)));
                assert(succ_chain(self.successive@, cur0, steps0) == seq![edge_id] + succ_chain(
                    self.successive@,
                    cur_back,
                    (steps0 - 1) as nat,
                ));
                assert(path0 + succ_chain(self.successive@, cur0, steps0) =~= path@ + succ_chain(
                    self.successive@,
                    cur_back,
                    (steps0 - 1) as nat,
                ));
            }
        }
        proof {
            assert(succ_chain(self.successive@, cur_back, steps_back as nat)
                == Seq::<usize>::empty());
            assert(prev_chain(self.previous@, node_id as int, fuel0) + succ_chain(
                self.successive@,
                node_id as int,
                fuel0,
            ) =~= path@);
        }
        let edge_count = g.edges.len();
        let unpacked = g.unwrap_edges(path, self.source_node);
        proof {
            assert(g.edges@.len() == edge_count);
            lemma_expand_path_original(g.edges@, g.node_count as int, path@);
        }
        unpacked
    }

    /// Run the bidirectional search from `source` to `target` under the
    /// weight vector `alpha` and return the unpacked original-edge path
    /// together with its total cost vector and the matching scalar cost,
    /// or nothing when the two searches never meet.
    ///
    /// The returned scalar always equals the scalarization of the
    /// returned vector; a result is only ever returned at a node
    /// reachable forward from the source and backward from the target;
    /// whenever any walk of finite scalarized cost connects source to
    /// target, a result is returned; and when source and target coincide
    /// on a graph whose edges all carry positive scalarized cost, the
    /// result is the empty path with zero cost.
    #[verifier::rlimit(100)]
    pub fn find_shortest_path(
        &mut self,
        g: &Graph,
        source: usize,
        target: usize,
        alpha: &Vec<u64>,
    ) -> (r: Option<(Vec<usize>, Vec<u64>, u64)>)
        requires
            g.wf(),
            alpha@.len() == COST_DIMENSION,
            source < g.node_count,
            target < g.node_count,
        ensures
            r matches Some(p) ==> {
                &&& p.1@.len() == COST_DIMENSION
                &&& p.2 < INFINITY
                &&& p.2 as int == scal(p.1@, alpha@)
                &&& exists|m: usize|
                    m < g.node_count && connected(g.edges@, source, m) && connected(
                        g.edges@,
                        m,
                        target,
                    )
                &&& forall|k: int|
                    0 <= k < p.0@.len() ==> (#[trigger] p.0@[k]) < g.edges@.len() && g.edges@[p.0@[
                        k
                    ] as int].repl_edge_1 == -1
            },
            (source == target && positive_costs(g.edges@, alpha@)) ==> (r matches Some(p)
                && p.0@.len() == 0 && p.1@ == zero_seq(COST_DIMENSION as nat) && p.2 == 0),
            (exists|p: Seq<usize>|
                is_walk(g.edges@, source, target, p) && walk_scal(g.edges@, p, alpha@)
                    < INFINITY) ==> r is Some,
            r matches Some(p) ==> forall|q: Seq<usize>|
                is_walk(g.edges@, source, target, q) ==> p.2 as int <= #[trigger] walk_scal(
                    g.edges@,
                    q,
                    alpha@,
                ),
            r matches Some(p) ==> exists|q: Seq<usize>|
                is_walk(g.edges@, source, target, q) && #[trigger] walk_scal(g.edges@, q, alpha@)
                    == p.2 as int,
            r matches Some(p) ==> (final(self).best_node.0 matches Some(m) && p.0@ == expand_path(
                g.edges@,
                prev_chain(final(self).previous@, m as int, g.node_count as nat) + succ_chain(
                    final(self).successive@,
                    m as int,
                    g.node_count as nat,
                ),
            ) && p.1@ == final(self).best_node.1@ && p.2 == final(self).best_node.2),
            r is None <==> final(self).best_node.0 is None,
    {
        self.init_query(g, source, target, Ghost(alpha@));
        let ghost seed_case = source == target && positive_costs(g.edges@, alpha@);
        while self.candidates.len() > 0
            invariant
                g.wf(),
                alpha@.len() == COST_DIMENSION,
                source < g.node_count,
                target < g.node_count,
                self.inv(*g, alpha@),
                self.source_node == source,
                self.target_node == target,
                seed_case == (source == target && positive_costs(g.edges@, alpha@)),
                seed_case ==> self.seed_inv(*g, alpha@) && (has_seed(self.candidates@, source)
                    || self.best_node.2 == 0),
                fwd_progress(*g, self.candidates@, self.to_dist@, alpha@),
                best_bound(self.best_node.2, self.candidates@, self.to_dist@, target),
            decreases sum_dists(self.to_dist@) + sum_dists(self.from_dist@)
                + self.candidates@.len(),
        {
            proof {
                lemma_sum_dists_nonneg(self.to_dist@);
                lemma_sum_dists_nonneg(self.from_dist@);
            }
            let ghost q0 = self.candidates@;
            let popped = pop_min(&mut self.candidates);
            match popped {
                None => {
                    proof {
                        assert(false);
                    }
                },
                Some(candidate) => {
                    let ghost i = choose|i: int|
                        0 <= i < q0.len() && candidate == q0[i] && self.candidates@ == q0.remove(i);
                    proof {
                        assert forall|k: int|
                            0 <= k < self.candidates@.len() implies state_ok(
                            *g,
                            source,
                            target,
                            alpha@,
                            #[trigger] self.candidates@[k],
                        ) by {
                            if k < i {
                                assert(self.candidates@[k] == q0[k]);
                            } else {
                                assert(self.candidates@[k] == q0[k + 1]);
                            }
                        }
                        if seed_case {
                            assert forall|k: int|
                                0 <= k < self.candidates@.len() && (#[trigger] self.candidates@[
                                    k
                                ]).total_cost == 0 implies is_seed(
                                self.candidates@[k],
                                self.source_node,
                            ) by {
                                if k < i {
                                    assert(self.candidates@[k] == q0[k]);
                                } else {
                                    assert(self.candidates@[k] == q0[k + 1]);
                                }
                            }
                        }
                    }
                    proof {
                        assert forall|n: int|
                            0 <= n < self.to_dist@.len() && (#[trigger] self.to_dist@[n]).1
                                != INFINITY implies (fwd_witness(
                            self.candidates@,
                            self.to_dist@,
                            n,
                        ) || node_relaxed(*g, self.to_dist@, alpha@, n) || (candidate.direction
                            == Direction::Forward && candidate.node_id == n
                            && candidate.total_cost == self.to_dist@[n].1)) by {
                            if fwd_witness(q0, self.to_dist@, n) {
                                let w = choose|w: int|
                                    0 <= w < q0.len() && (#[trigger] q0[w]).direction
                                        == Direction::Forward && q0[w].node_id == n
                                        && q0[w].total_cost == self.to_dist@[n].1;
                                if q0[w] == candidate {
                                } else {
                                    assert(w != i);
                                    if w < i {
                                        assert(self.candidates@[w] == q0[w]);
                                    } else {
                                        assert(self.candidates@[w - 1] == q0[w]);
                                    }
                                    assert(fwd_witness(self.candidates@, self.to_dist@, n));
                                }
                            }
                        }
                        if !(self.best_node.2 <= self.to_dist@[target as int].1) && fwd_witness(
                            q0,
                            self.to_dist@,
                            target as int,
                        ) {
                            let w = choose|w: int|
                                0 <= w < q0.len() && (#[trigger] q0[w]).direction
                                    == Direction::Forward && q0[w].node_id == target
                                    && q0[w].total_cost == self.to_dist@[target as int].1;
                            if q0[w] == candidate {
                            } else {
                                assert(w != i);
                                if w < i {
                                    assert(self.candidates@[w] == q0[w]);
                                } else {
                                    assert(self.candidates@[w - 1] == q0[w]);
                                }
                                assert(fwd_witness(
                                    self.candidates@,
                                    self.to_dist@,
                                    target as int,
                                ));
                            }
                        }
                    }
                    let ghost q1 = self.candidates@;
                    let ghost best1 = self.best_node;
                    self.process_state(g, candidate, alpha);
                    proof {
                        if seed_case && self.best_node.2 != 0 {
                            assert(!is_seed(candidate, source));
                            assert(best1.2 != 0);
                            let w = choose|w: int| 0 <= w < q0.len() && is_seed(#[trigger] q0[w], source);
                            assert(q0[i] == candidate);
                            assert(w != i);
                            if w < i {
                                assert(q1[w] == q0[w]);
                                assert(is_seed(self.candidates@[w], source));
                            } else {
                                assert(q1[w - 1] == q0[w]);
                                assert(is_seed(self.candidates@[w - 1], source));
                            }
                            assert(has_seed(self.candidates@, source));
                        }
                        lemma_sum_dists_nonneg(self.to_dist@);
                        lemma_sum_dists_nonneg(self.from_dist@);
                    }
                },
            }
        }
        proof {
            assert forall|n: int|
                0 <= n < self.to_dist@.len() && (#[trigger] self.to_dist@[n]).1
                    != INFINITY implies node_relaxed(*g, self.to_dist@, alpha@, n) by {
                assert(!fwd_witness(self.candidates@, self.to_dist@, n));
            }
            assert(!fwd_witness(self.candidates@, self.to_dist@, target as int));
            assert(self.best_node.2 <= self.to_dist@[target as int].1);
            assert forall|q: Seq<usize>|
                is_walk(g.edges@, source, target, q) implies self.best_node.2 as int
                <= walk_scal(g.edges@, q, alpha@) by {
                lemma_walk_scal_nonneg(g.edges@, q, alpha@);
                lemma_relaxed_walk_bound(*g, self.to_dist@, alpha@, source, target, q, 0);
            }
            if exists|p: Seq<usize>|
                is_walk(g.edges@, source, target, p) && walk_scal(g.edges@, p, alpha@)
                    < INFINITY {
                let p = choose|p: Seq<usize>|
                    is_walk(g.edges@, source, target, p) && walk_scal(g.edges@, p, alpha@)
                        < INFINITY;
                assert(self.best_node.2 as int <= walk_scal(g.edges@, p, alpha@));
                assert(self.best_node.2 < INFINITY);
                assert(self.best_node.0 is Some);
            }
        }
        let best_id = self.best_node.0;
        match best_id {
            None => None,
            Some(node_id) => {
                proof {
                    if seed_case {
                        assert(!has_seed(self.candidates@, source));
                        assert(self.best_node.2 == 0);
                        assert(node_id == source);
                        assert(self.previous@[source as int] is None);
                        assert(self.successive@[source as int] is None);
                    }
                    assert(connected(g.edges@, source, node_id));
                    assert(connected(g.edges@, node_id, target));
                }
                let path = self.construct_path(g, node_id);
                let costs = clone_costs(&self.best_node.1);
                let total = self.best_node.2;
                Some((path, costs, total))
            },
        }
    }
}


/// Why a query was rejected before initialization: an endpoint outside
/// the node range, or a weight vector of the wrong dimension.
#[derive(PartialEq, Eq, Structural, Clone, Copy, Debug)]
pub enum RouteError {
    InvalidNodeId,
    InvalidCostInput,
}

impl Dijkstra {
    /// The caller-facing entry point: reject an endpoint outside the
    /// valid node range or a weight vector of the wrong dimension as an
    /// input error before initialization; otherwise run the search. A
    /// missing route is a valid negative result, not an error.
    pub fn find_shortest_path_checked(
        &mut self,
        g: &Graph,
        source: usize,
        target: usize,
        alpha: &Vec<u64>,
    ) -> (r: Result<Option<(Vec<usize>, Vec<u64>, u64)>, RouteError>)
        requires
            g.wf(),
        ensures
            r is Err <==> (source >= g.node_count || target >= g.node_count || alpha@.len()
                != COST_DIMENSION),
            r == Err::<Option<(Vec<usize>, Vec<u64>, u64)>, RouteError>(RouteError::InvalidNodeId)
                <==> (source >= g.node_count || target >= g.node_count),
            r == Err::<Option<(Vec<usize>, Vec<u64>, u64)>, RouteError>(
                RouteError::InvalidCostInput,
            ) <==> (source < g.node_count && target < g.node_count && alpha@.len()
                != COST_DIMENSION),
            r matches Ok(o) ==> {
                &&& (o matches Some(p) ==> {
                    &&& p.1@.len() == COST_DIMENSION
                    &&& p.2 < INFINITY
                    &&& p.2 as int == scal(p.1@, alpha@)
                    &&& exists|m: usize|
                        m < g.node_count && connected(g.edges@, source, m) && connected(
                            g.edges@,
                            m,
                            target,
                        )
                    &&& forall|k: int|
                        0 <= k < p.0@.len() ==> (#[trigger] p.0@[k]) < g.edges@.len()
                            && g.edges@[p.0@[k] as int].repl_edge_1 == -1
                })
                &&& ((source == target && positive_costs(g.edges@, alpha@)) ==> (o matches Some(p)
                    && p.0@.len() == 0 && p.1@ == zero_seq(COST_DIMENSION as nat) && p.2 == 0))
                &&& ((exists|p: Seq<usize>|
                    is_walk(g.edges@, source, target, p) && walk_scal(g.edges@, p, alpha@)
                        < INFINITY) ==> o is Some)
                &&& (o matches Some(p) ==> forall|q: Seq<usize>|
                    is_walk(g.edges@, source, target, q) ==> p.2 as int <= #[trigger] walk_scal(
                        g.edges@,
                        q,
                        alpha@,
                    ))
                &&& (o matches Some(p) ==> exists|q: Seq<usize>|
                    is_walk(g.edges@, source, target, q) && #[trigger] walk_scal(
                        g.edges@,
                        q,
                        alpha@,
                    ) == p.2 as int)
                &&& (o matches Some(p) ==> (final(self).best_node.0 matches Some(m) && p.0@
                    == expand_path(
                    g.edges@,
                    prev_chain(final(self).previous@, m as int, g.node_count as nat) + succ_chain(
                        final(self).successive@,
                        m as int,
                        g.node_count as nat,
                    ),
                ) && p.1@ == final(self).best_node.1@ && p.2 == final(self).best_node.2))
                &&& (o is None <==> final(self).best_node.0 is None)
            },
    {
        if source >= g.node_count || target >= g.node_count {
            return Err(RouteError::InvalidNodeId);
        }
        if alpha.len() != COST_DIMENSION {
            return Err(RouteError::InvalidCostInput);
        }
        Ok(self.find_shortest_path(g, source, target, alpha))
    }
}

} // verus!
