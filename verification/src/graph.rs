//! The contracted graph: edges, adjacency queries, and shortcut unpacking.
//!
//! An edge either is an original edge of the network or a shortcut that
//! stands in for exactly two consecutive edges created earlier. The two
//! replaced-edge references are `-1` on an original edge and otherwise
//! point to strictly smaller edge indices, which keeps the replacement
//! relation well-founded and makes unpacking terminate.

use vstd::prelude::*;
use crate::costs::{COST_DIMENSION, clip, lemma_sat_add_seq_assoc, lemma_sat_add_seq_zero, lemma_scal_monotone, sat_add_seq, scal, zero_seq};

verus! {

/// A directed edge of the contracted graph, carrying its cost vector and
/// its two optional replaced-edge references (`-1` marks "no reference";
/// both present marks a shortcut for two consecutive edges).
pub struct Edge {
    pub source_id: usize,
    pub target_id: usize,
    pub edge_costs: Vec<u64>,
    pub repl_edge_1: isize,
    pub repl_edge_2: isize,
}

impl Edge {
    pub fn new(
        source_id: usize,
        target_id: usize,
        edge_costs: Vec<u64>,
        repl_edge_1: isize,
        repl_edge_2: isize,
    ) -> (r: Edge)
        ensures
            r.source_id == source_id,
            r.target_id == target_id,
            r.edge_costs == edge_costs,
            r.repl_edge_1 == repl_edge_1,
            r.repl_edge_2 == repl_edge_2,
    {
        Edge { source_id, target_id, edge_costs, repl_edge_1, repl_edge_2 }
    }
}

/// A compact adjacency entry used during search expansion: the neighbour
/// reached, the identifier of the traversed edge, and that edge's costs.
pub struct HalfEdge {
    pub target_id: usize,
    pub edge_id: usize,
    pub edge_costs: Vec<u64>,
}

impl HalfEdge {
    /// Scalarized cost of this adjacency entry under the query weights.
    pub fn calc_costs(&self, alpha: &Vec<u64>) -> (r: u64)
        requires
            self.edge_costs@.len() == alpha@.len(),
        ensures
            r as int == crate::costs::scal(self.edge_costs@, alpha@),
    {
        crate::costs::scalarize(&self.edge_costs, alpha)
    }
}

/// Structural soundness of one edge of an edge table: endpoints within
/// the node range, the configured cost dimension, and replaced-edge
/// references that are either both absent or both earlier edges.
pub open spec fn edge_ok(edges: Seq<Edge>, node_count: int, i: int) -> bool {
    &&& edges[i].source_id < node_count
    &&& edges[i].target_id < node_count
    &&& edges[i].edge_costs@.len() == COST_DIMENSION
    &&& ((edges[i].repl_edge_1 == -1 && edges[i].repl_edge_2 == -1) || (0
        <= edges[i].repl_edge_1 as int && (edges[i].repl_edge_1 as int) < i && 0
        <= edges[i].repl_edge_2 as int && (edges[i].repl_edge_2 as int) < i))
}

/// The contracted graph: a node count and the edge table. Adjacency is
/// answered by scanning the table; unpacking walks the replaced-edge
/// references.
pub struct Graph {
    pub node_count: usize,
    pub edges: Vec<Edge>,
}

/// The ordered sequence of original edges that one (possibly shortcut)
/// edge stands for, in travel order: a shortcut expands into the
/// expansion of its first replaced edge followed by the expansion of its
/// second, recursively. The recursion is guarded by the strict decrease
/// of the replaced-edge indices, so on a well-formed edge table it
/// follows exactly the replacement references.
pub open spec fn expand_edge(edges: Seq<Edge>, e: int) -> Seq<usize>
    decreases e,
    when e >= 0
{
    if 0 <= e < edges.len() && 0 <= edges[e].repl_edge_1 as int && (edges[e].repl_edge_1 as int)
        < e && 0 <= edges[e].repl_edge_2 as int && (edges[e].repl_edge_2 as int) < e {
        expand_edge(edges, edges[e].repl_edge_1 as int) + expand_edge(
            edges,
            edges[e].repl_edge_2 as int,
        )
    } else {
        seq![e as usize]
    }
}

/// Expansion of a whole edge-id sequence, preserving travel order.
pub open spec fn expand_path(edges: Seq<Edge>, path: Seq<usize>) -> Seq<usize>
    decreases path.len(),
{
    if path.len() == 0 {
        Seq::empty()
    } else {
        expand_path(edges, path.drop_last()) + expand_edge(edges, path.last() as int)
    }
}

/// Ids of the edges leaving `node`, in edge-table order.
pub open spec fn out_edge_ids(edges: Seq<Edge>, node: usize) -> Seq<usize>
    decreases edges.len(),
{
    if edges.len() == 0 {
        Seq::empty()
    } else {
        let rest = out_edge_ids(edges.drop_last(), node);
        if edges.last().source_id == node {
            rest.push((edges.len() - 1) as usize)
        } else {
            rest
        }
    }
}

/// Ids of the edges entering `node`, in edge-table order.
pub open spec fn in_edge_ids(edges: Seq<Edge>, node: usize) -> Seq<usize>
    decreases edges.len(),
{
    if edges.len() == 0 {
        Seq::empty()
    } else {
        let rest = in_edge_ids(edges.drop_last(), node);
        if edges.last().target_id == node {
            rest.push((edges.len() - 1) as usize)
        } else {
            rest
        }
    }
}

/// Does a half edge faithfully describe an outgoing edge of `node`?
pub open spec fn half_edge_out_ok(edges: Seq<Edge>, node: usize, h: HalfEdge) -> bool {
    &&& h.edge_id < edges.len()
    &&& edges[h.edge_id as int].source_id == node
    &&& h.target_id == edges[h.edge_id as int].target_id
    &&& h.edge_costs@ == edges[h.edge_id as int].edge_costs@
}

/// Does a half edge faithfully describe an incoming edge of `node`,
/// presented in reverse (its `target_id` is the edge's source)?
pub open spec fn half_edge_in_ok(edges: Seq<Edge>, node: usize, h: HalfEdge) -> bool {
    &&& h.edge_id < edges.len()
    &&& edges[h.edge_id as int].target_id == node
    &&& h.target_id == edges[h.edge_id as int].source_id
    &&& h.edge_costs@ == edges[h.edge_id as int].edge_costs@
}

impl Graph {
    /// Well-formedness of the whole edge table.
    pub open spec fn wf(self) -> bool {
        forall|i: int|
            0 <= i < self.edges@.len() ==> edge_ok(self.edges@, self.node_count as int, i)
    }

    /// Build a graph after validating every edge; rejects an edge table
    /// with an out-of-range endpoint, a wrong cost dimension, or
    /// replaced-edge references that are not both absent or both earlier
    /// edges.
    pub fn new(node_count: usize, edges: Vec<Edge>) -> (r: Option<Graph>)
        ensures
            r matches Some(g) ==> g.wf() && g.node_count == node_count && g.edges@ == edges@,
            r is None ==> exists|i: int|
                0 <= i < edges@.len() && !edge_ok(edges@, node_count as int, i),
    {
        let mut i: usize = 0;
        while i < edges.len()
            invariant
                i <= edges@.len(),
                forall|j: int| 0 <= j < i ==> edge_ok(edges@, node_count as int, j),
            decreases edges@.len() - i,
        {
            let e = &edges[i];
            let ok = e.source_id < node_count && e.target_id < node_count
                && e.edge_costs.len() == COST_DIMENSION && ((e.repl_edge_1 == -1 && e.repl_edge_2
                == -1) || (e.repl_edge_1 >= 0 && (e.repl_edge_1 as usize) < i && e.repl_edge_2 >= 0
                && (e.repl_edge_2 as usize) < i));
            if !ok {
                proof {
                    assert(!edge_ok(edges@, node_count as int, i as int));
                }
                return None;
            }
            i = i + 1;
        }
        Some(Graph { node_count, edges })
    }

    /// All shortcut-graph edges leaving `node_id`, in edge-table order.
    pub fn get_ch_edges_out(&self, node_id: usize) -> (r: Vec<HalfEdge>)
        requires
            self.wf(),
        ensures
            r@.map_values(|h: HalfEdge| h.edge_id) == out_edge_ids(self.edges@, node_id),
            forall|k: int| 0 <= k < r@.len() ==> half_edge_out_ok(self.edges@, node_id, r@[k]),
            forall|j: int|
                0 <= j < self.edges@.len() && self.edges@[j].source_id == node_id ==> exists|k: int|
                    0 <= k < r@.len() && r@[k].edge_id == j,
    {
        let mut r: Vec<HalfEdge> = Vec::new();
        let mut i: usize = 0;
        while i < self.edges.len()
            invariant
                i <= self.edges@.len(),
                self.wf(),
                r@.map_values(|h: HalfEdge| h.edge_id) == out_edge_ids(
                    self.edges@.take(i as int),
                    node_id,
                ),
                forall|k: int| 0 <= k < r@.len() ==> half_edge_out_ok(self.edges@, node_id, r@[k]),
                forall|j: int|
                    0 <= j < i && self.edges@[j].source_id == node_id ==> exists|k: int|
                        0 <= k < r@.len() && r@[k].edge_id == j,
            decreases self.edges@.len() - i,
        {
            let ghost r0 = r@;
            let e = &self.edges[i];
            if e.source_id == node_id {
                r.push(
                    HalfEdge {
                        target_id: e.target_id,
                        edge_id: i,
                        edge_costs: e.edge_costs.clone(),
                    },
                );
            }
            proof {
                assert(self.edges@.take(i + 1).drop_last() =~= self.edges@.take(i as int));
                assert(self.edges@.take(i + 1).last() == self.edges@[i as int]);
                assert(r@.map_values(|h: HalfEdge| h.edge_id) =~= out_edge_ids(
                    self.edges@.take(i + 1),
                    node_id,
                ));
                assert forall|j: int|
                    0 <= j < i + 1 && self.edges@[j].source_id == node_id implies exists|k: int|
                    0 <= k < r@.len() && r@[k].edge_id == j by {
                    if j < i {
                        let k = choose|k: int| 0 <= k < r0.len() && r0[k].edge_id == j;
                        assert(r@[k].edge_id == j);
                    } else {
                        assert(r@[r@.len() - 1].edge_id == j);
                    }
                }
            }
            i = i + 1;
        }
        proof {
            assert(self.edges@.take(self.edges@.len() as int) =~= self.edges@);
        }
        r
    }

    /// All shortcut-graph edges entering `node_id`, presented in reverse
    /// for the backward search, in edge-table order.
    pub fn get_ch_edges_in(&self, node_id: usize) -> (r: Vec<HalfEdge>)
        requires
            self.wf(),
        ensures
            r@.map_values(|h: HalfEdge| h.edge_id) == in_edge_ids(self.edges@, node_id),
            forall|k: int| 0 <= k < r@.len() ==> half_edge_in_ok(self.edges@, node_id, r@[k]),
            forall|j: int|
                0 <= j < self.edges@.len() && self.edges@[j].target_id == node_id ==> exists|k: int|
                    0 <= k < r@.len() && r@[k].edge_id == j,
    {
        let mut r: Vec<HalfEdge> = Vec::new();
        let mut i: usize = 0;
        while i < self.edges.len()
            invariant
                i <= self.edges@.len(),
                self.wf(),
                r@.map_values(|h: HalfEdge| h.edge_id) == in_edge_ids(
                    self.edges@.take(i as int),
                    node_id,
                ),
                forall|k: int| 0 <= k < r@.len() ==> half_edge_in_ok(self.edges@, node_id, r@[k]),
                forall|j: int|
                    0 <= j < i && self.edges@[j].target_id == node_id ==> exists|k: int|
                        0 <= k < r@.len() && r@[k].edge_id == j,
            decreases self.edges@.len() - i,
        {
            let ghost r0 = r@;
            let e = &self.edges[i];
            if e.target_id == node_id {
                r.push(
                    HalfEdge {
                        target_id: e.source_id,
                        edge_id: i,
                        edge_costs: e.edge_costs.clone(),
                    },
                );
            }
            proof {
                assert(self.edges@.take(i + 1).drop_last() =~= self.edges@.take(i as int));
                assert(self.edges@.take(i + 1).last() == self.edges@[i as int]);
                assert(r@.map_values(|h: HalfEdge| h.edge_id) =~= in_edge_ids(
                    self.edges@.take(i + 1),
                    node_id,
                ));
                assert forall|j: int|
                    0 <= j < i + 1 && self.edges@[j].target_id == node_id implies exists|k: int|
                    0 <= k < r@.len() && r@[k].edge_id == j by {
                    if j < i {
                        let k = choose|k: int| 0 <= k < r0.len() && r0[k].edge_id == j;
                        assert(r@[k].edge_id == j);
                    } else {
                        assert(r@[r@.len() - 1].edge_id == j);
                    }
                }
            }
            i = i + 1;
        }
        proof {
            assert(self.edges@.take(self.edges@.len() as int) =~= self.edges@);
        }
        r
    }

    /// Append the expansion of one edge to `out`.
    fn expand_into(&self, e: usize, out: &mut Vec<usize>)
        requires
            self.wf(),
            e < self.edges@.len(),
        ensures
            final(out)@ == old(out)@ + expand_edge(self.edges@, e as int),
        decreases e,
    {
        proof {
            assert(edge_ok(self.edges@, self.node_count as int, e as int));
        }
        let edge = &self.edges[e];
        if edge.repl_edge_1 < 0 {
            out.push(e);
            proof {
                assert(out@ =~= old(out)@ + expand_edge(self.edges@, e as int));
            }
        } else {
            let r1 = edge.repl_edge_1 as usize;
            let r2 = edge.repl_edge_2 as usize;
            self.expand_into(r1, out);
            self.expand_into(r2, out);
            proof {
                assert(out@ =~= old(out)@ + expand_edge(self.edges@, e as int));
            }
        }
    }

    /// Expand a path of (possibly shortcut) edge ids into the original
    /// edges they stand for, preserving travel order. The origin node
    /// marks the start of the walk; the expansion replays each
    /// shortcut's stored replacement order, so the result does not
    /// depend on the direction in which a segment was discovered.
    pub fn unwrap_edges(&self, path: Vec<usize>, _origin: usize) -> (r: Vec<usize>)
        requires
            self.wf(),
            forall|i: int| 0 <= i < path@.len() ==> path@[i] < self.edges@.len(),
        ensures
            r@ == expand_path(self.edges@, path@),
    {
        let mut r: Vec<usize> = Vec::new();
        let mut i: usize = 0;
        while i < path.len()
            invariant
                i <= path@.len(),
                self.wf(),
                forall|j: int| 0 <= j < path@.len() ==> path@[j] < self.edges@.len(),
                r@ == expand_path(self.edges@, path@.take(i as int)),
            decreases path@.len() - i,
        {
            self.expand_into(path[i], &mut r);
            proof {
                assert(path@.take(i + 1).drop_last() =~= path@.take(i as int));
                assert(path@.take(i + 1).last() == path@[i as int]);
            }
            i = i + 1;
        }
        proof {
            assert(path@.take(path@.len() as int) =~= path@);
        }
        r
    }
}

/// Every edge id in an expansion is a valid original (non-shortcut) edge.
pub proof fn lemma_expand_edge_original(edges: Seq<Edge>, node_count: int, e: int)
    requires
        forall|i: int| 0 <= i < edges.len() ==> edge_ok(edges, node_count, i),
        edges.len() <= usize::MAX,
        0 <= e < edges.len(),
    ensures
        forall|k: int|
            0 <= k < expand_edge(edges, e).len() ==> {
                let id = #[trigger] expand_edge(edges, e)[k];
                id < edges.len() && edges[id as int].repl_edge_1 == -1 && edges[
                    id as int
                ].repl_edge_2 == -1
            },
    decreases e,
{
    assert(edge_ok(edges, node_count, e));
    if edges[e].repl_edge_1 >= 0 {
        let r1 = edges[e].repl_edge_1 as int;
        let r2 = edges[e].repl_edge_2 as int;
        lemma_expand_edge_original(edges, node_count, r1);
        lemma_expand_edge_original(edges, node_count, r2);
        let ea = expand_edge(edges, r1);
        let eb = expand_edge(edges, r2);
        assert(expand_edge(edges, e) == ea + eb);
        assert forall|k: int| 0 <= k < expand_edge(edges, e).len() implies {
            let id = #[trigger] expand_edge(edges, e)[k];
            id < edges.len() && edges[id as int].repl_edge_1 == -1 && edges[
                id as int
            ].repl_edge_2 == -1
        } by {
            if k < ea.len() {
                assert(expand_edge(edges, e)[k] == ea[k]);
            } else {
                assert(expand_edge(edges, e)[k] == eb[k - ea.len()]);
            }
        }
    } else {
        assert(expand_edge(edges, e) == seq![e as usize]);
        assert(expand_edge(edges, e)[0] == e as usize);
    }
}

/// Every edge id in the expansion of a valid path is a valid original
/// (non-shortcut) edge.
pub proof fn lemma_expand_path_original(edges: Seq<Edge>, node_count: int, path: Seq<usize>)
    requires
        forall|i: int| 0 <= i < edges.len() ==> edge_ok(edges, node_count, i),
        edges.len() <= usize::MAX,
        forall|i: int| 0 <= i < path.len() ==> path[i] < edges.len(),
    ensures
        forall|k: int|
            0 <= k < expand_path(edges, path).len() ==> {
                let id = #[trigger] expand_path(edges, path)[k];
                id < edges.len() && edges[id as int].repl_edge_1 == -1 && edges[
                    id as int
                ].repl_edge_2 == -1
            },
    decreases path.len(),
{
    if path.len() > 0 {
        lemma_expand_path_original(edges, node_count, path.drop_last());
        lemma_expand_edge_original(edges, node_count, path.last() as int);
        let ea = expand_path(edges, path.drop_last());
        let eb = expand_edge(edges, path.last() as int);
        assert(expand_path(edges, path) == ea + eb);
        assert forall|k: int| 0 <= k < expand_path(edges, path).len() implies {
            let id = #[trigger] expand_path(edges, path)[k];
            id < edges.len() && edges[id as int].repl_edge_1 == -1 && edges[
                id as int
            ].repl_edge_2 == -1
        } by {
            if k < ea.len() {
                assert(expand_path(edges, path)[k] == ea[k]);
            } else {
                assert(expand_path(edges, path)[k] == eb[k - ea.len()]);
            }
        }
    }
}

/// A shortcut standing for the consecutive edges `(a, b)` expands into
/// exactly `[a, b]` when both are original edges, and the expansion does
/// not depend on the direction in which the shortcut was discovered:
/// `expand_edge` is a function of the edge table alone.
pub proof fn lemma_shortcut_expands_in_order(edges: Seq<Edge>, node_count: int, e: int)
    requires
        forall|i: int| 0 <= i < edges.len() ==> edge_ok(edges, node_count, i),
        0 <= e < edges.len(),
        edges[e].repl_edge_1 >= 0,
        edges[edges[e].repl_edge_1 as int].repl_edge_1 == -1,
        edges[edges[e].repl_edge_2 as int].repl_edge_1 == -1,
    ensures
        expand_edge(edges, e) == seq![
            edges[e].repl_edge_1 as usize,
            edges[e].repl_edge_2 as usize,
        ],
{
    assert(edge_ok(edges, node_count, e));
    let r1 = edges[e].repl_edge_1 as int;
    let r2 = edges[e].repl_edge_2 as int;
    assert(edge_ok(edges, node_count, r1));
    assert(edge_ok(edges, node_count, r2));
    assert(expand_edge(edges, r1) == seq![r1 as usize]);
    assert(expand_edge(edges, r2) == seq![r2 as usize]);
    assert(expand_edge(edges, e) =~= seq![r1 as usize, r2 as usize]);
}


/// Total cost vector of a sequence of edge ids: the saturating sum of
/// the stored cost vectors, accumulated in travel order.
pub open spec fn path_cost(edges: Seq<Edge>, path: Seq<usize>) -> Seq<u64>
    decreases path.len(),
{
    if path.len() == 0 {
        zero_seq(COST_DIMENSION as nat)
    } else {
        sat_add_seq(path_cost(edges, path.drop_last()), edges[path.last() as int].edge_costs@)
    }
}

/// Every shortcut costs exactly the saturating sum of the two edges it
/// replaces.
pub open spec fn shortcuts_cost_consistent(edges: Seq<Edge>) -> bool {
    forall|i: int|
        0 <= i < edges.len() && (#[trigger] edges[i]).repl_edge_1 >= 0 ==> edges[i].edge_costs@
            == sat_add_seq(
            edges[edges[i].repl_edge_1 as int].edge_costs@,
            edges[edges[i].repl_edge_2 as int].edge_costs@,
        )
}

/// A path's cost is always a vector of the configured dimension.
proof fn lemma_path_cost_len(edges: Seq<Edge>, node_count: int, path: Seq<usize>)
    requires
        forall|i: int| 0 <= i < edges.len() ==> edge_ok(edges, node_count, i),
        forall|i: int| 0 <= i < path.len() ==> path[i] < edges.len(),
    ensures
        path_cost(edges, path).len() == COST_DIMENSION,
    decreases path.len(),
{
    if path.len() > 0 {
        lemma_path_cost_len(edges, node_count, path.drop_last());
    }
}

/// The cost of a concatenation is the saturating sum of the two costs.
proof fn lemma_path_cost_concat(edges: Seq<Edge>, node_count: int, p1: Seq<usize>, p2: Seq<usize>)
    requires
        forall|i: int| 0 <= i < edges.len() ==> edge_ok(edges, node_count, i),
        forall|i: int| 0 <= i < p1.len() ==> p1[i] < edges.len(),
        forall|i: int| 0 <= i < p2.len() ==> p2[i] < edges.len(),
    ensures
        path_cost(edges, p1 + p2) == sat_add_seq(path_cost(edges, p1), path_cost(edges, p2)),
    decreases p2.len(),
{
    lemma_path_cost_len(edges, node_count, p1);
    if p2.len() == 0 {
        assert(p1 + p2 =~= p1);
        lemma_sat_add_seq_zero(path_cost(edges, p1));
        assert(zero_seq(COST_DIMENSION as nat) =~= zero_seq(path_cost(edges, p1).len()));
    } else {
        let p2h = p2.drop_last();
        assert(forall|i: int| 0 <= i < p2h.len() ==> p2h[i] < edges.len());
        lemma_path_cost_concat(edges, node_count, p1, p2h);
        lemma_path_cost_len(edges, node_count, p2h);
        assert((p1 + p2).drop_last() =~= p1 + p2h);
        assert((p1 + p2).last() == p2.last());
        let e = edges[p2.last() as int].edge_costs@;
        assert(edge_ok(edges, node_count, p2.last() as int));
        lemma_sat_add_seq_assoc(path_cost(edges, p1), path_cost(edges, p2h), e);
    }
}

/// Expanding one edge preserves its cost: on a cost-consistent table,
/// the saturating sum of the original edges a (possibly shortcut) edge
/// stands for equals that edge's own stored cost vector.
proof fn lemma_expand_edge_cost(edges: Seq<Edge>, node_count: int, e: int)
    requires
        forall|i: int| 0 <= i < edges.len() ==> edge_ok(edges, node_count, i),
        shortcuts_cost_consistent(edges),
        edges.len() <= usize::MAX,
        0 <= e < edges.len(),
    ensures
        path_cost(edges, expand_edge(edges, e)) == edges[e].edge_costs@,
    decreases e,
{
    assert(edge_ok(edges, node_count, e));
    if edges[e].repl_edge_1 >= 0 {
        let r1 = edges[e].repl_edge_1 as int;
        let r2 = edges[e].repl_edge_2 as int;
        lemma_expand_edge_cost(edges, node_count, r1);
        lemma_expand_edge_cost(edges, node_count, r2);
        lemma_expand_edge_original(edges, node_count, r1);
        lemma_expand_edge_original(edges, node_count, r2);
        lemma_path_cost_concat(edges, node_count, expand_edge(edges, r1), expand_edge(edges, r2));
        assert(expand_edge(edges, e) == expand_edge(edges, r1) + expand_edge(edges, r2));
    } else {
        assert(expand_edge(edges, e) == seq![e as usize]);
        assert(expand_edge(edges, e).drop_last() =~= Seq::<usize>::empty());
        assert(zero_seq(COST_DIMENSION as nat) =~= zero_seq(edges[e].edge_costs@.len()));
        lemma_sat_add_seq_zero(edges[e].edge_costs@);
        assert(path_cost(edges, Seq::<usize>::empty()) == zero_seq(COST_DIMENSION as nat));
        assert(expand_edge(edges, e).last() == e as usize);
        assert(path_cost(edges, expand_edge(edges, e)) == edges[e].edge_costs@);
    }
}

/// Unpacking round-trip for costs: on a cost-consistent shortcut table,
/// the saturating sum of the stored cost vectors of the unpacked
/// original edges equals the cost of the shortcut path that was
/// unpacked.
pub proof fn lemma_unpack_preserves_cost(edges: Seq<Edge>, node_count: int, path: Seq<usize>)
    requires
        forall|i: int| 0 <= i < edges.len() ==> edge_ok(edges, node_count, i),
        shortcuts_cost_consistent(edges),
        edges.len() <= usize::MAX,
        forall|i: int| 0 <= i < path.len() ==> path[i] < edges.len(),
    ensures
        path_cost(edges, expand_path(edges, path)) == path_cost(edges, path),
    decreases path.len(),
{
    if path.len() > 0 {
        let ph = path.drop_last();
        assert(forall|i: int| 0 <= i < ph.len() ==> ph[i] < edges.len());
        lemma_unpack_preserves_cost(edges, node_count, ph);
        lemma_expand_edge_cost(edges, node_count, path.last() as int);
        lemma_expand_path_original(edges, node_count, ph);
        lemma_expand_edge_original(edges, node_count, path.last() as int);
        lemma_path_cost_concat(
            edges,
            node_count,
            expand_path(edges, ph),
            expand_edge(edges, path.last() as int),
        );
        assert(expand_path(edges, path) == expand_path(edges, ph) + expand_edge(
            edges,
            path.last() as int,
        ));
    }
}

/// The edge ids of `p` form a directed walk from `s` to `t`.
pub open spec fn is_walk(edges: Seq<Edge>, s: usize, t: usize, p: Seq<usize>) -> bool
    decreases p.len(),
{
    if p.len() == 0 {
        s == t
    } else {
        p[0] < edges.len() && edges[p[0] as int].source_id == s && is_walk(
            edges,
            edges[p[0] as int].target_id,
            t,
            p.drop_first(),
        )
    }
}

/// Scalarized cost of a walk, accumulated with saturation.
pub open spec fn walk_scal(edges: Seq<Edge>, p: Seq<usize>, alpha: Seq<u64>) -> int
    decreases p.len(),
{
    if p.len() == 0 {
        0
    } else {
        clip(
            scal(edges[p[0] as int].edge_costs@, alpha) + walk_scal(edges, p.drop_first(), alpha),
        )
    }
}

/// Every shortcut stands for two consecutive edges: its first replaced
/// edge leaves the shortcut's source, its second ends at the shortcut's
/// target, and the two meet in the middle.
pub open spec fn shortcuts_link_consistent(edges: Seq<Edge>) -> bool {
    forall|i: int|
        0 <= i < edges.len() && (#[trigger] edges[i]).repl_edge_1 >= 0 ==> {
            let r1 = edges[i].repl_edge_1 as int;
            let r2 = edges[i].repl_edge_2 as int;
            edges[r1].source_id == edges[i].source_id && edges[r1].target_id == edges[
                r2
            ].source_id && edges[r2].target_id == edges[i].target_id
        }
}

/// Two walks that meet at a node concatenate into one walk.
pub proof fn lemma_is_walk_concat(edges: Seq<Edge>, s: usize, m: usize, t: usize, p1: Seq<usize>, p2: Seq<usize>)
    requires
        is_walk(edges, s, m, p1),
        is_walk(edges, m, t, p2),
    ensures
        is_walk(edges, s, t, p1 + p2),
    decreases p1.len(),
{
    if p1.len() == 0 {
        assert(p1 + p2 =~= p2);
    } else {
        lemma_is_walk_concat(edges, edges[p1[0] as int].target_id, m, t, p1.drop_first(), p2);
        assert((p1 + p2).drop_first() =~= p1.drop_first() + p2);
        assert((p1 + p2)[0] == p1[0]);
    }
}

/// Expansion distributes over concatenation of shortcut paths.
proof fn lemma_expand_path_distributes(edges: Seq<Edge>, p1: Seq<usize>, p2: Seq<usize>)
    ensures
        expand_path(edges, p1 + p2) == expand_path(edges, p1) + expand_path(edges, p2),
    decreases p2.len(),
{
    if p2.len() == 0 {
        assert(p1 + p2 =~= p1);
        assert(expand_path(edges, p1) + expand_path(edges, p2) =~= expand_path(edges, p1));
    } else {
        lemma_expand_path_distributes(edges, p1, p2.drop_last());
        assert((p1 + p2).drop_last() =~= p1 + p2.drop_last());
        assert((p1 + p2).last() == p2.last());
        assert(expand_path(edges, p1) + expand_path(edges, p2.drop_last()) + expand_edge(
            edges,
            p2.last() as int,
        ) =~= expand_path(edges, p1) + (expand_path(edges, p2.drop_last()) + expand_edge(
            edges,
            p2.last() as int,
        )));
    }
}

/// On a link-consistent table, one edge's expansion is a walk of
/// original edges between that edge's own endpoints.
proof fn lemma_expand_edge_walk(edges: Seq<Edge>, node_count: int, e: int)
    requires
        forall|i: int| 0 <= i < edges.len() ==> edge_ok(edges, node_count, i),
        shortcuts_link_consistent(edges),
        edges.len() <= usize::MAX,
        0 <= e < edges.len(),
    ensures
        is_walk(edges, edges[e].source_id, edges[e].target_id, expand_edge(edges, e)),
    decreases e,
{
    assert(edge_ok(edges, node_count, e));
    if edges[e].repl_edge_1 >= 0 {
        let r1 = edges[e].repl_edge_1 as int;
        let r2 = edges[e].repl_edge_2 as int;
        lemma_expand_edge_walk(edges, node_count, r1);
        lemma_expand_edge_walk(edges, node_count, r2);
        lemma_is_walk_concat(
            edges,
            edges[e].source_id,
            edges[r1].target_id,
            edges[e].target_id,
            expand_edge(edges, r1),
            expand_edge(edges, r2),
        );
        assert(expand_edge(edges, e) == expand_edge(edges, r1) + expand_edge(edges, r2));
    } else {
        let p = expand_edge(edges, e);
        assert(p == seq![e as usize]);
        assert(p[0] == e as usize);
        assert(p.drop_first() =~= Seq::<usize>::empty());
        assert(is_walk(edges, edges[e].target_id, edges[e].target_id, Seq::<usize>::empty()));
        assert(is_walk(edges, edges[e].source_id, edges[e].target_id, p));
    }
}

/// Unpacking preserves the walk: on a link-consistent shortcut table,
/// the expansion of a walk of (possibly shortcut) edges is a walk of
/// original edges between the same endpoints.
pub proof fn lemma_unpack_preserves_walk(
    edges: Seq<Edge>,
    node_count: int,
    s: usize,
    t: usize,
    path: Seq<usize>,
)
    requires
        forall|i: int| 0 <= i < edges.len() ==> edge_ok(edges, node_count, i),
        shortcuts_link_consistent(edges),
        edges.len() <= usize::MAX,
        is_walk(edges, s, t, path),
    ensures
        is_walk(edges, s, t, expand_path(edges, path)),
    decreases path.len(),
{
    if path.len() == 0 {
    } else {
        let e = path[0] as int;
        let m = edges[e].target_id;
        lemma_expand_edge_walk(edges, node_count, e);
        lemma_unpack_preserves_walk(edges, node_count, m, t, path.drop_first());
        assert(path =~= seq![path[0]] + path.drop_first());
        lemma_expand_path_distributes(edges, seq![path[0]], path.drop_first());
        assert(seq![path[0]].drop_last() =~= Seq::<usize>::empty());
        assert(seq![path[0]].last() == path[0]);
        assert(expand_path(edges, Seq::<usize>::empty()) == Seq::<usize>::empty());
        assert(expand_path(edges, seq![path[0]]) == expand_path(
            edges,
            seq![path[0]].drop_last(),
        ) + expand_edge(edges, e));
        assert(expand_path(edges, seq![path[0]]) =~= expand_edge(edges, e));
        lemma_is_walk_concat(
            edges,
            s,
            m,
            t,
            expand_edge(edges, e),
            expand_path(edges, path.drop_first()),
        );
        assert(expand_path(edges, path) == expand_path(
            edges,
            seq![path[0]] + path.drop_first(),
        ));
    }
}


/// Raising any weight components while lowering none never lowers the
/// scalarized cost of any fixed walk: the cost of every candidate route
/// is monotone in the weight vector.
pub proof fn lemma_walk_scal_monotone(edges: Seq<Edge>, p: Seq<usize>, w1: Seq<u64>, w2: Seq<u64>)
    requires
        w1.len() == w2.len(),
        forall|i: int| 0 <= i < w1.len() ==> w1[i] <= w2[i],
    ensures
        walk_scal(edges, p, w1) <= walk_scal(edges, p, w2),
    decreases p.len(),
{
    if p.len() > 0 {
        lemma_walk_scal_monotone(edges, p.drop_first(), w1, w2);
        lemma_scal_monotone(edges[p[0] as int].edge_costs@, w1, w2);
    }
}

} // verus!
