use vstd::prelude::*;

use crate::constants::EdgeId;
use crate::constants::NodeId;
use crate::constants::Weight;
use crate::constants::INVALID_EDGE;
use crate::constants::INVALID_NODE;
use crate::fast_graph::FastGraph;
use crate::fast_graph::FastGraphEdge;
use crate::fast_graph::FastGraphView;
use crate::edge_laws::edges_held;
use crate::edge_laws::holds_edges;
use crate::edge_laws::lemma_finish_held;
use crate::edge_laws::lemma_held_step;
use crate::edge_laws::lemma_start_held;
use crate::hierarchy_laws::keeps_ways;
use crate::hierarchy_laws::lemma_finish_ways;
use crate::hierarchy_laws::lemma_start_ways;
use crate::hierarchy_laws::lemma_ways_step;
use crate::hierarchy_laws::ways_kept;
use crate::input_graph::Edge;
use crate::input_graph::InputGraph;
use crate::node_contractor::bridges;
use crate::node_contractor::calc_relevance;
use crate::node_contractor::relevance_of;
use crate::node_queue::is_top;
use crate::node_queue::no_nodes;
use crate::node_queue::pair_le;
use crate::node_queue::queue_change_priority;
use crate::node_queue::queue_contents;
use crate::node_queue::queue_is_empty;
use crate::node_queue::queue_new;
use crate::node_queue::queue_pop;
use crate::node_queue::queue_push;
use crate::node_queue::Priority;
use crate::params::Params;
use crate::preparation_graph::has_arc_to;
use crate::node_contractor::contract_node;
use crate::node_contractor::grown;
use crate::node_contractor::handle;
use crate::params::ParamsWithOrder;
use crate::preparation_graph::lemma_disconnect_consistent;
use crate::preparation_graph::lemma_from_edges_consistent;
use crate::preparation_graph::lemma_without_contains;
use crate::preparation_graph::mirrored;
use crate::preparation_graph::Arc;
use crate::preparation_graph::ArcLists;
use crate::preparation_graph::PreparationGraph;
use crate::witness_search::WitnessSearch;
use crate::witness_search::WitnessState;

verus! {

/// The arcs of a node as edges of the prepared graph, not yet told what they replace.
pub open spec fn edges_of(node: NodeId, arcs: Seq<Arc>) -> Seq<FastGraphEdge> {
    arcs.map_values(
        |arc: Arc|
            FastGraphEdge {
                base_node: node,
                adj_node: arc.adj_node,
                weight: arc.weight,
                replaced_in_edge: INVALID_EDGE,
                replaced_out_edge: INVALID_EDGE,
            },
    )
}

/// The center nodes of the arcs.
pub open spec fn centers_of(arcs: Seq<Arc>) -> Seq<NodeId> {
    arcs.map_values(|arc: Arc| arc.center_node)
}

/// Edge `e` lies in slice `r`.
pub open spec fn in_slice(first: Seq<EdgeId>, r: int, e: int) -> bool {
    0 <= r && r + 1 < first.len() && first[r] <= e < first[r + 1]
}

/// The nodes that the edges lead to.
pub open spec fn adj_nodes(edges: Seq<FastGraphEdge>) -> Seq<NodeId> {
    edges.map_values(|edge: FastGraphEdge| edge.adj_node)
}

/// `e` is the first position from `begin` up to `end` that holds `adj`.
pub open spec fn is_first_in_slice(adjs: Seq<NodeId>, begin: int, end: int, adj: NodeId, e: int) -> bool {
    &&& begin <= e < end
    &&& adjs[e] == adj
    &&& forall|x: int| begin <= x < e ==> #[trigger] adjs[x] != adj
}

/// The first position from `begin` up to `end` that holds `adj`, where there is one.
pub open spec fn first_in_slice(adjs: Seq<NodeId>, begin: int, end: int, adj: NodeId) -> int {
    choose|e: int| is_first_in_slice(adjs, begin, end, adj, e)
}

pub proof fn lemma_first_in_slice(adjs: Seq<NodeId>, begin: int, end: int, adj: NodeId, e: int)
    requires
        is_first_in_slice(adjs, begin, end, adj, e),
    ensures
        first_in_slice(adjs, begin, end, adj) == e,
{
    let f = first_in_slice(adjs, begin, end, adj);
    assert(is_first_in_slice(adjs, begin, end, adj, f));
    if f < e {
        assert(adjs[f] != adj);
    }
    if e < f {
        assert(adjs[e] != adj);
    }
}

/// Among the first `k` slices there is one for every edge below `first[k]`.
pub proof fn lemma_slice_of(first: Seq<EdgeId>, k: int, e: int)
    requires
        0 <= k < first.len(),
        first[0] == 0,
        forall|r: int, s: int| 0 <= r <= s <= k ==> #[trigger] first[r] <= #[trigger] first[s],
        0 <= e < first[k],
    ensures
        exists|r: int| 0 <= r < k && #[trigger] in_slice(first, r, e),
    decreases k,
{
    if k == 0 {
    } else if e >= first[k - 1] {
        assert(in_slice(first, k - 1, e));
    } else {
        assert forall|r: int, s: int| 0 <= r <= s <= k - 1 implies #[trigger] first[r]
            <= #[trigger] first[s] by {}
        lemma_slice_of(first, k - 1, e);
        let r = choose|r: int| 0 <= r < k - 1 && #[trigger] in_slice(first, r, e);
        assert(in_slice(first, r, e));
    }
}

/// What the preparation has written down so far: the prepared graph as far as it is
/// built, and for each of its edges the center node of the arc it was made from.
pub struct Recorded {
    pub fast: FastGraphView,
    pub centers_fwd: Seq<NodeId>,
    pub centers_bwd: Seq<NodeId>,
}

impl Recorded {
    /// The record for a graph of `n` nodes before any node was contracted.
    pub open spec fn empty(n: usize) -> Recorded {
        Recorded {
            fast: FastGraphView {
                num_nodes: n,
                ranks: Seq::new(n as nat, |i: int| 0usize),
                edges_fwd: Seq::empty(),
                first_edge_ids_fwd: Seq::new((n + 1) as nat, |i: int| 0usize),
                edges_bwd: Seq::empty(),
                first_edge_ids_bwd: Seq::new((n + 1) as nat, |i: int| 0usize),
            },
            centers_fwd: Seq::empty(),
            centers_bwd: Seq::empty(),
        }
    }

    /// Writes down `node` with the arcs it has in `graph`, and gives it rank `rank`.
    pub open spec fn record(self, graph: ArcLists, node: NodeId, rank: int) -> Recorded {
        let fwd = self.fast.edges_fwd + edges_of(node, graph.out_arcs[node as int]);
        let bwd = self.fast.edges_bwd + edges_of(node, graph.in_arcs[node as int]);
        Recorded {
            fast: FastGraphView {
                num_nodes: self.fast.num_nodes,
                ranks: self.fast.ranks.update(node as int, rank as usize),
                edges_fwd: fwd,
                first_edge_ids_fwd: self.fast.first_edge_ids_fwd.update(rank + 1, fwd.len() as usize),
                edges_bwd: bwd,
                first_edge_ids_bwd: self.fast.first_edge_ids_bwd.update(rank + 1, bwd.len() as usize),
            },
            centers_fwd: self.centers_fwd + centers_of(graph.out_arcs[node as int]),
            centers_bwd: self.centers_bwd + centers_of(graph.in_arcs[node as int]),
        }
    }

    /// The edge of `node` that leads to `adj`: the first one in the slice of the node.
    pub open spec fn out_edge_id(self, node: NodeId, adj: NodeId) -> int {
        let rank = self.fast.ranks[node as int] as int;
        first_in_slice(
            adj_nodes(self.fast.edges_fwd),
            self.fast.first_edge_ids_fwd[rank] as int,
            self.fast.first_edge_ids_fwd[rank + 1] as int,
            adj,
        )
    }

    /// The edge of `node` that comes from `adj`: the first one in the slice of the node.
    pub open spec fn in_edge_id(self, node: NodeId, adj: NodeId) -> int {
        let rank = self.fast.ranks[node as int] as int;
        first_in_slice(
            adj_nodes(self.fast.edges_bwd),
            self.fast.first_edge_ids_bwd[rank] as int,
            self.fast.first_edge_ids_bwd[rank + 1] as int,
            adj,
        )
    }

    /// The leaving edge `e`, told which edges it replaces: none for an edge of the
    /// input; for a shortcut the edge that comes from its base node to the center node,
    /// and the edge that leads from the center node on.
    pub open spec fn finished_fwd(self, e: int) -> FastGraphEdge {
        let edge = self.fast.edges_fwd[e];
        let center = self.centers_fwd[e];
        if center == INVALID_NODE {
            FastGraphEdge { replaced_in_edge: INVALID_EDGE, replaced_out_edge: INVALID_EDGE, ..edge }
        } else {
            FastGraphEdge {
                replaced_in_edge: self.in_edge_id(center, edge.base_node) as usize,
                replaced_out_edge: self.out_edge_id(center, edge.adj_node) as usize,
                ..edge
            }
        }
    }

    /// The entering edge `e`, told which edges it replaces.
    pub open spec fn finished_bwd(self, e: int) -> FastGraphEdge {
        let edge = self.fast.edges_bwd[e];
        let center = self.centers_bwd[e];
        if center == INVALID_NODE {
            FastGraphEdge { replaced_in_edge: INVALID_EDGE, replaced_out_edge: INVALID_EDGE, ..edge }
        } else {
            FastGraphEdge {
                replaced_in_edge: self.in_edge_id(center, edge.adj_node) as usize,
                replaced_out_edge: self.out_edge_id(center, edge.base_node) as usize,
                ..edge
            }
        }
    }

    /// The prepared graph with every edge told which edges it replaces.
    pub open spec fn finish(self) -> FastGraphView {
        FastGraphView {
            edges_fwd: Seq::new(self.fast.edges_fwd.len(), |e: int| self.finished_fwd(e)),
            edges_bwd: Seq::new(self.fast.edges_bwd.len(), |e: int| self.finished_bwd(e)),
            ..self.fast
        }
    }

    /// All nodes were contracted, and the record is in order.
    pub open spec fn complete(self, done: Seq<NodeId>, input: Seq<Edge>) -> bool {
        &&& self.shaped(done)
        &&& done.len() == self.fast.num_nodes
        &&& self.slices_ok(done, self.fast.edges_fwd, self.fast.first_edge_ids_fwd)
        &&& self.slices_ok(done, self.fast.edges_bwd, self.fast.first_edge_ids_bwd)
        &&& self.edges_sourced(done, input)
    }

    /// The edges of `node` can be written down without running out of edge ids.
    pub open spec fn room(self, graph: ArcLists, node: NodeId) -> bool {
        &&& self.fast.edges_fwd.len() + graph.out_arcs[node as int].len() <= usize::MAX
        &&& self.fast.edges_bwd.len() + graph.in_arcs[node as int].len() <= usize::MAX
    }

    /// Rank `r` has an entering edge `e_in` from `u` and a leaving edge `e_out` to `v`
    /// whose weights add up to `w`.
    pub open spec fn joins(self, r: int, e_in: int, e_out: int, u: NodeId, v: NodeId, w: Weight) -> bool {
        &&& in_slice(self.fast.first_edge_ids_bwd, r, e_in)
        &&& in_slice(self.fast.first_edge_ids_fwd, r, e_out)
        &&& 0 <= e_in < self.fast.edges_bwd.len()
        &&& 0 <= e_out < self.fast.edges_fwd.len()
        &&& self.fast.edges_bwd[e_in].adj_node == u
        &&& self.fast.edges_fwd[e_out].adj_node == v
        &&& w == self.fast.edges_bwd[e_in].weight + self.fast.edges_fwd[e_out].weight
    }

    /// An arc from `u` to `v` with weight `w` and center `c` has a source: it is an edge
    /// of the input, or a shortcut for two edges of a node that was contracted before
    /// rank `limit`.
    pub open spec fn sourced(
        self,
        done: Seq<NodeId>,
        input: Seq<Edge>,
        limit: int,
        u: NodeId,
        v: NodeId,
        w: Weight,
        c: NodeId,
    ) -> bool {
        if c == INVALID_NODE {
            input.contains(Edge { from: u, to: v, weight: w })
        } else {
            exists|r: int, e_in: int, e_out: int|
                0 <= r < limit && r < done.len() && done[r] == c && #[trigger] self.joins(
                    r,
                    e_in,
                    e_out,
                    u,
                    v,
                    w,
                )
        }
    }

    /// The shape of the record after the nodes `done` were contracted.
    pub open spec fn shaped(self, done: Seq<NodeId>) -> bool {
        let n = self.fast.num_nodes;
        let k = done.len();
        &&& n < usize::MAX
        &&& k <= n
        &&& self.fast.ranks.len() == n
        &&& self.fast.first_edge_ids_fwd.len() == n + 1
        &&& self.fast.first_edge_ids_bwd.len() == n + 1
        &&& self.centers_fwd.len() == self.fast.edges_fwd.len()
        &&& self.centers_bwd.len() == self.fast.edges_bwd.len()
        &&& self.fast.edges_fwd.len() <= usize::MAX
        &&& self.fast.edges_bwd.len() <= usize::MAX
        &&& forall|i: int| 0 <= i < k ==> #[trigger] done[i] < n
        &&& forall|i: int, j: int| 0 <= i < j < k ==> #[trigger] done[i] != #[trigger] done[j]
        &&& forall|i: int| 0 <= i < k ==> self.fast.ranks[(#[trigger] done[i]) as int] == i
        &&& self.fast.first_edge_ids_fwd[0] == 0
        &&& self.fast.first_edge_ids_bwd[0] == 0
        &&& self.fast.first_edge_ids_fwd[k as int] == self.fast.edges_fwd.len()
        &&& self.fast.first_edge_ids_bwd[k as int] == self.fast.edges_bwd.len()
        &&& forall|r: int, s: int|
            0 <= r <= s <= k ==> #[trigger] self.fast.first_edge_ids_fwd[r]
                <= #[trigger] self.fast.first_edge_ids_fwd[s]
        &&& forall|r: int, s: int|
            0 <= r <= s <= k ==> #[trigger] self.fast.first_edge_ids_bwd[r]
                <= #[trigger] self.fast.first_edge_ids_bwd[s]
    }

    /// The edges of a slice belong to the node of that rank, lead to nodes that were
    /// contracted later, to each of them at most once, and replace nothing yet.
    pub open spec fn slices_ok(self, done: Seq<NodeId>, edges: Seq<FastGraphEdge>, first: Seq<EdgeId>) -> bool {
        &&& forall|r: int, e: int|
            #![trigger in_slice(first, r, e)]
            0 <= r < done.len() && in_slice(first, r, e) ==> {
                &&& edges[e].base_node == done[r]
                &&& edges[e].adj_node < self.fast.num_nodes
                &&& edges[e].replaced_in_edge == INVALID_EDGE
                &&& edges[e].replaced_out_edge == INVALID_EDGE
                &&& forall|j: int| 0 <= j <= r ==> #[trigger] done[j] != edges[e].adj_node
            }
        &&& forall|r: int, e1: int, e2: int|
            #![trigger in_slice(first, r, e1), in_slice(first, r, e2)]
            0 <= r < done.len() && in_slice(first, r, e1) && in_slice(first, r, e2) && e1 != e2
                ==> edges[e1].adj_node != edges[e2].adj_node
    }

    /// Every edge written down has a source among the nodes contracted before its own.
    pub open spec fn edges_sourced(self, done: Seq<NodeId>, input: Seq<Edge>) -> bool {
        &&& forall|r: int, e: int|
            #![trigger in_slice(self.fast.first_edge_ids_fwd, r, e)]
            0 <= r < done.len() && in_slice(self.fast.first_edge_ids_fwd, r, e) ==> self.sourced(
                done,
                input,
                r,
                self.fast.edges_fwd[e].base_node,
                self.fast.edges_fwd[e].adj_node,
                self.fast.edges_fwd[e].weight,
                self.centers_fwd[e],
            )
        &&& forall|r: int, e: int|
            #![trigger in_slice(self.fast.first_edge_ids_bwd, r, e)]
            0 <= r < done.len() && in_slice(self.fast.first_edge_ids_bwd, r, e) ==> self.sourced(
                done,
                input,
                r,
                self.fast.edges_bwd[e].adj_node,
                self.fast.edges_bwd[e].base_node,
                self.fast.edges_bwd[e].weight,
                self.centers_bwd[e],
            )
    }

    /// The arcs of `graph` connect nodes that are not in `gone`, and each has a source
    /// among the nodes `done`.
    pub open spec fn arcs_sourced(
        self,
        graph: ArcLists,
        gone: Seq<NodeId>,
        done: Seq<NodeId>,
        input: Seq<Edge>,
    ) -> bool {
        &&& graph.consistent()
        &&& graph.num_nodes() == self.fast.num_nodes
        &&& forall|j: int|
            0 <= j < gone.len() ==> graph.out_arcs[(#[trigger] gone[j]) as int].len() == 0
        &&& forall|u: int, i: int, j: int|
            #![trigger graph.out_arcs[u][i], gone[j]]
            0 <= u < graph.num_nodes() && 0 <= i < graph.out_arcs[u].len() && 0 <= j < gone.len()
                ==> graph.out_arcs[u][i].adj_node != gone[j]
        &&& forall|u: int, i: int|
            #![trigger graph.out_arcs[u][i]]
            0 <= u < graph.num_nodes() && 0 <= i < graph.out_arcs[u].len() ==> self.sourced(
                done,
                input,
                done.len() as int,
                u as usize,
                graph.out_arcs[u][i].adj_node,
                graph.out_arcs[u][i].weight,
                graph.out_arcs[u][i].center_node,
            )
    }

    /// What holds of the record and the graph between two contractions.
    pub open spec fn inv(self, graph: ArcLists, done: Seq<NodeId>, input: Seq<Edge>) -> bool {
        &&& self.shaped(done)
        &&& self.slices_ok(done, self.fast.edges_fwd, self.fast.first_edge_ids_fwd)
        &&& self.slices_ok(done, self.fast.edges_bwd, self.fast.first_edge_ids_bwd)
        &&& self.edges_sourced(done, input)
        &&& self.arcs_sourced(graph, done, done, input)
    }
}

/// Writing a node down leaves the slices of the nodes before it as they are, and
/// makes a new slice of its arcs.
pub proof fn lemma_record_slices(rec: Recorded, graph: ArcLists, done: Seq<NodeId>, node: NodeId)
    requires
        rec.shaped(done),
        done.len() < rec.fast.num_nodes,
        node < rec.fast.num_nodes,
        graph.num_nodes() == rec.fast.num_nodes,
        graph.wf(),
        rec.room(graph, node),
    ensures
        ({
            let rec2 = rec.record(graph, node, done.len() as int);
            let k = done.len() as int;
            let outs = graph.out_arcs[node as int];
            let ins = graph.in_arcs[node as int];
            &&& rec2.fast.edges_fwd.len() == rec.fast.edges_fwd.len() + outs.len()
            &&& rec2.fast.edges_bwd.len() == rec.fast.edges_bwd.len() + ins.len()
            &&& rec2.centers_fwd.len() == rec2.fast.edges_fwd.len()
            &&& rec2.centers_bwd.len() == rec2.fast.edges_bwd.len()
            &&& forall|e: int|
                0 <= e < rec.fast.edges_fwd.len() ==> #[trigger] rec2.fast.edges_fwd[e]
                    == rec.fast.edges_fwd[e] && rec2.centers_fwd[e] == rec.centers_fwd[e]
            &&& forall|e: int|
                0 <= e < rec.fast.edges_bwd.len() ==> #[trigger] rec2.fast.edges_bwd[e]
                    == rec.fast.edges_bwd[e] && rec2.centers_bwd[e] == rec.centers_bwd[e]
            &&& forall|i: int|
                0 <= i < outs.len() ==> #[trigger] rec2.fast.edges_fwd[rec.fast.edges_fwd.len() + i]
                    == edges_of(node, outs)[i] && rec2.centers_fwd[rec.fast.edges_fwd.len() + i]
                    == outs[i].center_node
            &&& forall|i: int|
                0 <= i < ins.len() ==> #[trigger] rec2.fast.edges_bwd[rec.fast.edges_bwd.len() + i]
                    == edges_of(node, ins)[i] && rec2.centers_bwd[rec.fast.edges_bwd.len() + i]
                    == ins[i].center_node
            &&& forall|r: int, e: int|
                0 <= r < k ==> (#[trigger] in_slice(rec2.fast.first_edge_ids_fwd, r, e) <==> in_slice(
                    rec.fast.first_edge_ids_fwd,
                    r,
                    e,
                ))
            &&& forall|r: int, e: int|
                0 <= r < k ==> (#[trigger] in_slice(rec2.fast.first_edge_ids_bwd, r, e) <==> in_slice(
                    rec.fast.first_edge_ids_bwd,
                    r,
                    e,
                ))
            &&& forall|r: int, e: int|
                0 <= r < k && in_slice(rec.fast.first_edge_ids_fwd, r, e) ==> 0 <= e
                    < rec.fast.edges_fwd.len()
            &&& forall|r: int, e: int|
                0 <= r < k && in_slice(rec.fast.first_edge_ids_bwd, r, e) ==> 0 <= e
                    < rec.fast.edges_bwd.len()
            &&& forall|e: int|
                #[trigger] in_slice(rec2.fast.first_edge_ids_fwd, k, e) <==> rec.fast.edges_fwd.len()
                    <= e < rec.fast.edges_fwd.len() + outs.len()
            &&& forall|e: int|
                #[trigger] in_slice(rec2.fast.first_edge_ids_bwd, k, e) <==> rec.fast.edges_bwd.len()
                    <= e < rec.fast.edges_bwd.len() + ins.len()
        }),
{
    let rec2 = rec.record(graph, node, done.len() as int);
    let k = done.len() as int;
    assert forall|r: int, e: int| 0 <= r < k && in_slice(
        rec.fast.first_edge_ids_fwd,
        r,
        e,
    ) implies 0 <= e < rec.fast.edges_fwd.len() by {
        assert(rec.fast.first_edge_ids_fwd[0] <= rec.fast.first_edge_ids_fwd[r]);
        assert(rec.fast.first_edge_ids_fwd[r + 1] <= rec.fast.first_edge_ids_fwd[k]);
    }
    assert forall|r: int, e: int| 0 <= r < k && in_slice(
        rec.fast.first_edge_ids_bwd,
        r,
        e,
    ) implies 0 <= e < rec.fast.edges_bwd.len() by {
        assert(rec.fast.first_edge_ids_bwd[0] <= rec.fast.first_edge_ids_bwd[r]);
        assert(rec.fast.first_edge_ids_bwd[r + 1] <= rec.fast.first_edge_ids_bwd[k]);
    }
}

/// A source among the nodes before rank `limit` stays a source when another node is
/// written down.
pub proof fn lemma_sourced_kept(
    rec: Recorded,
    graph: ArcLists,
    done: Seq<NodeId>,
    input: Seq<Edge>,
    node: NodeId,
    limit: int,
    u: NodeId,
    v: NodeId,
    w: Weight,
    c: NodeId,
)
    requires
        rec.shaped(done),
        done.len() < rec.fast.num_nodes,
        node < rec.fast.num_nodes,
        graph.num_nodes() == rec.fast.num_nodes,
        graph.wf(),
        rec.room(graph, node),
        limit <= done.len(),
        rec.sourced(done, input, limit, u, v, w, c),
    ensures
        rec.record(graph, node, done.len() as int).sourced(
            done.push(node),
            input,
            limit,
            u,
            v,
            w,
            c,
        ),
{
    let rec2 = rec.record(graph, node, done.len() as int);
    lemma_record_slices(rec, graph, done, node);
    if c != INVALID_NODE {
        let (r, e_in, e_out) = choose|r: int, e_in: int, e_out: int|
            0 <= r < limit && r < done.len() && done[r] == c && #[trigger] rec.joins(
                r,
                e_in,
                e_out,
                u,
                v,
                w,
            );
        assert(in_slice(rec2.fast.first_edge_ids_bwd, r, e_in));
        assert(in_slice(rec2.fast.first_edge_ids_fwd, r, e_out));
        assert(rec2.fast.edges_bwd[e_in] == rec.fast.edges_bwd[e_in]);
        assert(rec2.fast.edges_fwd[e_out] == rec.fast.edges_fwd[e_out]);
        assert(rec2.joins(r, e_in, e_out, u, v, w));
        assert(done.push(node)[r] == c);
    }
}

/// Writing down a node that is not contracted yet keeps the record in order.
pub proof fn lemma_record(rec: Recorded, graph: ArcLists, done: Seq<NodeId>, input: Seq<Edge>, node: NodeId)
    requires
        rec.inv(graph, done, input),
        done.len() < rec.fast.num_nodes,
        node < rec.fast.num_nodes,
        rec.room(graph, node),
        forall|j: int| 0 <= j < done.len() ==> #[trigger] done[j] != node,
    ensures
        ({
            let rec2 = rec.record(graph, node, done.len() as int);
            let done2 = done.push(node);
            &&& rec2.fast.num_nodes == rec.fast.num_nodes
            &&& rec2.shaped(done2)
            &&& rec2.slices_ok(done2, rec2.fast.edges_fwd, rec2.fast.first_edge_ids_fwd)
            &&& rec2.slices_ok(done2, rec2.fast.edges_bwd, rec2.fast.first_edge_ids_bwd)
            &&& rec2.edges_sourced(done2, input)
            &&& rec2.arcs_sourced(graph, done, done2, input)
        }),
{
    let rec2 = rec.record(graph, node, done.len() as int);
    let done2 = done.push(node);
    let k = done.len() as int;
    let n = rec.fast.num_nodes;
    let outs = graph.out_arcs[node as int];
    let ins = graph.in_arcs[node as int];
    lemma_record_slices(rec, graph, done, node);
    lemma_record_shaped(rec, graph, done, node);
    lemma_record_slices_ok(rec, graph, done, input, node);
    // every edge written down keeps its source
    assert forall|r: int, e: int|
        #![trigger in_slice(rec2.fast.first_edge_ids_fwd, r, e)]
        0 <= r < done2.len() && in_slice(rec2.fast.first_edge_ids_fwd, r, e) implies rec2.sourced(
        done2,
        input,
        r,
        rec2.fast.edges_fwd[e].base_node,
        rec2.fast.edges_fwd[e].adj_node,
        rec2.fast.edges_fwd[e].weight,
        rec2.centers_fwd[e],
    ) by {
        if r < k {
            assert(in_slice(rec.fast.first_edge_ids_fwd, r, e));
            assert(rec2.fast.edges_fwd[e] == rec.fast.edges_fwd[e]);
            lemma_sourced_kept(
                rec,
                graph,
                done,
                input,
                node,
                r,
                rec.fast.edges_fwd[e].base_node,
                rec.fast.edges_fwd[e].adj_node,
                rec.fast.edges_fwd[e].weight,
                rec.centers_fwd[e],
            );
        } else {
            let i = e - rec.fast.edges_fwd.len();
            assert(rec2.fast.edges_fwd[rec.fast.edges_fwd.len() + i] == edges_of(node, outs)[i]);
            let a = graph.out_arcs[node as int][i];
            lemma_sourced_kept(
                rec,
                graph,
                done,
                input,
                node,
                k,
                node,
                a.adj_node,
                a.weight,
                a.center_node,
            );
        }
    }
    assert forall|r: int, e: int|
        #![trigger in_slice(rec2.fast.first_edge_ids_bwd, r, e)]
        0 <= r < done2.len() && in_slice(rec2.fast.first_edge_ids_bwd, r, e) implies rec2.sourced(
        done2,
        input,
        r,
        rec2.fast.edges_bwd[e].adj_node,
        rec2.fast.edges_bwd[e].base_node,
        rec2.fast.edges_bwd[e].weight,
        rec2.centers_bwd[e],
    ) by {
        if r < k {
            assert(in_slice(rec.fast.first_edge_ids_bwd, r, e));
            assert(rec2.fast.edges_bwd[e] == rec.fast.edges_bwd[e]);
            lemma_sourced_kept(
                rec,
                graph,
                done,
                input,
                node,
                r,
                rec.fast.edges_bwd[e].adj_node,
                rec.fast.edges_bwd[e].base_node,
                rec.fast.edges_bwd[e].weight,
                rec.centers_bwd[e],
            );
        } else {
            let i = e - rec.fast.edges_bwd.len();
            assert(rec2.fast.edges_bwd[rec.fast.edges_bwd.len() + i] == edges_of(node, ins)[i]);
            let a = graph.in_arcs[node as int][i];
            let twin = crate::preparation_graph::mirrored(a, node as int);
            assert(a.adj_node < n);
            assert(graph.out_arcs[a.adj_node as int].contains(twin));
            let m = choose|m: int|
                0 <= m < graph.out_arcs[a.adj_node as int].len() && graph.out_arcs[a.adj_node as int][m]
                    == twin;
            assert(rec.sourced(
                done,
                input,
                k,
                a.adj_node,
                graph.out_arcs[a.adj_node as int][m].adj_node,
                graph.out_arcs[a.adj_node as int][m].weight,
                graph.out_arcs[a.adj_node as int][m].center_node,
            ));
            lemma_sourced_kept(
                rec,
                graph,
                done,
                input,
                node,
                k,
                a.adj_node,
                node,
                a.weight,
                a.center_node,
            );
        }
    }
    // every arc of the graph keeps its source
    assert forall|u: int, i: int|
        #![trigger graph.out_arcs[u][i]]
        0 <= u < graph.num_nodes() && 0 <= i < graph.out_arcs[u].len() implies rec2.sourced(
        done2,
        input,
        done2.len() as int,
        u as usize,
        graph.out_arcs[u][i].adj_node,
        graph.out_arcs[u][i].weight,
        graph.out_arcs[u][i].center_node,
    ) by {
        let a = graph.out_arcs[u][i];
        lemma_sourced_kept(
            rec,
            graph,
            done,
            input,
            node,
            k,
            u as usize,
            a.adj_node,
            a.weight,
            a.center_node,
        );
        lemma_sourced_wider(rec2, done2, input, k, k + 1, u as usize, a.adj_node, a.weight, a.center_node);
    }
    assert(rec2.shaped(done2));
    assert(rec2.edges_sourced(done2, input));
    assert(rec2.arcs_sourced(graph, done, done2, input));
}

/// A source before rank `limit` is a source before any later rank.
pub proof fn lemma_sourced_wider(
    rec: Recorded,
    done: Seq<NodeId>,
    input: Seq<Edge>,
    limit: int,
    wider: int,
    u: NodeId,
    v: NodeId,
    w: Weight,
    c: NodeId,
)
    requires
        limit <= wider,
        rec.sourced(done, input, limit, u, v, w, c),
    ensures
        rec.sourced(done, input, wider, u, v, w, c),
{
    if c != INVALID_NODE {
        let (r, e_in, e_out) = choose|r: int, e_in: int, e_out: int|
            0 <= r < limit && r < done.len() && done[r] == c && #[trigger] rec.joins(
                r,
                e_in,
                e_out,
                u,
                v,
                w,
            );
        assert(0 <= r < wider && r < done.len() && done[r] == c && rec.joins(r, e_in, e_out, u, v, w));
    }
}

/// Writing a node down keeps the shape of the record.
pub proof fn lemma_record_shaped(rec: Recorded, graph: ArcLists, done: Seq<NodeId>, node: NodeId)
    requires
        rec.shaped(done),
        done.len() < rec.fast.num_nodes,
        node < rec.fast.num_nodes,
        graph.num_nodes() == rec.fast.num_nodes,
        graph.wf(),
        forall|j: int| 0 <= j < done.len() ==> #[trigger] done[j] != node,
        rec.room(graph, node),
    ensures
        rec.record(graph, node, done.len() as int).shaped(done.push(node)),
{
    let rec2 = rec.record(graph, node, done.len() as int);
    let done2 = done.push(node);
    let k = done.len() as int;
    lemma_record_slices(rec, graph, done, node);
    assert forall|i: int| 0 <= i < done2.len() implies rec2.fast.ranks[(#[trigger] done2[i]) as int]
        == i by {
        if i < k {
            assert(done[i] != node);
            assert(rec.fast.ranks[done[i] as int] == i);
        }
    }
    assert forall|i: int, j: int| 0 <= i < j < done2.len() implies #[trigger] done2[i]
        != #[trigger] done2[j] by {
        if j < k {
            assert(done[i] != done[j]);
        } else {
            assert(done[i] != node);
        }
    }
    assert forall|r: int, s: int| 0 <= r <= s <= k + 1 implies #[trigger] rec2.fast.first_edge_ids_fwd[r]
        <= #[trigger] rec2.fast.first_edge_ids_fwd[s] by {
        if s <= k {
            assert(rec.fast.first_edge_ids_fwd[r] <= rec.fast.first_edge_ids_fwd[s]);
        } else if r <= k {
            assert(rec.fast.first_edge_ids_fwd[r] <= rec.fast.first_edge_ids_fwd[k]);
        }
    }
    assert forall|r: int, s: int| 0 <= r <= s <= k + 1 implies #[trigger] rec2.fast.first_edge_ids_bwd[r]
        <= #[trigger] rec2.fast.first_edge_ids_bwd[s] by {
        if s <= k {
            assert(rec.fast.first_edge_ids_bwd[r] <= rec.fast.first_edge_ids_bwd[s]);
        } else if r <= k {
            assert(rec.fast.first_edge_ids_bwd[r] <= rec.fast.first_edge_ids_bwd[k]);
        }
    }
}

/// Writing down a node that is not contracted yet keeps the slices in order.
pub proof fn lemma_record_slices_ok(
    rec: Recorded,
    graph: ArcLists,
    done: Seq<NodeId>,
    input: Seq<Edge>,
    node: NodeId,
)
    requires
        rec.inv(graph, done, input),
        done.len() < rec.fast.num_nodes,
        node < rec.fast.num_nodes,
        rec.room(graph, node),
        forall|j: int| 0 <= j < done.len() ==> #[trigger] done[j] != node,
    ensures
        ({
            let rec2 = rec.record(graph, node, done.len() as int);
            let done2 = done.push(node);
            &&& rec2.slices_ok(done2, rec2.fast.edges_fwd, rec2.fast.first_edge_ids_fwd)
            &&& rec2.slices_ok(done2, rec2.fast.edges_bwd, rec2.fast.first_edge_ids_bwd)
        }),
{
    let rec2 = rec.record(graph, node, done.len() as int);
    let done2 = done.push(node);
    let k = done.len() as int;
    let n = rec.fast.num_nodes;
    let outs = graph.out_arcs[node as int];
    let ins = graph.in_arcs[node as int];
    lemma_record_slices(rec, graph, done, node);
    assert(crate::preparation_graph::distinct_ends(outs));
    assert(crate::preparation_graph::distinct_ends(ins));
    assert(!crate::preparation_graph::has_arc_to(outs, node));
    assert(!crate::preparation_graph::has_arc_to(ins, node));
    let first = rec2.fast.first_edge_ids_fwd;
    let edges = rec2.fast.edges_fwd;
    assert forall|r: int, e: int|
        #![trigger in_slice(first, r, e)]
        0 <= r < done2.len() && in_slice(first, r, e) implies {
        &&& edges[e].base_node == done2[r]
        &&& edges[e].adj_node < rec2.fast.num_nodes
        &&& edges[e].replaced_in_edge == INVALID_EDGE
        &&& edges[e].replaced_out_edge == INVALID_EDGE
        &&& forall|j: int| 0 <= j <= r ==> #[trigger] done2[j] != edges[e].adj_node
    } by {
        if r < k {
            assert(in_slice(rec.fast.first_edge_ids_fwd, r, e));
            assert(edges[e] == rec.fast.edges_fwd[e]);
            assert forall|j: int| 0 <= j <= r implies #[trigger] done2[j] != edges[e].adj_node by {
                assert(done[j] != rec.fast.edges_fwd[e].adj_node);
            }
        } else {
            let i = e - rec.fast.edges_fwd.len();
            assert(edges[rec.fast.edges_fwd.len() + i] == edges_of(node, outs)[i]);
            let a = graph.out_arcs[node as int][i];
            assert(a.adj_node != node);
            assert forall|j: int| 0 <= j <= r implies #[trigger] done2[j] != edges[e].adj_node by {
                if j < k {
                    assert(graph.out_arcs[node as int][i].adj_node != done[j]);
                }
            }
        }
    }
    assert forall|r: int, e1: int, e2: int|
        #![trigger in_slice(first, r, e1), in_slice(first, r, e2)]
        0 <= r < done2.len() && in_slice(first, r, e1) && in_slice(first, r, e2) && e1
            != e2 implies edges[e1].adj_node != edges[e2].adj_node by {
        if r < k {
            assert(in_slice(rec.fast.first_edge_ids_fwd, r, e1));
            assert(in_slice(rec.fast.first_edge_ids_fwd, r, e2));
            assert(edges[e1] == rec.fast.edges_fwd[e1]);
            assert(edges[e2] == rec.fast.edges_fwd[e2]);
        } else {
            let i1 = e1 - rec.fast.edges_fwd.len();
            let i2 = e2 - rec.fast.edges_fwd.len();
            assert(edges[rec.fast.edges_fwd.len() + i1] == edges_of(node, outs)[i1]);
            assert(edges[rec.fast.edges_fwd.len() + i2] == edges_of(node, outs)[i2]);
            if i1 < i2 {
                assert(outs[i1].adj_node != outs[i2].adj_node);
            } else {
                assert(outs[i2].adj_node != outs[i1].adj_node);
            }
        }
    }
    let first = rec2.fast.first_edge_ids_bwd;
    let edges = rec2.fast.edges_bwd;
    assert forall|r: int, e: int|
        #![trigger in_slice(first, r, e)]
        0 <= r < done2.len() && in_slice(first, r, e) implies {
        &&& edges[e].base_node == done2[r]
        &&& edges[e].adj_node < rec2.fast.num_nodes
        &&& edges[e].replaced_in_edge == INVALID_EDGE
        &&& edges[e].replaced_out_edge == INVALID_EDGE
        &&& forall|j: int| 0 <= j <= r ==> #[trigger] done2[j] != edges[e].adj_node
    } by {
        if r < k {
            assert(in_slice(rec.fast.first_edge_ids_bwd, r, e));
            assert(edges[e] == rec.fast.edges_bwd[e]);
            assert forall|j: int| 0 <= j <= r implies #[trigger] done2[j] != edges[e].adj_node by {
                assert(done[j] != rec.fast.edges_bwd[e].adj_node);
            }
        } else {
            let i = e - rec.fast.edges_bwd.len();
            assert(edges[rec.fast.edges_bwd.len() + i] == edges_of(node, ins)[i]);
            let a = graph.in_arcs[node as int][i];
            assert(a.adj_node != node);
            assert(a.adj_node < n);
            let twin = crate::preparation_graph::mirrored(a, node as int);
            assert(graph.out_arcs[a.adj_node as int].contains(twin));
            let m = choose|m: int|
                0 <= m < graph.out_arcs[a.adj_node as int].len() && graph.out_arcs[a.adj_node as int][m]
                    == twin;
            assert forall|j: int| 0 <= j <= r implies #[trigger] done2[j] != edges[e].adj_node by {
                if j < k {
                    assert(graph.out_arcs[done[j] as int].len() == 0);
                }
            }
        }
    }
    assert forall|r: int, e1: int, e2: int|
        #![trigger in_slice(first, r, e1), in_slice(first, r, e2)]
        0 <= r < done2.len() && in_slice(first, r, e1) && in_slice(first, r, e2) && e1
            != e2 implies edges[e1].adj_node != edges[e2].adj_node by {
        if r < k {
            assert(in_slice(rec.fast.first_edge_ids_bwd, r, e1));
            assert(in_slice(rec.fast.first_edge_ids_bwd, r, e2));
            assert(edges[e1] == rec.fast.edges_bwd[e1]);
            assert(edges[e2] == rec.fast.edges_bwd[e2]);
        } else {
            let i1 = e1 - rec.fast.edges_bwd.len();
            let i2 = e2 - rec.fast.edges_bwd.len();
            assert(edges[rec.fast.edges_bwd.len() + i1] == edges_of(node, ins)[i1]);
            assert(edges[rec.fast.edges_bwd.len() + i2] == edges_of(node, ins)[i2]);
            if i1 < i2 {
                assert(ins[i1].adj_node != ins[i2].adj_node);
            } else {
                assert(ins[i2].adj_node != ins[i1].adj_node);
            }
        }
    }
}

/// The state of a preparation: what was written down, the graph of the nodes that are
/// not contracted yet, and the witness search.
pub struct Preparation {
    pub rec: Recorded,
    pub graph: ArcLists,
    pub search: WitnessState,
}

impl Preparation {
    /// The state before the first contraction.
    pub open spec fn start(edges: Seq<Edge>, n: usize) -> Preparation {
        Preparation {
            rec: Recorded::empty(n),
            graph: ArcLists::from_edges(edges, n as nat),
            search: WitnessState::fresh(n as nat),
        }
    }

    /// Contracts `node` as the node of rank `rank`: writes it down, adds the shortcuts
    /// that are needed without it, and cuts it out of the graph.
    pub open spec fn contract(self, node: NodeId, rank: int, max_settled_nodes: usize) -> Preparation {
        let found = handle(self.graph, self.search, node, true, max_settled_nodes);
        Preparation {
            rec: self.rec.record(self.graph, node, rank),
            graph: found.graph.disconnect(node),
            search: found.search,
        }
    }

    /// Contracts the nodes of `order` from position `k` on, in their order.
    pub open spec fn contract_from(self, order: Seq<NodeId>, k: int, max_settled_nodes: usize) -> Preparation
        decreases order.len() - k,
    {
        if 0 <= k < order.len() {
            self.contract(order[k], k, max_settled_nodes).contract_from(
                order,
                k + 1,
                max_settled_nodes,
            )
        } else {
            self
        }
    }
}

/// The prepared graph for the given edges and the given order of contraction.
pub open spec fn prepared_with_order(
    edges: Seq<Edge>,
    n: usize,
    order: Seq<NodeId>,
    max_settled_nodes: usize,
) -> FastGraphView {
    Preparation::start(edges, n).contract_from(order, 0, max_settled_nodes).rec.finish()
}

/// Before the first contraction the record is in order.
pub proof fn lemma_start(edges: Seq<Edge>, n: usize)
    requires
        n < usize::MAX,
        crate::input_graph::edges_valid(edges, n),
        crate::input_graph::strictly_sorted(edges),
    ensures
        Recorded::empty(n).inv(ArcLists::from_edges(edges, n as nat), Seq::empty(), edges),
{
    let rec = Recorded::empty(n);
    let g = ArcLists::from_edges(edges, n as nat);
    let done = Seq::<NodeId>::empty();
    lemma_from_edges_consistent(edges, n);
    assert(rec.shaped(done));
    assert forall|u: int, i: int|
        #![trigger g.out_arcs[u][i]]
        0 <= u < g.num_nodes() && 0 <= i < g.out_arcs[u].len() implies rec.sourced(
        done,
        edges,
        done.len() as int,
        u as usize,
        g.out_arcs[u][i].adj_node,
        g.out_arcs[u][i].weight,
        g.out_arcs[u][i].center_node,
    ) by {}
}

/// The nodes that the arcs lead to.
pub open spec fn adjs_of(arcs: Seq<Arc>) -> Seq<NodeId> {
    arcs.map_values(|arc: Arc| arc.adj_node)
}

/// The nodes that the arcs lead to and none of the arcs `seen` leads to.
pub open spec fn fresh_adjs(arcs: Seq<Arc>, seen: Seq<Arc>) -> Seq<NodeId>
    decreases arcs.len(),
{
    if arcs.len() == 0 {
        Seq::empty()
    } else {
        let rest = fresh_adjs(arcs.drop_last(), seen);
        if has_arc_to(seen, arcs.last().adj_node) {
            rest
        } else {
            rest.push(arcs.last().adj_node)
        }
    }
}

/// The neighbors of a node, each once: the nodes its arcs lead to, then the nodes that
/// arcs come from only.
pub open spec fn neighbors_of(graph: ArcLists, node: NodeId) -> Seq<NodeId> {
    adjs_of(graph.out_arcs[node as int]) + fresh_adjs(
        graph.in_arcs[node as int],
        graph.out_arcs[node as int],
    )
}

/// The priority that a node of the given relevance has in the queue. The queue hands
/// out the greatest priority first: that of the least relevance, and among nodes of
/// equal relevance that of the least node.
pub open spec fn priority_of(relevance: Weight, node: NodeId) -> Priority {
    ((usize::MAX - relevance) as usize, (usize::MAX - node) as usize)
}

/// The node that the queue hands out next, where it holds any.
pub open spec fn top(queue: Map<NodeId, Priority>) -> NodeId {
    choose|node: NodeId| is_top(queue, node)
}

/// Where each node has the priority of some relevance, only one node is at the top.
pub proof fn lemma_top(queue: Map<NodeId, Priority>, node: NodeId)
    requires
        is_top(queue, node),
        forall|v: NodeId| queue.contains_key(v) ==> (#[trigger] queue[v]).1 == usize::MAX - v,
    ensures
        top(queue) == node,
{
    let other = top(queue);
    assert(is_top(queue, other));
    assert(pair_le(queue[other], queue[node]));
    assert(pair_le(queue[node], queue[other]));
}

/// The state of a preparation that chooses the order of contraction itself: the
/// preparation, the level of each node, the queue of the nodes that are not contracted
/// yet, and the nodes contracted so far.
pub struct Ranking {
    pub prep: Preparation,
    pub levels: Seq<usize>,
    pub queue: Map<NodeId, Priority>,
    pub done: Seq<NodeId>,
}

impl Ranking {
    /// The state before any node was looked at.
    pub open spec fn start(edges: Seq<Edge>, n: usize) -> Ranking {
        Ranking {
            prep: Preparation::start(edges, n),
            levels: Seq::new(n as nat, |i: int| 0usize),
            queue: Map::empty(),
            done: Seq::empty(),
        }
    }

    /// The relevance of `node` at the given level, and the state that the search for
    /// it leaves behind.
    pub open spec fn rate(self, params: Params, node: NodeId, level: usize, max_settled_nodes: usize) -> (
        Ranking,
        Weight,
    ) {
        let found = handle(self.prep.graph, self.prep.search, node, false, max_settled_nodes);
        (
            Ranking { prep: Preparation { search: found.search, ..self.prep }, ..self },
            relevance_of(
                params,
                level,
                found.shortcuts.len() as usize,
                self.prep.graph.out_arcs[node as int].len() as usize,
                self.prep.graph.in_arcs[node as int].len() as usize,
            ) as usize,
        )
    }

    /// Puts the nodes from `node` on into the queue, each with its relevance at level 0.
    pub open spec fn enqueue_from(self, params: Params, node: int) -> Ranking
        decreases self.levels.len() - node,
    {
        if 0 <= node < self.levels.len() {
            let (rated, relevance) = self.rate(
                params,
                node as usize,
                0,
                params.max_settled_nodes_initial_relevance,
            );
            (Ranking {
                queue: rated.queue.insert(node as usize, priority_of(relevance, node as usize)),
                ..rated
            }).enqueue_from(params, node + 1)
        } else {
            self
        }
    }

    /// Raises the neighbors from position `i` on to at least `level`, and gives each
    /// that is still in the queue the priority of its new relevance.
    pub open spec fn update_from(self, params: Params, neighbors: Seq<NodeId>, i: int, level: usize) -> Ranking
        decreases neighbors.len() - i,
    {
        if 0 <= i < neighbors.len() {
            let neighbor = neighbors[i];
            let raised = if self.levels[neighbor as int] < level {
                level
            } else {
                self.levels[neighbor as int]
            };
            let (rated, relevance) = self.rate(
                params,
                neighbor,
                raised,
                params.max_settled_nodes_neighbor_relevance,
            );
            (Ranking {
                levels: if neighbor < rated.levels.len() {
                    rated.levels.update(neighbor as int, raised)
                } else {
                    rated.levels
                },
                queue: if rated.queue.contains_key(neighbor) {
                    rated.queue.insert(neighbor, priority_of(relevance, neighbor))
                } else {
                    rated.queue
                },
                ..rated
            }).update_from(params, neighbors, i + 1, level)
        } else {
            self
        }
    }

    /// Contracts the node at the top of the queue, and updates its neighbors.
    pub open spec fn contract_top(self, params: Params) -> Ranking {
        let node = top(self.queue);
        (Ranking {
            prep: self.prep.contract(
                node,
                self.done.len() as int,
                params.max_settled_nodes_contraction,
            ),
            queue: self.queue.remove(node),
            done: self.done.push(node),
            ..self
        }).update_from(
            params,
            neighbors_of(self.prep.graph, node),
            0,
            (self.levels[node as int] + 1) as usize,
        )
    }

    /// Contracts one node after the other, until the queue is empty.
    pub open spec fn contract_all(self, params: Params) -> Ranking
        decreases self.levels.len() - self.done.len(),
    {
        if self.done.len() < self.levels.len() && exists|node: NodeId| is_top(self.queue, node) {
            proof {
                lemma_update_from(
                    Ranking {
                        prep: self.prep.contract(
                            top(self.queue),
                            self.done.len() as int,
                            params.max_settled_nodes_contraction,
                        ),
                        queue: self.queue.remove(top(self.queue)),
                        done: self.done.push(top(self.queue)),
                        ..self
                    },
                    params,
                    neighbors_of(self.prep.graph, top(self.queue)),
                    0,
                    (self.levels[top(self.queue) as int] + 1) as usize,
                );
            }
            self.contract_top(params).contract_all(params)
        } else {
            self
        }
    }
}

/// Updating neighbors changes neither the nodes that are done nor the number of levels.
pub proof fn lemma_update_from(r: Ranking, params: Params, neighbors: Seq<NodeId>, i: int, level: usize)
    ensures
        r.update_from(params, neighbors, i, level).done == r.done,
        r.update_from(params, neighbors, i, level).levels.len() == r.levels.len(),
    decreases neighbors.len() - i,
{
    if 0 <= i < neighbors.len() {
        let neighbor = neighbors[i];
        let raised = if r.levels[neighbor as int] < level {
            level
        } else {
            r.levels[neighbor as int]
        };
        let (rated, relevance) = r.rate(
            params,
            neighbor,
            raised,
            params.max_settled_nodes_neighbor_relevance,
        );
        let next = Ranking {
            levels: if neighbor < rated.levels.len() {
                rated.levels.update(neighbor as int, raised)
            } else {
                rated.levels
            },
            queue: if rated.queue.contains_key(neighbor) {
                rated.queue.insert(neighbor, priority_of(relevance, neighbor))
            } else {
                rated.queue
            },
            ..rated
        };
        lemma_update_from(next, params, neighbors, i + 1, level);
    }
}

/// The prepared graph for the given edges, with the order of contraction chosen by the
/// relevance of the nodes.
pub open spec fn prepared(edges: Seq<Edge>, n: usize, params: Params) -> FastGraphView {
    Ranking::start(edges, n).enqueue_from(params, 0).contract_all(params).prep.rec.finish()
}

/// A list with one more node holds what it held before, and that node.
pub proof fn lemma_push_contains(done: Seq<NodeId>, node: NodeId, v: NodeId)
    ensures
        done.push(node).contains(v) <==> done.contains(v) || v == node,
{
    let more = done.push(node);
    if done.contains(v) {
        let j = choose|j: int| 0 <= j < done.len() && done[j] == v;
        assert(more[j] == v);
    }
    if v == node {
        assert(more[done.len() as int] == v);
    }
    if more.contains(v) {
        let j = choose|j: int| 0 <= j < more.len() && more[j] == v;
        if j < done.len() {
            assert(done[j] == v);
        }
    }
}

/// A list of different nodes below `n` has at most `n` nodes, and exactly `n` where it
/// holds every node below `n`.
pub proof fn lemma_count_nodes(done: Seq<NodeId>, n: usize)
    requires
        forall|i: int| 0 <= i < done.len() ==> #[trigger] done[i] < n,
        forall|i: int, j: int| 0 <= i < j < done.len() ==> #[trigger] done[i] != #[trigger] done[j],
    ensures
        done.len() <= n,
        (forall|v: NodeId| v < n ==> #[trigger] done.contains(v)) ==> done.len() == n,
{
    let ints = done.map_values(|v: NodeId| v as int);
    assert(ints.no_duplicates()) by {
        assert forall|i: int, j: int| 0 <= i < ints.len() && 0 <= j < ints.len() && i != j implies ints[i]
            != ints[j] by {
            if i < j {
                assert(done[i] != done[j]);
            } else {
                assert(done[j] != done[i]);
            }
        }
    }
    ints.unique_seq_to_set();
    vstd::set_lib::lemma_int_range(0, n as int);
    let all = vstd::set_lib::set_int_range(0, n as int);
    assert(ints.to_set().subset_of(all)) by {
        assert forall|v: int| ints.to_set().contains(v) implies all.contains(v) by {
            let j = choose|j: int| 0 <= j < ints.len() && ints[j] == v;
            assert(done[j] < n);
        }
    }
    vstd::set_lib::lemma_len_subset(ints.to_set(), all);
    if forall|v: NodeId| v < n ==> #[trigger] done.contains(v) {
        assert(all.subset_of(ints.to_set())) by {
            assert forall|v: int| all.contains(v) implies ints.to_set().contains(v) by {
                assert(done.contains(v as usize));
                let j = choose|j: int| 0 <= j < done.len() && done[j] == v as usize;
                assert(ints[j] == v);
            }
        }
        vstd::set_lib::lemma_set_subset_finite(all, ints.to_set());
        vstd::set_lib::lemma_len_subset(all, ints.to_set());
    }
}

/// Shortcuts over a node that was just written down have their source in its slices.
pub proof fn lemma_grown_sourced(
    rec: Recorded,
    rec2: Recorded,
    g: ArcLists,
    g1: ArcLists,
    done: Seq<NodeId>,
    input: Seq<Edge>,
    node: NodeId,
)
    requires
        rec.shaped(done),
        done.len() < rec.fast.num_nodes,
        node < rec.fast.num_nodes,
        rec.room(g, node),
        rec2 == rec.record(g, node, done.len() as int),
        rec2.arcs_sourced(g, done, done.push(node), input),
        grown(g, g1, node),
    ensures
        rec2.arcs_sourced(g1, done, done.push(node), input),
{
    let done2 = done.push(node);
    let k = done.len() as int;
    let ins = g.in_arcs[node as int];
    let outs = g.out_arcs[node as int];
    let lb = rec.fast.edges_bwd.len() as int;
    let lf = rec.fast.edges_fwd.len() as int;
    lemma_record_slices(rec, g, done, node);
    // a node with an arc in the grown graph had an arc before
    assert forall|u: int, i: int|
        #![trigger g1.out_arcs[u][i]]
        0 <= u < g1.num_nodes() && 0 <= i < g1.out_arcs[u].len() implies g.out_arcs[u].len() > 0 && (
    forall|j: int| 0 <= j < done.len() ==> g1.out_arcs[u][i].adj_node != #[trigger] done[j])
        && rec2.sourced(
        done2,
        input,
        done2.len() as int,
        u as usize,
        g1.out_arcs[u][i].adj_node,
        g1.out_arcs[u][i].weight,
        g1.out_arcs[u][i].center_node,
    ) by {
        let a = g1.out_arcs[u][i];
        if g.out_arcs[u].contains(a) {
            let m = choose|m: int| 0 <= m < g.out_arcs[u].len() && g.out_arcs[u][m] == a;
            assert(g.out_arcs[u][m] == a);
            assert forall|j: int| 0 <= j < done.len() implies a.adj_node != #[trigger] done[j] by {
                assert(g.out_arcs[u][m].adj_node != done[j]);
            }
        } else {
            let (p, q) = choose|p: int, q: int| #[trigger] bridges(g, node, p, q, u, a);
            assert(bridges(g, node, p, q, u, a));
            let twin = mirrored(ins[p], node as int);
            assert(g.in_arcs[node as int][p].adj_node == u);
            assert(g.out_arcs[u].contains(twin));
            assert forall|j: int| 0 <= j < done.len() implies a.adj_node != #[trigger] done[j] by {
                assert(g.out_arcs[node as int][q].adj_node != done[j]);
            }
            assert(rec2.fast.edges_bwd[lb + p] == edges_of(node, ins)[p]);
            assert(rec2.fast.edges_fwd[lf + q] == edges_of(node, outs)[q]);
            assert(in_slice(rec2.fast.first_edge_ids_bwd, k, lb + p));
            assert(in_slice(rec2.fast.first_edge_ids_fwd, k, lf + q));
            assert(rec2.joins(k, lb + p, lf + q, u as usize, a.adj_node, a.weight));
            assert(done2[k] == node);
        }
    }
    assert forall|j: int| 0 <= j < done.len() implies g1.out_arcs[(#[trigger] done[j]) as int].len()
        == 0 by {
        let u = done[j] as int;
        assert(g.out_arcs[u].len() == 0);
        if g1.out_arcs[u].len() > 0 {
            let a = g1.out_arcs[u][0];
            assert(g.out_arcs[u].len() > 0);
        }
    }
    assert forall|u: int, i: int, j: int|
        #![trigger g1.out_arcs[u][i], done[j]]
        0 <= u < g1.num_nodes() && 0 <= i < g1.out_arcs[u].len() && 0 <= j
            < done.len() implies g1.out_arcs[u][i].adj_node != done[j] by {}
}

/// Cutting out the node that was just written down leaves arcs between nodes that are
/// not contracted yet, each with its source.
pub proof fn lemma_disconnect_sourced(
    rec2: Recorded,
    g1: ArcLists,
    done: Seq<NodeId>,
    input: Seq<Edge>,
    node: NodeId,
)
    requires
        node < rec2.fast.num_nodes,
        rec2.arcs_sourced(g1, done, done.push(node), input),
        forall|j: int| 0 <= j < done.len() ==> #[trigger] done[j] < rec2.fast.num_nodes,
    ensures
        rec2.arcs_sourced(g1.disconnect(node), done.push(node), done.push(node), input),
{
    let done2 = done.push(node);
    let g2 = g1.disconnect(node);
    lemma_disconnect_consistent(g1, node);
    assert forall|u: int, i: int|
        #![trigger g2.out_arcs[u][i]]
        0 <= u < g2.num_nodes() && 0 <= i < g2.out_arcs[u].len() implies u != node
        && g2.out_arcs[u][i].adj_node != node && g1.out_arcs[u].contains(g2.out_arcs[u][i]) by {
        let a = g2.out_arcs[u][i];
        assert(g2.out_arcs[u].contains(a));
        lemma_without_contains(g1.out_arcs[u], node, a);
    }
    assert forall|j: int| 0 <= j < done2.len() implies g2.out_arcs[(#[trigger] done2[j]) as int].len()
        == 0 by {
        let u = done2[j] as int;
        if j < done.len() {
            assert(done2[j] == done[j]);
            assert(g1.out_arcs[u].len() == 0);
            if g2.out_arcs[u].len() > 0 {
                let a = g2.out_arcs[u][0];
                assert(g1.out_arcs[u].contains(a));
            }
        }
    }
    assert forall|u: int, i: int, j: int|
        #![trigger g2.out_arcs[u][i], done2[j]]
        0 <= u < g2.num_nodes() && 0 <= i < g2.out_arcs[u].len() && 0 <= j
            < done2.len() implies g2.out_arcs[u][i].adj_node != done2[j] by {
        let a = g2.out_arcs[u][i];
        let m = choose|m: int| 0 <= m < g1.out_arcs[u].len() && g1.out_arcs[u][m] == a;
        if j < done.len() {
            assert(g1.out_arcs[u][m].adj_node != done[j]);
        }
    }
    assert forall|u: int, i: int|
        #![trigger g2.out_arcs[u][i]]
        0 <= u < g2.num_nodes() && 0 <= i < g2.out_arcs[u].len() implies rec2.sourced(
        done2,
        input,
        done2.len() as int,
        u as usize,
        g2.out_arcs[u][i].adj_node,
        g2.out_arcs[u][i].weight,
        g2.out_arcs[u][i].center_node,
    ) by {
        let a = g2.out_arcs[u][i];
        let m = choose|m: int| 0 <= m < g1.out_arcs[u].len() && g1.out_arcs[u][m] == a;
        assert(g1.out_arcs[u][m] == a);
    }
}

/// The shortcut `f` of rank `r` replaces an edge from `u` and an edge to `v` of a node
/// of lower rank, whose weights add up to its own.
pub open spec fn replaces_in(rec: Recorded, r: int, f: FastGraphEdge, u: NodeId, v: NodeId) -> bool {
    exists|r2: int|
        0 <= r2 < r && #[trigger] rec.joins(
            r2,
            f.replaced_in_edge as int,
            f.replaced_out_edge as int,
            u,
            v,
            f.weight,
        )
}

/// The edges of node `c` that come from `u` and lead to `v` can be looked up: the node
/// has a slice, and the slice holds them.
pub open spec fn lookup_ok(rec: Recorded, c: NodeId, u: NodeId, v: NodeId) -> bool {
    let rank = rec.fast.ranks[c as int] as int;
    &&& c < rec.fast.ranks.len()
    &&& rank + 1 < rec.fast.first_edge_ids_bwd.len()
    &&& rank + 1 < rec.fast.first_edge_ids_fwd.len()
    &&& rec.fast.first_edge_ids_bwd[rank + 1] <= rec.fast.edges_bwd.len()
    &&& rec.fast.first_edge_ids_fwd[rank + 1] <= rec.fast.edges_fwd.len()
    &&& is_first_in_slice(
        adj_nodes(rec.fast.edges_bwd),
        rec.fast.first_edge_ids_bwd[rank] as int,
        rec.fast.first_edge_ids_bwd[rank + 1] as int,
        u,
        rec.in_edge_id(c, u),
    )
    &&& is_first_in_slice(
        adj_nodes(rec.fast.edges_fwd),
        rec.fast.first_edge_ids_fwd[rank] as int,
        rec.fast.first_edge_ids_fwd[rank + 1] as int,
        v,
        rec.out_edge_id(c, v),
    )
}

/// In a slice every node is found at one position only.
pub proof fn lemma_found_in_slice(
    rec: Recorded,
    done: Seq<NodeId>,
    edges: Seq<FastGraphEdge>,
    first: Seq<EdgeId>,
    r: int,
    e: int,
)
    requires
        rec.slices_ok(done, edges, first),
        0 <= r < done.len(),
        in_slice(first, r, e),
        0 <= e < edges.len(),
    ensures
        first_in_slice(adj_nodes(edges), first[r] as int, first[r + 1] as int, edges[e].adj_node) == e,
        is_first_in_slice(
            adj_nodes(edges),
            first[r] as int,
            first[r + 1] as int,
            edges[e].adj_node,
            e,
        ),
{
    let adjs = adj_nodes(edges);
    assert forall|x: int| first[r] <= x < e implies #[trigger] adjs[x] != edges[e].adj_node by {
        assert(in_slice(first, r, x));
        assert(edges[x].adj_node != edges[e].adj_node);
    }
    lemma_first_in_slice(adjs, first[r] as int, first[r + 1] as int, edges[e].adj_node, e);
}

/// The slices of a complete record lie within the edges.
pub proof fn lemma_slice_bounds(rec: Recorded, done: Seq<NodeId>, input: Seq<Edge>)
    requires
        rec.complete(done, input),
    ensures
        forall|r: int, e: int|
            0 <= r < done.len() && #[trigger] in_slice(rec.fast.first_edge_ids_fwd, r, e) ==> 0 <= e
                < rec.fast.edges_fwd.len(),
        forall|r: int, e: int|
            0 <= r < done.len() && #[trigger] in_slice(rec.fast.first_edge_ids_bwd, r, e) ==> 0 <= e
                < rec.fast.edges_bwd.len(),
{
    let k = done.len() as int;
    assert forall|r: int, e: int| 0 <= r < done.len() && #[trigger] in_slice(
        rec.fast.first_edge_ids_fwd,
        r,
        e,
    ) implies 0 <= e < rec.fast.edges_fwd.len() by {
        assert(rec.fast.first_edge_ids_fwd[0] <= rec.fast.first_edge_ids_fwd[r]);
        assert(rec.fast.first_edge_ids_fwd[r + 1] <= rec.fast.first_edge_ids_fwd[k]);
    }
    assert forall|r: int, e: int| 0 <= r < done.len() && #[trigger] in_slice(
        rec.fast.first_edge_ids_bwd,
        r,
        e,
    ) implies 0 <= e < rec.fast.edges_bwd.len() by {
        assert(rec.fast.first_edge_ids_bwd[0] <= rec.fast.first_edge_ids_bwd[r]);
        assert(rec.fast.first_edge_ids_bwd[r + 1] <= rec.fast.first_edge_ids_bwd[k]);
    }
}

/// What a leaving edge of rank `r` is told when the graph is finished.
pub proof fn lemma_finished_fwd(rec: Recorded, done: Seq<NodeId>, input: Seq<Edge>, r: int, e: int)
    requires
        rec.complete(done, input),
        0 <= r < done.len(),
        in_slice(rec.fast.first_edge_ids_fwd, r, e),
    ensures
        ({
            let f = rec.finished_fwd(e);
            let edge = rec.fast.edges_fwd[e];
            &&& 0 <= e < rec.fast.edges_fwd.len()
            &&& f.base_node == edge.base_node
            &&& f.adj_node == edge.adj_node
            &&& f.weight == edge.weight
            &&& f.wf()
            &&& !f.spec_is_shortcut() ==> input.contains(
                Edge { from: f.base_node, to: f.adj_node, weight: f.weight },
            )
            &&& f.spec_is_shortcut() ==> replaces_in(rec, r, f, f.base_node, f.adj_node)
            &&& f.spec_is_shortcut() <==> rec.centers_fwd[e] != INVALID_NODE
            &&& f.spec_is_shortcut() ==> lookup_ok(rec, rec.centers_fwd[e], f.base_node, f.adj_node)
        }),
{
    lemma_slice_bounds(rec, done, input);
    let f = rec.finished_fwd(e);
    let edge = rec.fast.edges_fwd[e];
    let c = rec.centers_fwd[e];
    assert(rec.sourced(done, input, r, edge.base_node, edge.adj_node, edge.weight, c));
    if c != INVALID_NODE {
        let (r2, e_in, e_out) = choose|r2: int, e_in: int, e_out: int|
            0 <= r2 < r && r2 < done.len() && done[r2] == c && #[trigger] rec.joins(
                r2,
                e_in,
                e_out,
                edge.base_node,
                edge.adj_node,
                edge.weight,
            );
        assert(rec.fast.ranks[done[r2] as int] == r2);
        lemma_found_in_slice(
            rec,
            done,
            rec.fast.edges_bwd,
            rec.fast.first_edge_ids_bwd,
            r2,
            e_in,
        );
        lemma_found_in_slice(
            rec,
            done,
            rec.fast.edges_fwd,
            rec.fast.first_edge_ids_fwd,
            r2,
            e_out,
        );
        assert(rec.in_edge_id(c, edge.base_node) == e_in);
        assert(rec.out_edge_id(c, edge.adj_node) == e_out);
        assert(rec.joins(
            r2,
            f.replaced_in_edge as int,
            f.replaced_out_edge as int,
            f.base_node,
            f.adj_node,
            f.weight,
        ));
    }
}

/// What an entering edge of rank `r` is told when the graph is finished.
pub proof fn lemma_finished_bwd(rec: Recorded, done: Seq<NodeId>, input: Seq<Edge>, r: int, e: int)
    requires
        rec.complete(done, input),
        0 <= r < done.len(),
        in_slice(rec.fast.first_edge_ids_bwd, r, e),
    ensures
        ({
            let f = rec.finished_bwd(e);
            let edge = rec.fast.edges_bwd[e];
            &&& 0 <= e < rec.fast.edges_bwd.len()
            &&& f.base_node == edge.base_node
            &&& f.adj_node == edge.adj_node
            &&& f.weight == edge.weight
            &&& f.wf()
            &&& !f.spec_is_shortcut() ==> input.contains(
                Edge { from: f.adj_node, to: f.base_node, weight: f.weight },
            )
            &&& f.spec_is_shortcut() ==> replaces_in(rec, r, f, f.adj_node, f.base_node)
            &&& f.spec_is_shortcut() <==> rec.centers_bwd[e] != INVALID_NODE
            &&& f.spec_is_shortcut() ==> lookup_ok(rec, rec.centers_bwd[e], f.adj_node, f.base_node)
        }),
{
    lemma_slice_bounds(rec, done, input);
    let f = rec.finished_bwd(e);
    let edge = rec.fast.edges_bwd[e];
    let c = rec.centers_bwd[e];
    assert(rec.sourced(done, input, r, edge.adj_node, edge.base_node, edge.weight, c));
    if c != INVALID_NODE {
        let (r2, e_in, e_out) = choose|r2: int, e_in: int, e_out: int|
            0 <= r2 < r && r2 < done.len() && done[r2] == c && #[trigger] rec.joins(
                r2,
                e_in,
                e_out,
                edge.adj_node,
                edge.base_node,
                edge.weight,
            );
        assert(rec.fast.ranks[done[r2] as int] == r2);
        lemma_found_in_slice(
            rec,
            done,
            rec.fast.edges_bwd,
            rec.fast.first_edge_ids_bwd,
            r2,
            e_in,
        );
        lemma_found_in_slice(
            rec,
            done,
            rec.fast.edges_fwd,
            rec.fast.first_edge_ids_fwd,
            r2,
            e_out,
        );
        assert(rec.in_edge_id(c, edge.adj_node) == e_in);
        assert(rec.out_edge_id(c, edge.base_node) == e_out);
        assert(rec.joins(
            r2,
            f.replaced_in_edge as int,
            f.replaced_out_edge as int,
            f.adj_node,
            f.base_node,
            f.weight,
        ));
    }
}

/// The ranks of a complete record are a permutation, and the inverse of the order of
/// contraction.
pub proof fn lemma_ranks(rec: Recorded, done: Seq<NodeId>, input: Seq<Edge>)
    requires
        rec.complete(done, input),
    ensures
        crate::fast_graph::is_permutation(rec.fast.ranks),
        forall|v: NodeId|
            v < done.len() ==> (#[trigger] rec.fast.ranks[v as int]) < done.len()
                && done[rec.fast.ranks[v as int] as int] == v,
{
    assert(crate::fast_graph::is_permutation(done)) by {
        assert forall|i: int, j: int|
            0 <= i < done.len() && 0 <= j < done.len() && i != j implies #[trigger] done[i]
            != #[trigger] done[j] by {
            if i < j {
                assert(done[i] != done[j]);
            } else {
                assert(done[j] != done[i]);
            }
        }
    }
    crate::fast_graph::lemma_every_rank(done);
    assert forall|v: NodeId| v < done.len() implies (#[trigger] rec.fast.ranks[v as int])
        < done.len() && done[rec.fast.ranks[v as int] as int] == v by {
        assert(done.contains(v));
        let j = choose|j: int| 0 <= j < done.len() && done[j] == v;
        assert(rec.fast.ranks[done[j] as int] == j);
    }
    assert forall|i: int| 0 <= i < rec.fast.ranks.len() implies #[trigger] rec.fast.ranks[i]
        < rec.fast.ranks.len() by {
        assert(rec.fast.ranks[(i as usize) as int] < done.len());
    }
    assert forall|i: int, j: int|
        0 <= i < rec.fast.ranks.len() && 0 <= j < rec.fast.ranks.len() && i
            != j implies #[trigger] rec.fast.ranks[i] != #[trigger] rec.fast.ranks[j] by {
        assert(done[rec.fast.ranks[(i as usize) as int] as int] == i);
        assert(done[rec.fast.ranks[(j as usize) as int] as int] == j);
    }
}

/// A finished edge of rank `r` leads from the node of that rank to a node of higher
/// rank.
pub proof fn lemma_finish_leads_up(
    rec: Recorded,
    done: Seq<NodeId>,
    input: Seq<Edge>,
    r: int,
    e: int,
    fwd: bool,
)
    requires
        rec.complete(done, input),
        0 <= r < done.len(),
        fwd ==> in_slice(rec.fast.first_edge_ids_fwd, r, e),
        !fwd ==> in_slice(rec.fast.first_edge_ids_bwd, r, e),
    ensures
        ({
            let fin = rec.finish();
            let edge = if fwd {
                fin.edges_fwd[e]
            } else {
                fin.edges_bwd[e]
            };
            &&& edge.base_node < fin.ranks.len()
            &&& fin.ranks[edge.base_node as int] == r
            &&& edge.adj_node < fin.ranks.len()
            &&& fin.ranks[edge.adj_node as int] > r
        }),
{
    lemma_ranks(rec, done, input);
    lemma_slice_bounds(rec, done, input);
    if fwd {
        lemma_finished_fwd(rec, done, input, r, e);
        let adj = rec.fast.edges_fwd[e].adj_node;
        let j = rec.fast.ranks[adj as int] as int;
        assert(done[j] == adj);
        if j <= r {
            assert(done[j] != rec.fast.edges_fwd[e].adj_node);
        }
        assert(rec.fast.ranks[done[r] as int] == r);
    } else {
        lemma_finished_bwd(rec, done, input, r, e);
        let adj = rec.fast.edges_bwd[e].adj_node;
        let j = rec.fast.ranks[adj as int] as int;
        assert(done[j] == adj);
        if j <= r {
            assert(done[j] != rec.fast.edges_bwd[e].adj_node);
        }
        assert(rec.fast.ranks[done[r] as int] == r);
    }
}

/// The edges that a finished shortcut of rank `r` replaces belong to a node of lower
/// rank, and make up the path that the shortcut stands for.
pub proof fn lemma_finish_children(
    rec: Recorded,
    done: Seq<NodeId>,
    input: Seq<Edge>,
    r: int,
    f: FastGraphEdge,
    u: NodeId,
    v: NodeId,
)
    requires
        rec.complete(done, input),
        0 <= r < done.len(),
        f.base_node == done[r],
        replaces_in(rec, r, f, u, v),
    ensures
        ({
            let fin = rec.finish();
            &&& f.replaced_in_edge < fin.edges_bwd.len()
            &&& f.replaced_out_edge < fin.edges_fwd.len()
            &&& f.base_node < fin.ranks.len()
            &&& fin.edges_bwd[f.replaced_in_edge as int].base_node < fin.ranks.len()
            &&& fin.edges_fwd[f.replaced_out_edge as int].base_node < fin.ranks.len()
            &&& fin.ranks[fin.edges_bwd[f.replaced_in_edge as int].base_node as int]
                < fin.ranks[f.base_node as int]
            &&& fin.ranks[fin.edges_fwd[f.replaced_out_edge as int].base_node as int]
                < fin.ranks[f.base_node as int]
            &&& fin.joined(f, u, v)
        }),
{
    let fin = rec.finish();
    let r2 = choose|r2: int|
        0 <= r2 < r && #[trigger] rec.joins(
            r2,
            f.replaced_in_edge as int,
            f.replaced_out_edge as int,
            u,
            v,
            f.weight,
        );
    lemma_finished_bwd(rec, done, input, r2, f.replaced_in_edge as int);
    lemma_finished_fwd(rec, done, input, r2, f.replaced_out_edge as int);
    assert(rec.fast.edges_bwd[f.replaced_in_edge as int].base_node == done[r2]);
    assert(rec.fast.edges_fwd[f.replaced_out_edge as int].base_node == done[r2]);
    assert(rec.fast.ranks[done[r2] as int] == r2);
    assert(rec.fast.ranks[done[r] as int] == r);
}

/// A finished leaving edge replaces edges of lower rank, and is an edge of the input
/// or stands for the path made of the edges it replaces.
pub proof fn lemma_finish_edge_fwd(rec: Recorded, done: Seq<NodeId>, input: Seq<Edge>, e: int)
    requires
        rec.complete(done, input),
        0 <= e < rec.fast.edges_fwd.len(),
    ensures
        ({
            let fin = rec.finish();
            let f = fin.edges_fwd[e];
            &&& fin.replaces_lower(f)
            &&& f.spec_is_shortcut() ==> fin.joined(f, f.base_node, f.adj_node)
            &&& !f.spec_is_shortcut() ==> input.contains(
                Edge { from: f.base_node, to: f.adj_node, weight: f.weight },
            )
        }),
{
    let n = done.len() as int;
    lemma_slice_of(rec.fast.first_edge_ids_fwd, n, e);
    let r = choose|r: int| 0 <= r < n && #[trigger] in_slice(rec.fast.first_edge_ids_fwd, r, e);
    lemma_finished_fwd(rec, done, input, r, e);
    let f = rec.finished_fwd(e);
    if f.spec_is_shortcut() {
        lemma_finish_children(rec, done, input, r, f, f.base_node, f.adj_node);
    }
}

/// A finished entering edge replaces edges of lower rank, and is an edge of the input
/// or stands for the path made of the edges it replaces.
pub proof fn lemma_finish_edge_bwd(rec: Recorded, done: Seq<NodeId>, input: Seq<Edge>, e: int)
    requires
        rec.complete(done, input),
        0 <= e < rec.fast.edges_bwd.len(),
    ensures
        ({
            let fin = rec.finish();
            let f = fin.edges_bwd[e];
            &&& fin.replaces_lower(f)
            &&& f.spec_is_shortcut() ==> fin.joined(f, f.adj_node, f.base_node)
            &&& !f.spec_is_shortcut() ==> input.contains(
                Edge { from: f.adj_node, to: f.base_node, weight: f.weight },
            )
        }),
{
    let n = done.len() as int;
    lemma_slice_of(rec.fast.first_edge_ids_bwd, n, e);
    let r = choose|r: int| 0 <= r < n && #[trigger] in_slice(rec.fast.first_edge_ids_bwd, r, e);
    lemma_finished_bwd(rec, done, input, r, e);
    let f = rec.finished_bwd(e);
    if f.spec_is_shortcut() {
        lemma_finish_children(rec, done, input, r, f, f.adj_node, f.base_node);
    }
}

/// A complete record, finished, is a well-formed prepared graph.
pub proof fn lemma_finish_wf(rec: Recorded, done: Seq<NodeId>, input: Seq<Edge>)
    requires
        rec.complete(done, input),
    ensures
        rec.finish().wf(),
{
    let fin = rec.finish();
    lemma_ranks(rec, done, input);
    assert(crate::fast_graph::cuts_slices(fin.first_edge_ids_fwd, fin.edges_fwd.len()));
    assert(crate::fast_graph::cuts_slices(fin.first_edge_ids_bwd, fin.edges_bwd.len()));
    assert(fin.slices_lead_up(fin.edges_fwd, fin.first_edge_ids_fwd)) by {
        assert forall|r: int, e: int|
            #![trigger fin.first_edge_ids_fwd[r], fin.edges_fwd[e]]
            0 <= r < fin.ranks.len() && fin.first_edge_ids_fwd[r] <= e < fin.first_edge_ids_fwd[r
                + 1] implies {
            &&& fin.edges_fwd[e].base_node < fin.ranks.len()
            &&& fin.ranks[fin.edges_fwd[e].base_node as int] == r
            &&& fin.edges_fwd[e].adj_node < fin.ranks.len()
            &&& fin.ranks[fin.edges_fwd[e].adj_node as int] > r
        } by {
            assert(in_slice(rec.fast.first_edge_ids_fwd, r, e));
            lemma_finish_leads_up(rec, done, input, r, e, true);
        }
    }
    assert(fin.slices_lead_up(fin.edges_bwd, fin.first_edge_ids_bwd)) by {
        assert forall|r: int, e: int|
            #![trigger fin.first_edge_ids_bwd[r], fin.edges_bwd[e]]
            0 <= r < fin.ranks.len() && fin.first_edge_ids_bwd[r] <= e < fin.first_edge_ids_bwd[r
                + 1] implies {
            &&& fin.edges_bwd[e].base_node < fin.ranks.len()
            &&& fin.ranks[fin.edges_bwd[e].base_node as int] == r
            &&& fin.edges_bwd[e].adj_node < fin.ranks.len()
            &&& fin.ranks[fin.edges_bwd[e].adj_node as int] > r
        } by {
            assert(in_slice(rec.fast.first_edge_ids_bwd, r, e));
            lemma_finish_leads_up(rec, done, input, r, e, false);
        }
    }
    assert forall|e: int| 0 <= e < fin.edges_fwd.len() implies fin.replaces_lower(
        #[trigger] fin.edges_fwd[e],
    ) by {
        lemma_finish_edge_fwd(rec, done, input, e);
    }
    assert forall|e: int| 0 <= e < fin.edges_bwd.len() implies fin.replaces_lower(
        #[trigger] fin.edges_bwd[e],
    ) by {
        lemma_finish_edge_bwd(rec, done, input, e);
    }
}

/// A complete record, finished, represents the input.
pub proof fn lemma_finish_represents(rec: Recorded, done: Seq<NodeId>, input: Seq<Edge>)
    requires
        rec.complete(done, input),
    ensures
        rec.finish().represents(input),
{
    let fin = rec.finish();
    assert forall|e: int| 0 <= e < fin.edges_fwd.len() implies {
        let edge = #[trigger] fin.edges_fwd[e];
        if edge.spec_is_shortcut() {
            fin.joined(edge, edge.base_node, edge.adj_node)
        } else {
            input.contains(Edge { from: edge.base_node, to: edge.adj_node, weight: edge.weight })
        }
    } by {
        lemma_finish_edge_fwd(rec, done, input, e);
    }
    assert forall|e: int| 0 <= e < fin.edges_bwd.len() implies {
        let edge = #[trigger] fin.edges_bwd[e];
        if edge.spec_is_shortcut() {
            fin.joined(edge, edge.adj_node, edge.base_node)
        } else {
            input.contains(Edge { from: edge.adj_node, to: edge.base_node, weight: edge.weight })
        }
    } by {
        lemma_finish_edge_bwd(rec, done, input, e);
    }
}

/// Whether one of the arcs leads to `adj`.
fn leads_to(arcs: &Vec<Arc>, adj: NodeId) -> (found: bool)
    ensures
        found == has_arc_to(arcs@, adj),
{
    let mut i: usize = 0;
    while i < arcs.len()
        invariant
            i <= arcs@.len(),
            forall|k: int| 0 <= k < i ==> (#[trigger] arcs@[k]).adj_node != adj,
        decreases arcs@.len() - i,
    {
        if arcs[i].adj_node == adj {
            return true;
        }
        i += 1;
    }
    false
}

/// The neighbors of `node`, each once.
fn collect_neighbors(graph: &PreparationGraph, node: NodeId) -> (neighbors: Vec<NodeId>)
    requires
        graph.wf(),
        graph@.wf(),
        node < graph@.num_nodes(),
    ensures
        neighbors@ == neighbors_of(graph@, node),
        forall|k: int| 0 <= k < neighbors@.len() ==> #[trigger] neighbors@[k] < graph@.num_nodes(),
{
    let out_edges = graph.get_out_edges(node);
    let in_edges = graph.get_in_edges(node);
    let mut neighbors: Vec<NodeId> = Vec::new();
    let mut i: usize = 0;
    while i < out_edges.len()
        invariant
            i <= out_edges@.len(),
            graph@.wf(),
            node < graph@.num_nodes(),
            out_edges@ == graph@.out_arcs[node as int],
            neighbors@ == adjs_of(out_edges@.take(i as int)),
            forall|k: int| 0 <= k < neighbors@.len() ==> #[trigger] neighbors@[k] < graph@.num_nodes(),
        decreases out_edges@.len() - i,
    {
        proof {
            assert(graph@.out_arcs[node as int][i as int].adj_node < graph@.num_nodes());
        }
        neighbors.push(out_edges[i].adj_node);
        i += 1;
        proof {
            assert(neighbors@ =~= adjs_of(out_edges@.take(i as int)));
        }
    }
    proof {
        assert(out_edges@.take(i as int) =~= out_edges@);
    }
    let mut i: usize = 0;
    while i < in_edges.len()
        invariant
            i <= in_edges@.len(),
            graph@.wf(),
            node < graph@.num_nodes(),
            out_edges@ == graph@.out_arcs[node as int],
            in_edges@ == graph@.in_arcs[node as int],
            neighbors@ == adjs_of(out_edges@) + fresh_adjs(in_edges@.take(i as int), out_edges@),
            forall|k: int| 0 <= k < neighbors@.len() ==> #[trigger] neighbors@[k] < graph@.num_nodes(),
        decreases in_edges@.len() - i,
    {
        let adj = in_edges[i].adj_node;
        proof {
            assert(graph@.in_arcs[node as int][i as int].adj_node < graph@.num_nodes());
            assert(in_edges@.take(i + 1).drop_last() =~= in_edges@.take(i as int));
        }
        if !leads_to(out_edges, adj) {
            neighbors.push(adj);
            proof {
                assert(neighbors@ =~= adjs_of(out_edges@) + fresh_adjs(
                    in_edges@.take(i + 1),
                    out_edges@,
                ));
            }
        }
        i += 1;
    }
    proof {
        assert(in_edges@.take(i as int) =~= in_edges@);
    }
    neighbors
}

/// After every node was contracted the graph has no arcs left.
pub proof fn lemma_all_contracted(rec: Recorded, graph: ArcLists, done: Seq<NodeId>, input: Seq<Edge>)
    requires
        rec.inv(graph, done, input),
        forall|v: NodeId| v < rec.fast.num_nodes ==> #[trigger] done.contains(v),
    ensures
        forall|u: int| 0 <= u < graph.out_arcs.len() ==> (#[trigger] graph.out_arcs[u]).len() == 0,
{
    assert forall|u: int| 0 <= u < graph.out_arcs.len() implies (#[trigger] graph.out_arcs[u]).len()
        == 0 by {
        assert(done.contains(u as usize));
        let j = choose|j: int| 0 <= j < done.len() && done[j] == u as usize;
        assert(graph.out_arcs[done[j] as int].len() == 0);
    }
}

/// Builds a prepared graph from an input graph: contracts the nodes one after the
/// other, writes down the edges each node has when its turn comes, and in the end
/// tells every shortcut which two edges it replaces.
pub struct FastGraphBuilder {
    fast_graph: FastGraph,
    num_nodes: usize,
    center_nodes_fwd: Vec<NodeId>,
    center_nodes_bwd: Vec<NodeId>,
}

impl View for FastGraphBuilder {
    type V = Recorded;

    closed spec fn view(&self) -> Recorded {
        Recorded {
            fast: self.fast_graph@,
            centers_fwd: self.center_nodes_fwd@,
            centers_bwd: self.center_nodes_bwd@,
        }
    }
}

impl FastGraphBuilder {
    closed spec fn wf(&self) -> bool {
        self.num_nodes == self.fast_graph.num_nodes
    }

    fn new(input_graph: &InputGraph) -> (builder: Self)
        requires
            input_graph.wf(),
            input_graph.is_frozen(),
        ensures
            builder.wf(),
            builder@ == Recorded::empty(input_graph.spec_num_nodes()),
    {
        FastGraphBuilder {
            fast_graph: FastGraph::new(input_graph.get_num_nodes()),
            num_nodes: input_graph.get_num_nodes(),
            center_nodes_fwd: Vec::new(),
            center_nodes_bwd: Vec::new(),
        }
    }

    /// Writes down `node` with the arcs it has now, and gives it the rank `rank`.
    fn record_node(&mut self, graph: &PreparationGraph, node: NodeId, rank: usize)
        requires
            old(self).wf(),
            graph.wf(),
            node < graph@.num_nodes(),
            node < old(self)@.fast.ranks.len(),
            rank + 1 < old(self)@.fast.first_edge_ids_fwd.len(),
            rank + 1 < old(self)@.fast.first_edge_ids_bwd.len(),
        ensures
            final(self).wf(),
            final(self)@ == old(self)@.record(graph@, node, rank as int),
            old(self)@.room(graph@, node),
    {
        let ghost before = self@;
        let out_edges = graph.get_out_edges(node);
        let mut i: usize = 0;
        while i < out_edges.len()
            invariant
                i <= out_edges@.len(),
                self.wf(),
                out_edges@ == graph@.out_arcs[node as int],
                self.fast_graph@.edges_fwd == before.fast.edges_fwd + edges_of(
                    node,
                    out_edges@.take(i as int),
                ),
                self.center_nodes_fwd@ == before.centers_fwd + centers_of(out_edges@.take(i as int)),
                self.fast_graph@.num_nodes == before.fast.num_nodes,
                self.fast_graph@.ranks == before.fast.ranks,
                self.fast_graph@.first_edge_ids_fwd == before.fast.first_edge_ids_fwd,
                self.fast_graph@.first_edge_ids_bwd == before.fast.first_edge_ids_bwd,
                self.fast_graph@.edges_bwd == before.fast.edges_bwd,
                self.center_nodes_bwd@ == before.centers_bwd,
            decreases out_edges@.len() - i,
        {
            let out_edge = out_edges[i];
            self.fast_graph.edges_fwd.push(
                FastGraphEdge::new(
                    node,
                    out_edge.adj_node,
                    out_edge.weight,
                    INVALID_EDGE,
                    INVALID_EDGE,
                ),
            );
            self.center_nodes_fwd.push(out_edge.center_node);
            proof {
                assert(out_edges@.take(i + 1) =~= out_edges@.take(i as int).push(out_edge));
                assert(self.fast_graph@.edges_fwd =~= before.fast.edges_fwd + edges_of(
                    node,
                    out_edges@.take(i + 1),
                ));
                assert(self.center_nodes_fwd@ =~= before.centers_fwd + centers_of(
                    out_edges@.take(i + 1),
                ));
            }
            i += 1;
        }
        proof {
            assert(out_edges@.take(i as int) =~= out_edges@);
        }
        let num_fwd = self.fast_graph.get_num_out_edges();
        let num_first = self.fast_graph.first_edge_ids_fwd.len();
        assert(rank + 1 < num_first);
        self.fast_graph.first_edge_ids_fwd[rank + 1] = num_fwd;
        let in_edges = graph.get_in_edges(node);
        let mut i: usize = 0;
        while i < in_edges.len()
            invariant
                i <= in_edges@.len(),
                self.wf(),
                in_edges@ == graph@.in_arcs[node as int],
                self.fast_graph@.edges_bwd == before.fast.edges_bwd + edges_of(
                    node,
                    in_edges@.take(i as int),
                ),
                self.center_nodes_bwd@ == before.centers_bwd + centers_of(in_edges@.take(i as int)),
                self.fast_graph@.num_nodes == before.fast.num_nodes,
                self.fast_graph@.ranks == before.fast.ranks,
                self.fast_graph@.first_edge_ids_fwd == before.fast.first_edge_ids_fwd.update(
                    rank + 1,
                    num_fwd,
                ),
                self.fast_graph@.first_edge_ids_bwd == before.fast.first_edge_ids_bwd,
                self.fast_graph@.edges_fwd == before.fast.edges_fwd + edges_of(
                    node,
                    graph@.out_arcs[node as int],
                ),
                self.center_nodes_fwd@ == before.centers_fwd + centers_of(
                    graph@.out_arcs[node as int],
                ),
            decreases in_edges@.len() - i,
        {
            let in_edge = in_edges[i];
            self.fast_graph.edges_bwd.push(
                FastGraphEdge::new(node, in_edge.adj_node, in_edge.weight, INVALID_EDGE, INVALID_EDGE),
            );
            self.center_nodes_bwd.push(in_edge.center_node);
            proof {
                assert(in_edges@.take(i + 1) =~= in_edges@.take(i as int).push(in_edge));
                assert(self.fast_graph@.edges_bwd =~= before.fast.edges_bwd + edges_of(
                    node,
                    in_edges@.take(i + 1),
                ));
                assert(self.center_nodes_bwd@ =~= before.centers_bwd + centers_of(
                    in_edges@.take(i + 1),
                ));
            }
            i += 1;
        }
        proof {
            assert(in_edges@.take(i as int) =~= in_edges@);
        }
        let num_bwd = self.fast_graph.get_num_in_edges();
        self.fast_graph.first_edge_ids_bwd[rank + 1] = num_bwd;
        self.fast_graph.ranks[node] = rank;
    }

    /// Contracts `node` as the next node: writes it down with the rank `rank`, adds the
    /// shortcuts that are needed without it, and cuts it out of the graph.
    fn contract_next(
        &mut self,
        graph: &mut PreparationGraph,
        witness_search: &mut WitnessSearch,
        node: NodeId,
        rank: usize,
        max_settled_nodes: usize,
        Ghost(done): Ghost<Seq<NodeId>>,
        Ghost(input): Ghost<Seq<Edge>>,
    )
        requires
            old(self).wf(),
            old(graph).wf(),
            old(witness_search).wf(),
            old(witness_search)@.labels.len() == old(graph)@.num_nodes(),
            old(self)@.inv(old(graph)@, done, input),
            ways_kept(old(self)@, old(graph)@, input),
            edges_held(old(self)@, old(graph)@, input),
            rank == done.len(),
            rank < old(self)@.fast.num_nodes,
            node < old(self)@.fast.num_nodes,
            forall|j: int| 0 <= j < done.len() ==> #[trigger] done[j] != node,
        ensures
            final(self).wf(),
            final(graph).wf(),
            ways_kept(final(self)@, final(graph)@, input),
            edges_held(final(self)@, final(graph)@, input),
            final(witness_search).wf(),
            final(witness_search)@.labels.len() == final(graph)@.num_nodes(),
            final(self)@.inv(final(graph)@, done.push(node), input),
            final(self)@.fast.num_nodes == old(self)@.fast.num_nodes,
            final(self)@ == old(self)@.record(old(graph)@, node, rank as int),
            final(graph)@ == handle(
                old(graph)@,
                old(witness_search)@,
                node,
                true,
                max_settled_nodes,
            ).graph.disconnect(node),
            final(witness_search)@ == handle(
                old(graph)@,
                old(witness_search)@,
                node,
                true,
                max_settled_nodes,
            ).search,
    {
        self.record_node(graph, node, rank);
        proof {
            lemma_record(old(self)@, graph@, done, input, node);
            lemma_ways_step(
                old(self)@,
                old(graph)@,
                old(witness_search)@,
                node,
                rank as int,
                max_settled_nodes,
                input,
            );
            lemma_held_step(
                old(self)@,
                old(graph)@,
                old(witness_search)@,
                node,
                rank as int,
                max_settled_nodes,
                input,
            );
        }
        contract_node(graph, witness_search, node, max_settled_nodes);
        proof {
            let g = old(graph)@;
            let g1 = handle(g, old(witness_search)@, node, true, max_settled_nodes).graph;
            lemma_grown_sourced(old(self)@, self@, g, g1, done, input, node);
            lemma_disconnect_sourced(self@, g1, done, input, node);
        }
    }

    /// Tells every edge which edges it replaces: none for an edge of the input; for a
    /// shortcut the two edges of its center node that it was made of.
    fn finish_contraction(&mut self, Ghost(done): Ghost<Seq<NodeId>>, Ghost(input): Ghost<Seq<Edge>>)
        requires
            old(self).wf(),
            old(self)@.complete(done, input),
        ensures
            final(self).wf(),
            final(self)@.fast == old(self)@.finish(),
    {
        let ghost rec = self@;
        let ghost n = done.len() as int;
        let num_fwd = self.fast_graph.edges_fwd.len();
        let mut e: usize = 0;
        while e < num_fwd
            invariant
                e <= num_fwd,
                self.wf(),
                rec.complete(done, input),
                n == done.len(),
                self.center_nodes_fwd@ == rec.centers_fwd,
                self.center_nodes_bwd@ == rec.centers_bwd,
                self.fast_graph@.num_nodes == rec.fast.num_nodes,
                self.fast_graph@.ranks == rec.fast.ranks,
                self.fast_graph@.first_edge_ids_fwd == rec.fast.first_edge_ids_fwd,
                self.fast_graph@.first_edge_ids_bwd == rec.fast.first_edge_ids_bwd,
                self.fast_graph@.edges_bwd == rec.fast.edges_bwd,
                self.fast_graph@.edges_fwd.len() == num_fwd,
                rec.fast.edges_fwd.len() == num_fwd,
                forall|x: int| 0 <= x < e ==> #[trigger] self.fast_graph@.edges_fwd[x] == rec.finished_fwd(x),
                forall|x: int|
                    e <= x < num_fwd ==> #[trigger] self.fast_graph@.edges_fwd[x] == rec.fast.edges_fwd[x],
            decreases num_fwd - e,
        {
            let c = self.center_nodes_fwd[e];
            let edge = self.fast_graph.edges_fwd[e];
            if c == INVALID_NODE {
                self.fast_graph.edges_fwd[e] = FastGraphEdge::new(
                    edge.base_node,
                    edge.adj_node,
                    edge.weight,
                    INVALID_EDGE,
                    INVALID_EDGE,
                );
            } else {
                proof {
                    lemma_slice_of(rec.fast.first_edge_ids_fwd, n, e as int);
                    let r = choose|r: int|
                        0 <= r < n && #[trigger] in_slice(rec.fast.first_edge_ids_fwd, r, e as int);
                    lemma_finished_fwd(rec, done, input, r, e as int);
                    assert(lookup_ok(rec, c, edge.base_node, edge.adj_node));
                    assert(adj_nodes(self.fast_graph@.edges_fwd) =~= adj_nodes(rec.fast.edges_fwd));
                }
                let replaced_in = self.get_in_edge_id(c, edge.base_node);
                let replaced_out = self.get_out_edge_id(c, edge.adj_node);
                self.fast_graph.edges_fwd[e] = FastGraphEdge::new(
                    edge.base_node,
                    edge.adj_node,
                    edge.weight,
                    replaced_in,
                    replaced_out,
                );
            }
            e += 1;
        }
        let num_bwd = self.fast_graph.edges_bwd.len();
        let ghost fwd_done = self.fast_graph@.edges_fwd;
        let mut e: usize = 0;
        while e < num_bwd
            invariant
                e <= num_bwd,
                self.wf(),
                rec.complete(done, input),
                n == done.len(),
                self.center_nodes_fwd@ == rec.centers_fwd,
                self.center_nodes_bwd@ == rec.centers_bwd,
                self.fast_graph@.num_nodes == rec.fast.num_nodes,
                self.fast_graph@.ranks == rec.fast.ranks,
                self.fast_graph@.first_edge_ids_fwd == rec.fast.first_edge_ids_fwd,
                self.fast_graph@.first_edge_ids_bwd == rec.fast.first_edge_ids_bwd,
                self.fast_graph@.edges_fwd == fwd_done,
                fwd_done.len() == rec.fast.edges_fwd.len(),
                forall|x: int| 0 <= x < fwd_done.len() ==> #[trigger] fwd_done[x] == rec.finished_fwd(x),
                self.fast_graph@.edges_bwd.len() == num_bwd,
                rec.fast.edges_bwd.len() == num_bwd,
                forall|x: int| 0 <= x < e ==> #[trigger] self.fast_graph@.edges_bwd[x] == rec.finished_bwd(x),
                forall|x: int|
                    e <= x < num_bwd ==> #[trigger] self.fast_graph@.edges_bwd[x] == rec.fast.edges_bwd[x],
            decreases num_bwd - e,
        {
            let c = self.center_nodes_bwd[e];
            let edge = self.fast_graph.edges_bwd[e];
            if c == INVALID_NODE {
                self.fast_graph.edges_bwd[e] = FastGraphEdge::new(
                    edge.base_node,
                    edge.adj_node,
                    edge.weight,
                    INVALID_EDGE,
                    INVALID_EDGE,
                );
            } else {
                proof {
                    lemma_slice_of(rec.fast.first_edge_ids_bwd, n, e as int);
                    let r = choose|r: int|
                        0 <= r < n && #[trigger] in_slice(rec.fast.first_edge_ids_bwd, r, e as int);
                    lemma_finished_bwd(rec, done, input, r, e as int);
                    assert(lookup_ok(rec, c, edge.adj_node, edge.base_node));
                    assert(adj_nodes(self.fast_graph@.edges_fwd) =~= adj_nodes(rec.fast.edges_fwd));
                    assert(adj_nodes(self.fast_graph@.edges_bwd) =~= adj_nodes(rec.fast.edges_bwd));
                }
                let replaced_in = self.get_in_edge_id(c, edge.adj_node);
                let replaced_out = self.get_out_edge_id(c, edge.base_node);
                self.fast_graph.edges_bwd[e] = FastGraphEdge::new(
                    edge.base_node,
                    edge.adj_node,
                    edge.weight,
                    replaced_in,
                    replaced_out,
                );
            }
            e += 1;
        }
        proof {
            assert(self.fast_graph@.edges_fwd =~= rec.finish().edges_fwd);
            assert(self.fast_graph@.edges_bwd =~= rec.finish().edges_bwd);
        }
    }

    /// The edge of `node` that leads to `adj_node`.
    fn get_out_edge_id(&self, node: NodeId, adj_node: NodeId) -> (edge_id: EdgeId)
        requires
            node < self.fast_graph@.ranks.len(),
            self.fast_graph@.ranks[node as int] + 1 < self.fast_graph@.first_edge_ids_fwd.len(),
            self.fast_graph@.first_edge_ids_fwd[self.fast_graph@.ranks[node as int] + 1]
                <= self.fast_graph@.edges_fwd.len(),
            exists|e: int|
                #[trigger] is_first_in_slice(
                    adj_nodes(self.fast_graph@.edges_fwd),
                    self.fast_graph@.first_edge_ids_fwd[self.fast_graph@.ranks[node as int] as int] as int,
                    self.fast_graph@.first_edge_ids_fwd[self.fast_graph@.ranks[node as int] + 1] as int,
                    adj_node,
                    e,
                ),
        ensures
            edge_id == self@.out_edge_id(node, adj_node),
    {
        let begin = self.fast_graph.begin_out_edges(node);
        let end = self.fast_graph.end_out_edges(node);
        let ghost adjs = adj_nodes(self.fast_graph@.edges_fwd);
        let mut edge_id = begin;
        while edge_id < end
            invariant
                begin <= edge_id,
                node < self.fast_graph@.ranks.len(),
                begin == self.fast_graph@.first_edge_ids_fwd[self.fast_graph@.ranks[node as int] as int],
                end == self.fast_graph@.first_edge_ids_fwd[self.fast_graph@.ranks[node as int] + 1],
                end <= self.fast_graph@.edges_fwd.len(),
                adjs == adj_nodes(self.fast_graph@.edges_fwd),
                forall|x: int| begin <= x < edge_id ==> #[trigger] adjs[x] != adj_node,
            decreases end - edge_id,
        {
            if self.fast_graph.edges_fwd[edge_id].adj_node == adj_node {
                proof {
                    lemma_first_in_slice(adjs, begin as int, end as int, adj_node, edge_id as int);
                }
                return edge_id;
            }
            edge_id += 1;
        }
        proof {
            let e = choose|e: int|
                #[trigger] is_first_in_slice(adjs, begin as int, end as int, adj_node, e);
            assert(adjs[e] != adj_node);
        }
        edge_id
    }

    /// The edge of `node` that comes from `adj_node`.
    fn get_in_edge_id(&self, node: NodeId, adj_node: NodeId) -> (edge_id: EdgeId)
        requires
            node < self.fast_graph@.ranks.len(),
            self.fast_graph@.ranks[node as int] + 1 < self.fast_graph@.first_edge_ids_bwd.len(),
            self.fast_graph@.first_edge_ids_bwd[self.fast_graph@.ranks[node as int] + 1]
                <= self.fast_graph@.edges_bwd.len(),
            exists|e: int|
                #[trigger] is_first_in_slice(
                    adj_nodes(self.fast_graph@.edges_bwd),
                    self.fast_graph@.first_edge_ids_bwd[self.fast_graph@.ranks[node as int] as int] as int,
                    self.fast_graph@.first_edge_ids_bwd[self.fast_graph@.ranks[node as int] + 1] as int,
                    adj_node,
                    e,
                ),
        ensures
            edge_id == self@.in_edge_id(node, adj_node),
    {
        let begin = self.fast_graph.begin_in_edges(node);
        let end = self.fast_graph.end_in_edges(node);
        let ghost adjs = adj_nodes(self.fast_graph@.edges_bwd);
        let mut edge_id = begin;
        while edge_id < end
            invariant
                begin <= edge_id,
                node < self.fast_graph@.ranks.len(),
                begin == self.fast_graph@.first_edge_ids_bwd[self.fast_graph@.ranks[node as int] as int],
                end == self.fast_graph@.first_edge_ids_bwd[self.fast_graph@.ranks[node as int] + 1],
                end <= self.fast_graph@.edges_bwd.len(),
                adjs == adj_nodes(self.fast_graph@.edges_bwd),
                forall|x: int| begin <= x < edge_id ==> #[trigger] adjs[x] != adj_node,
            decreases end - edge_id,
        {
            if self.fast_graph.edges_bwd[edge_id].adj_node == adj_node {
                proof {
                    lemma_first_in_slice(adjs, begin as int, end as int, adj_node, edge_id as int);
                }
                return edge_id;
            }
            edge_id += 1;
        }
        proof {
            let e = choose|e: int|
                #[trigger] is_first_in_slice(adjs, begin as int, end as int, adj_node, e);
            assert(adjs[e] != adj_node);
        }
        edge_id
    }

    /// Prepares the input graph with the default parameters.
    pub fn build(input_graph: &InputGraph) -> (fast_graph: FastGraph)
        requires
            input_graph.wf(),
            input_graph.is_frozen(),
        ensures
            fast_graph@.wf(),
            fast_graph@.represents(input_graph.spec_edges()),
            keeps_ways(fast_graph@, input_graph.spec_edges()),
            holds_edges(fast_graph@, input_graph.spec_edges()),
            fast_graph@.num_nodes == input_graph.spec_num_nodes(),
            fast_graph@ == prepared(
                input_graph.spec_edges(),
                input_graph.spec_num_nodes(),
                Params {
                    hierarchy_depth_permille: 100,
                    edge_quotient_permille: 1000,
                    max_settled_nodes_initial_relevance: 100,
                    max_settled_nodes_neighbor_relevance: 3,
                    max_settled_nodes_contraction: 100,
                },
            ),
    {
        FastGraphBuilder::build_with_params(input_graph, &Params::default())
    }

    /// Prepares the input graph: contracts the nodes in the order of their relevance,
    /// which is calculated anew for the neighbors of every node that is contracted.
    pub fn build_with_params(input_graph: &InputGraph, params: &Params) -> (fast_graph: FastGraph)
        requires
            input_graph.wf(),
            input_graph.is_frozen(),
        ensures
            fast_graph@.wf(),
            fast_graph@.represents(input_graph.spec_edges()),
            keeps_ways(fast_graph@, input_graph.spec_edges()),
            holds_edges(fast_graph@, input_graph.spec_edges()),
            fast_graph@.num_nodes == input_graph.spec_num_nodes(),
            fast_graph@ == prepared(
                input_graph.spec_edges(),
                input_graph.spec_num_nodes(),
                *params,
            ),
    {
        let mut builder = FastGraphBuilder::new(input_graph);
        builder.run_contraction(input_graph, params);
        builder.fast_graph
    }

    /// Contracts the nodes in the order of their relevance.
    fn run_contraction(&mut self, input_graph: &InputGraph, params: &Params)
        requires
            old(self).wf(),
            input_graph.wf(),
            input_graph.is_frozen(),
            old(self)@ == Recorded::empty(input_graph.spec_num_nodes()),
        ensures
            final(self).wf(),
            final(self)@.fast.wf(),
            final(self)@.fast.represents(input_graph.spec_edges()),
            final(self)@.fast == prepared(
                input_graph.spec_edges(),
                input_graph.spec_num_nodes(),
                *params,
            ),
            keeps_ways(final(self)@.fast, input_graph.spec_edges()),
            holds_edges(final(self)@.fast, input_graph.spec_edges()),
            final(self)@.fast.num_nodes == input_graph.spec_num_nodes(),
    {
        let ghost input = input_graph.spec_edges();
        let ghost n = input_graph.spec_num_nodes();
        let num_nodes = self.num_nodes;
        let mut preparation_graph = PreparationGraph::from_input_graph(input_graph);
        let mut witness_search = WitnessSearch::new(num_nodes);
        let mut levels: Vec<usize> = vec![0; num_nodes];
        let mut queue = queue_new();
        let ghost enqueued = Ranking::start(input, n).enqueue_from(*params, 0);
        let ghost goal = enqueued.contract_all(*params);
        proof {
            lemma_start(input, n);
            lemma_from_edges_consistent(input, n);
            lemma_start_ways(input, n);
            lemma_start_held(input, n);
            assert(levels@ =~= Seq::new(n as nat, |i: int| 0usize));
        }
        let mut node: usize = 0;
        while node < num_nodes
            invariant
                node <= num_nodes,
                num_nodes == n,
                self.wf(),
                self@ == Recorded::empty(n),
                ways_kept(self@, preparation_graph@, input),
                edges_held(self@, preparation_graph@, input),
                preparation_graph.wf(),
                preparation_graph@ == ArcLists::from_edges(input, n as nat),
                preparation_graph@.consistent(),
                preparation_graph@.num_nodes() == n,
                witness_search.wf(),
                witness_search@.labels.len() == n,
                levels@ == Seq::new(n as nat, |i: int| 0usize),
                forall|v: NodeId|
                    #![trigger queue_contents(queue).contains_key(v)]
                    queue_contents(queue).contains_key(v) <==> v < node,
                forall|v: NodeId|
                    queue_contents(queue).contains_key(v) ==> (#[trigger] queue_contents(queue)[v]).1
                        == usize::MAX - v,
                (Ranking {
                    prep: Preparation {
                        rec: self@,
                        graph: preparation_graph@,
                        search: witness_search@,
                    },
                    levels: levels@,
                    queue: queue_contents(queue),
                    done: Seq::empty(),
                }).enqueue_from(*params, node as int) == enqueued,
            decreases num_nodes - node,
        {
            let priority = calc_relevance(
                &mut preparation_graph,
                params,
                &mut witness_search,
                node,
                0,
                params.max_settled_nodes_initial_relevance,
            );
            queue_push(&mut queue, node, (usize::MAX - priority, usize::MAX - node));
            node += 1;
        }
        let ghost mut done: Seq<NodeId> = Seq::empty();
        let mut rank: usize = 0;
        while !queue_is_empty(&queue)
            invariant
                rank == done.len(),
                rank <= n,
                num_nodes == n,
                n < usize::MAX,
                self.wf(),
                self@.fast.num_nodes == n,
                preparation_graph.wf(),
                witness_search.wf(),
                witness_search@.labels.len() == preparation_graph@.num_nodes(),
                self@.inv(preparation_graph@, done, input),
                ways_kept(self@, preparation_graph@, input),
                edges_held(self@, preparation_graph@, input),
                levels@.len() == n,
                forall|x: int| 0 <= x < n ==> #[trigger] levels@[x] <= rank,
                forall|v: NodeId|
                    #![trigger queue_contents(queue).contains_key(v)]
                    queue_contents(queue).contains_key(v) <==> v < n && !done.contains(v),
                forall|v: NodeId|
                    queue_contents(queue).contains_key(v) ==> (#[trigger] queue_contents(queue)[v]).1
                        == usize::MAX - v,
                (Ranking {
                    prep: Preparation {
                        rec: self@,
                        graph: preparation_graph@,
                        search: witness_search@,
                    },
                    levels: levels@,
                    queue: queue_contents(queue),
                    done,
                }).contract_all(*params) == goal,
            decreases n - rank,
        {
            let ghost before = Ranking {
                prep: Preparation {
                    rec: self@,
                    graph: preparation_graph@,
                    search: witness_search@,
                },
                levels: levels@,
                queue: queue_contents(queue),
                done,
            };
            let ghost held = queue_contents(queue);
            let popped = queue_pop(&mut queue);
            proof {
                if popped is None {
                    assert(before.queue =~= no_nodes());
                }
            }
            let node = popped.unwrap().0;
            proof {
                lemma_top(before.queue, node);
                assert(before.queue.contains_key(node));
                assert(held.contains_key(node));
                assert(node < n && !done.contains(node));
                assert forall|i: int| 0 <= i < done.push(node).len() implies #[trigger] done.push(node)[i]
                    < n by {
                    if i < done.len() {
                        assert(done[i] < n);
                    }
                }
                assert forall|i: int, j: int| 0 <= i < j < done.push(node).len() implies #[trigger] done.push(
                    node,
                )[i] != #[trigger] done.push(node)[j] by {
                    if j == done.len() {
                        assert(done.contains(done[i]));
                    } else {
                        assert(done[i] != done[j]);
                    }
                }
                lemma_count_nodes(done.push(node), n);
                assert forall|j: int| 0 <= j < done.len() implies #[trigger] done[j] != node by {
                    assert(done.contains(done[j]));
                }
            }
            let neighbors = collect_neighbors(&preparation_graph, node);
            let next_level = levels[node] + 1;
            self.contract_next(
                &mut preparation_graph,
                &mut witness_search,
                node,
                rank,
                params.max_settled_nodes_contraction,
                Ghost(done),
                Ghost(input),
            );
            proof {
                done = done.push(node);
                assert(queue_contents(queue) == held.remove(node));
                assert forall|v: NodeId|
                    #![trigger queue_contents(queue).contains_key(v)]
                    queue_contents(queue).contains_key(v) <==> v < n && !done.contains(v) by {
                    lemma_push_contains(before.done, node, v);
                    assert(held.contains_key(v) <==> v < n && !before.done.contains(v));
                }
                assert forall|v: NodeId| queue_contents(queue).contains_key(v) implies (
                #[trigger] queue_contents(queue)[v]).1 == usize::MAX - v by {
                    assert(held.contains_key(v));
                    assert(held[v].1 == usize::MAX - v);
                }
            }
            let ghost contracted = Ranking {
                prep: Preparation {
                    rec: self@,
                    graph: preparation_graph@,
                    search: witness_search@,
                },
                levels: levels@,
                queue: queue_contents(queue),
                done,
            };
            let mut i: usize = 0;
            while i < neighbors.len()
                invariant
                    i <= neighbors@.len(),
                    rank + 1 == done.len(),
                    rank + 1 <= n,
                    num_nodes == n,
                    n < usize::MAX,
                    next_level <= rank + 1,
                    self.wf(),
                    self@.fast.num_nodes == n,
                    preparation_graph.wf(),
                    witness_search.wf(),
                    witness_search@.labels.len() == preparation_graph@.num_nodes(),
                    self@.inv(preparation_graph@, done, input),
                    ways_kept(self@, preparation_graph@, input),
                    edges_held(self@, preparation_graph@, input),
                    levels@.len() == n,
                    forall|k: int| 0 <= k < neighbors@.len() ==> #[trigger] neighbors@[k] < n,
                    forall|x: int| 0 <= x < n ==> #[trigger] levels@[x] <= rank + 1,
                    forall|v: NodeId|
                        #![trigger queue_contents(queue).contains_key(v)]
                        queue_contents(queue).contains_key(v) <==> v < n && !done.contains(v),
                    forall|v: NodeId|
                        queue_contents(queue).contains_key(v) ==> (#[trigger] queue_contents(
                            queue,
                        )[v]).1 == usize::MAX - v,
                    (Ranking {
                        prep: Preparation {
                            rec: self@,
                            graph: preparation_graph@,
                            search: witness_search@,
                        },
                        levels: levels@,
                        queue: queue_contents(queue),
                        done,
                    }).update_from(*params, neighbors@, i as int, next_level) == contracted.update_from(
                        *params,
                        neighbors@,
                        0,
                        next_level,
                    ),
                decreases neighbors@.len() - i,
            {
                let neighbor = neighbors[i];
                let ghost here = Ranking {
                    prep: Preparation {
                        rec: self@,
                        graph: preparation_graph@,
                        search: witness_search@,
                    },
                    levels: levels@,
                    queue: queue_contents(queue),
                    done,
                };
                if levels[neighbor] < next_level {
                    levels[neighbor] = next_level;
                }
                proof {
                    let raised = if here.levels[neighbor as int] < next_level {
                        next_level
                    } else {
                        here.levels[neighbor as int]
                    };
                    assert(levels@ =~= here.levels.update(neighbor as int, raised));
                }
                let ghost held_here = queue_contents(queue);
                let priority = calc_relevance(
                    &mut preparation_graph,
                    params,
                    &mut witness_search,
                    neighbor,
                    levels[neighbor],
                    params.max_settled_nodes_neighbor_relevance,
                );
                queue_change_priority(
                    &mut queue,
                    neighbor,
                    (usize::MAX - priority, usize::MAX - neighbor),
                );
                proof {
                    assert forall|v: NodeId|
                        #![trigger queue_contents(queue).contains_key(v)]
                        queue_contents(queue).contains_key(v) <==> v < n && !done.contains(v) by {
                        assert(held_here.contains_key(v) <==> v < n && !done.contains(v));
                    }
                    assert forall|v: NodeId| queue_contents(queue).contains_key(v) implies (
                    #[trigger] queue_contents(queue)[v]).1 == usize::MAX - v by {
                        assert(held_here.contains_key(v));
                        if v != neighbor {
                            assert(held_here[v].1 == usize::MAX - v);
                        }
                    }
                }
                i += 1;
            }
            proof {
                assert(before.contract_top(*params) == contracted.update_from(
                    *params,
                    neighbors@,
                    0,
                    next_level,
                ));
                assert(exists|v: NodeId| is_top(before.queue, v));
            }
            rank += 1;
        }
        proof {
            assert(queue_contents(queue) =~= no_nodes());
            assert forall|v: NodeId| v < n implies #[trigger] done.contains(v) by {
                assert(!queue_contents(queue).contains_key(v));
            }
            lemma_count_nodes(done, n);
            let last = Ranking {
                prep: Preparation {
                    rec: self@,
                    graph: preparation_graph@,
                    search: witness_search@,
                },
                levels: levels@,
                queue: queue_contents(queue),
                done,
            };
            assert(!exists|v: NodeId| is_top(last.queue, v));
            lemma_finish_wf(self@, done, input);
            lemma_finish_represents(self@, done, input);
            lemma_all_contracted(self@, preparation_graph@, done, input);
            lemma_finish_ways(self@, preparation_graph@, input);
            lemma_finish_held(self@, preparation_graph@, input);
        }
        self.finish_contraction(Ghost(done), Ghost(input));
    }

    /// Contracts the nodes in the given order.
    fn run_contraction_with_order(
        &mut self,
        input_graph: &InputGraph,
        order: &[NodeId],
        params: &ParamsWithOrder,
    )
        requires
            old(self).wf(),
            input_graph.wf(),
            input_graph.is_frozen(),
            old(self)@ == Recorded::empty(input_graph.spec_num_nodes()),
            order@.len() == input_graph.spec_num_nodes(),
            crate::fast_graph::is_permutation(order@),
        ensures
            final(self).wf(),
            final(self)@.fast.wf(),
            final(self)@.fast.represents(input_graph.spec_edges()),
            final(self)@.fast == prepared_with_order(
                input_graph.spec_edges(),
                input_graph.spec_num_nodes(),
                order@,
                params.max_settled_nodes_contraction_with_order,
            ),
            crate::fast_graph::orders(order@, final(self)@.fast.ranks),
            keeps_ways(final(self)@.fast, input_graph.spec_edges()),
            holds_edges(final(self)@.fast, input_graph.spec_edges()),
            final(self)@.fast.num_nodes == input_graph.spec_num_nodes(),
    {
        let ghost input = input_graph.spec_edges();
        let ghost n = input_graph.spec_num_nodes();
        let max_settled_nodes = params.max_settled_nodes_contraction_with_order;
        let mut preparation_graph = PreparationGraph::from_input_graph(input_graph);
        let mut witness_search = WitnessSearch::new(self.num_nodes);
        let ghost goal = Preparation::start(input, n).contract_from(order@, 0, max_settled_nodes);
        proof {
            lemma_start(input, n);
            lemma_from_edges_consistent(input, n);
            lemma_start_ways(input, n);
            lemma_start_held(input, n);
            assert(order@.take(0) =~= Seq::<NodeId>::empty());
        }
        let mut rank: usize = 0;
        while rank < order.len()
            invariant
                rank <= order@.len(),
                ways_kept(self@, preparation_graph@, input),
                edges_held(self@, preparation_graph@, input),
                order@.len() == n,
                crate::fast_graph::is_permutation(order@),
                self.wf(),
                preparation_graph.wf(),
                witness_search.wf(),
                witness_search@.labels.len() == preparation_graph@.num_nodes(),
                self@.fast.num_nodes == n,
                self@.inv(preparation_graph@, order@.take(rank as int), input),
                (Preparation {
                    rec: self@,
                    graph: preparation_graph@,
                    search: witness_search@,
                }).contract_from(order@, rank as int, max_settled_nodes) == goal,
            decreases order@.len() - rank,
        {
            let node = order[rank];
            proof {
                assert forall|j: int| 0 <= j < rank implies #[trigger] order@.take(rank as int)[j]
                    != node by {
                    assert(order@[j] != order@[rank as int]);
                }
                assert(order@.take(rank + 1) =~= order@.take(rank as int).push(node));
            }
            self.contract_next(
                &mut preparation_graph,
                &mut witness_search,
                node,
                rank,
                max_settled_nodes,
                Ghost(order@.take(rank as int)),
                Ghost(input),
            );
            rank += 1;
        }
        proof {
            assert(order@.take(rank as int) =~= order@);
            lemma_finish_wf(self@, order@, input);
            lemma_finish_represents(self@, order@, input);
            assert(crate::fast_graph::orders(order@, self@.fast.ranks)) by {
                assert forall|k: int| 0 <= k < order@.len() implies (#[trigger] order@[k])
                    < self@.fast.ranks.len() && self@.fast.ranks[order@[k] as int] == k by {}
            }
            assert(self@.finish().ranks == self@.fast.ranks);
            crate::fast_graph::lemma_every_rank(order@);
            lemma_all_contracted(self@, preparation_graph@, order@, input);
            lemma_finish_ways(self@, preparation_graph@, input);
            lemma_finish_held(self@, preparation_graph@, input);
        }
        self.finish_contraction(Ghost(order@), Ghost(input));
    }

    /// Prepares the input graph with the nodes contracted in the given order, which has
    /// to hold every node once.
    pub fn build_with_order(input_graph: &InputGraph, order: &[NodeId]) -> (result: Result<
        FastGraph,
        String,
    >)
        requires
            input_graph.wf(),
            input_graph.is_frozen(),
            order@.len() == input_graph.spec_num_nodes() ==> crate::fast_graph::is_permutation(order@),
        ensures
            result is Ok <==> order@.len() == input_graph.spec_num_nodes(),
            result matches Ok(fast_graph) ==> {
                &&& fast_graph@.wf()
                &&& fast_graph@.represents(input_graph.spec_edges())
                &&& fast_graph@ == prepared_with_order(
                    input_graph.spec_edges(),
                    input_graph.spec_num_nodes(),
                    order@,
                    100,
                )
                &&& crate::fast_graph::orders(order@, fast_graph@.ranks)
                &&& keeps_ways(fast_graph@, input_graph.spec_edges())
                &&& holds_edges(fast_graph@, input_graph.spec_edges())
                &&& fast_graph@.num_nodes == input_graph.spec_num_nodes()
            },
            result matches Err(message) ==> message@ == ORDER_MISMATCH@,
    {
        FastGraphBuilder::build_with_order_with_params(
            input_graph,
            order,
            &ParamsWithOrder::default(),
        )
    }

    /// Prepares the input graph with the nodes contracted in the given order, which has
    /// to hold every node once.
    pub fn build_with_order_with_params(
        input_graph: &InputGraph,
        order: &[NodeId],
        params: &ParamsWithOrder,
    ) -> (result: Result<FastGraph, String>)
        requires
            input_graph.wf(),
            input_graph.is_frozen(),
            order@.len() == input_graph.spec_num_nodes() ==> crate::fast_graph::is_permutation(order@),
        ensures
            result is Ok <==> order@.len() == input_graph.spec_num_nodes(),
            result matches Ok(fast_graph) ==> {
                &&& fast_graph@.wf()
                &&& fast_graph@.represents(input_graph.spec_edges())
                &&& fast_graph@ == prepared_with_order(
                    input_graph.spec_edges(),
                    input_graph.spec_num_nodes(),
                    order@,
                    params.max_settled_nodes_contraction_with_order,
                )
                &&& crate::fast_graph::orders(order@, fast_graph@.ranks)
                &&& keeps_ways(fast_graph@, input_graph.spec_edges())
                &&& holds_edges(fast_graph@, input_graph.spec_edges())
                &&& fast_graph@.num_nodes == input_graph.spec_num_nodes()
            },
            result matches Err(message) ==> message@ == ORDER_MISMATCH@,
    {
        if input_graph.get_num_nodes() != order.len() {
            return Err(ORDER_MISMATCH.to_owned());
        }
        let mut builder = FastGraphBuilder::new(input_graph);
        builder.run_contraction_with_order(input_graph, order, params);
        Ok(builder.fast_graph)
    }
}

/// What is said of an order that has not as many nodes as the graph.
pub const ORDER_MISMATCH: &'static str = "The given order must have as many nodes as the input graph";

} // verus!
