use vstd::prelude::*;

use crate::constants::NodeId;
use crate::constants::Weight;
use crate::contraction_laws::arc_walk;
use crate::contraction_laws::has_arc;
use crate::contraction_laws::lemma_disconnect_walk;
use crate::contraction_laws::lemma_handle;
use crate::fast_graph::FastGraphEdge;
use crate::fast_graph::FastGraphView;
use crate::fast_graph_builder::edges_of;
use crate::fast_graph_builder::Recorded;
use crate::hierarchy_laws::has_up;
use crate::hierarchy_laws::kept;
use crate::hierarchy_laws::lemma_edge_is_arc;
use crate::input_graph::edges_valid;
use crate::input_graph::Edge;
use crate::least_laws::lemma_edge_slice;
use crate::node_contractor::handle;
use crate::path_calculator::lemma_leads_up;
use crate::preparation_graph::mirrored;
use crate::preparation_graph::ArcLists;
use crate::witness_search::WitnessState;

verus! {

/// The input edge is held with the weight `w`: as an arc of the graph of the nodes
/// that are not contracted yet, as a leaving edge of the node it comes from, or as an
/// entering edge of the node it leads to.
pub open spec fn held_with(
    fwd: Seq<FastGraphEdge>,
    bwd: Seq<FastGraphEdge>,
    graph: ArcLists,
    edge: Edge,
    w: Weight,
) -> bool {
    ||| has_arc(graph, edge.from, edge.to, w)
    ||| has_up(fwd, edge.from, edge.to, w)
    ||| has_up(bwd, edge.to, edge.from, w)
}

/// The input edge is held with its weight or less.
pub open spec fn holds_edge(rec: Recorded, graph: ArcLists, edge: Edge) -> bool {
    exists|w: Weight|
        w <= edge.weight && #[trigger] held_with(
            rec.fast.edges_fwd,
            rec.fast.edges_bwd,
            graph,
            edge,
            w,
        )
}

/// At this point of the preparation every edge of the input graph is held with its
/// weight or less.
#[verifier::opaque]
pub open spec fn edges_held(rec: Recorded, graph: ArcLists, input: Seq<Edge>) -> bool {
    forall|i: int| 0 <= i < input.len() ==> holds_edge(rec, graph, #[trigger] input[i])
}

/// The prepared graph holds every edge of the input graph at the node of lower rank,
/// with its weight or less: as a leaving edge of the node it comes from where that node
/// has the lower rank, and as an entering edge of the node it leads to otherwise.
pub open spec fn holds_edges(g: FastGraphView, input: Seq<Edge>) -> bool {
    forall|i: int|
        0 <= i < input.len() ==> {
            let edge = #[trigger] input[i];
            if g.ranks[edge.from as int] < g.ranks[edge.to as int] {
                exists|w: Weight| w <= edge.weight && #[trigger] has_up(g.edges_fwd, edge.from, edge.to, w)
            } else {
                exists|w: Weight| w <= edge.weight && #[trigger] has_up(g.edges_bwd, edge.to, edge.from, w)
            }
        }
}

/// Before the first contraction every edge of the input graph is an arc of the graph.
pub proof fn lemma_start_held(edges: Seq<Edge>, n: usize)
    requires
        edges_valid(edges, n),
    ensures
        edges_held(Recorded::empty(n), ArcLists::from_edges(edges, n as nat), edges),
{
    reveal(edges_held);
    let rec = Recorded::empty(n);
    let g = ArcLists::from_edges(edges, n as nat);
    assert forall|i: int| 0 <= i < edges.len() implies holds_edge(rec, g, #[trigger] edges[i]) by {
        lemma_edge_is_arc(edges, n, i);
        assert(held_with(rec.fast.edges_fwd, rec.fast.edges_bwd, g, edges[i], edges[i].weight));
    }
}

/// An edge that belongs to a node and leads to another goes on doing so where the
/// edges are kept.
pub proof fn lemma_has_up_kept(edges: Seq<FastGraphEdge>, more: Seq<FastGraphEdge>, u: NodeId, v: NodeId, w: Weight)
    requires
        kept(edges, more),
        has_up(edges, u, v, w),
    ensures
        has_up(more, u, v, w),
{
    let e = choose|e: int|
        0 <= e < edges.len() && (#[trigger] edges[e]).base_node == u && edges[e].adj_node == v
            && edges[e].weight == w;
    assert(more[e].base_node == u && more[e].adj_node == v && more[e].weight == w);
}

/// Contracting a node keeps an arc between two other nodes, with its weight or less.
proof fn lemma_arc_step(
    graph: ArcLists,
    search: WitnessState,
    node: NodeId,
    max_settled_nodes: usize,
    u: NodeId,
    v: NodeId,
    w: Weight,
)
    requires
        graph.consistent(),
        search.labels.len() == graph.num_nodes(),
        node < graph.num_nodes(),
        has_arc(graph, u, v, w),
        u != node,
        v != node,
    ensures
        exists|lw: Weight|
            lw <= w && #[trigger] has_arc(
                handle(graph, search, node, true, max_settled_nodes).graph.disconnect(node),
                u,
                v,
                lw,
            ),
{
    let after = handle(graph, search, node, true, max_settled_nodes).graph;
    let cut = after.disconnect(node);
    lemma_handle(graph, search, node, max_settled_nodes);
    let lw = choose|lw: Weight| lw <= w && #[trigger] has_arc(after, u, v, lw);
    let nodes = seq![u, v];
    assert(nodes.drop_last() =~= seq![u]);
    assert(arc_walk(after, nodes.drop_last(), lw - lw));
    assert(has_arc(after, nodes[nodes.len() - 2], nodes[nodes.len() - 1], lw));
    assert(arc_walk(after, nodes, lw as int));
    lemma_disconnect_walk(after, node, nodes, lw as int);
    let w2 = choose|w2: Weight| #[trigger]
        has_arc(cut, nodes[nodes.len() - 2], nodes[nodes.len() - 1], w2) && arc_walk(
            cut,
            nodes.drop_last(),
            lw - w2,
        );
    assert(w2 == lw);
    assert(has_arc(cut, u, v, lw));
}

/// Contracting a node keeps an edge of the input graph that is held, with the weight
/// it is held with or less.
proof fn lemma_edge_step(
    rec: Recorded,
    graph: ArcLists,
    search: WitnessState,
    node: NodeId,
    rank: int,
    max_settled_nodes: usize,
    edge: Edge,
    w: Weight,
)
    requires
        graph.consistent(),
        search.labels.len() == graph.num_nodes(),
        node < graph.num_nodes(),
        held_with(rec.fast.edges_fwd, rec.fast.edges_bwd, graph, edge, w),
    ensures
        exists|lw: Weight|
            lw <= w && #[trigger] held_with(
                rec.record(graph, node, rank).fast.edges_fwd,
                rec.record(graph, node, rank).fast.edges_bwd,
                handle(graph, search, node, true, max_settled_nodes).graph.disconnect(node),
                edge,
                lw,
            ),
{
    let rec2 = rec.record(graph, node, rank);
    let cut = handle(graph, search, node, true, max_settled_nodes).graph.disconnect(node);
    let fwd2 = rec2.fast.edges_fwd;
    let bwd2 = rec2.fast.edges_bwd;
    let outs = graph.out_arcs[node as int];
    let ins = graph.in_arcs[node as int];
    assert(kept(rec.fast.edges_fwd, fwd2));
    assert(kept(rec.fast.edges_bwd, bwd2));
    let u = edge.from;
    let v = edge.to;
    if has_up(rec.fast.edges_fwd, u, v, w) {
        lemma_has_up_kept(rec.fast.edges_fwd, fwd2, u, v, w);
        assert(held_with(fwd2, bwd2, cut, edge, w));
    } else if has_up(rec.fast.edges_bwd, v, u, w) {
        lemma_has_up_kept(rec.fast.edges_bwd, bwd2, v, u, w);
        assert(held_with(fwd2, bwd2, cut, edge, w));
    } else if u == node {
        let i = choose|i: int|
            0 <= i < outs.len() && (#[trigger] graph.out_arcs[node as int][i]).adj_node == v
                && graph.out_arcs[node as int][i].weight == w;
        let e = rec.fast.edges_fwd.len() + i;
        assert(fwd2[e] == edges_of(node, outs)[i]);
        assert(fwd2[e].base_node == node && fwd2[e].adj_node == v && fwd2[e].weight == w);
        assert(has_up(fwd2, node, v, w));
        assert(held_with(fwd2, bwd2, cut, edge, w));
    } else if v == node {
        let i = choose|i: int|
            0 <= i < graph.out_arcs[u as int].len() && (#[trigger] graph.out_arcs[u as int][i]).adj_node
                == node && graph.out_arcs[u as int][i].weight == w;
        let arc = graph.out_arcs[u as int][i];
        assert(ins.contains(mirrored(arc, u as int)));
        let j = choose|j: int| 0 <= j < ins.len() && ins[j] == mirrored(arc, u as int);
        let e = rec.fast.edges_bwd.len() + j;
        assert(bwd2[e] == edges_of(node, ins)[j]);
        assert(bwd2[e].base_node == node && bwd2[e].adj_node == u && bwd2[e].weight == w);
        assert(has_up(bwd2, node, u, w));
        assert(held_with(fwd2, bwd2, cut, edge, w));
    } else {
        lemma_arc_step(graph, search, node, max_settled_nodes, u, v, w);
        let lw = choose|lw: Weight| lw <= w && #[trigger] has_arc(cut, u, v, lw);
        assert(held_with(fwd2, bwd2, cut, edge, lw));
    }
}

/// Contracting a node keeps every edge of the input graph held.
pub proof fn lemma_held_step(
    rec: Recorded,
    graph: ArcLists,
    search: WitnessState,
    node: NodeId,
    rank: int,
    max_settled_nodes: usize,
    input: Seq<Edge>,
)
    requires
        graph.consistent(),
        search.labels.len() == graph.num_nodes(),
        node < graph.num_nodes(),
        edges_held(rec, graph, input),
    ensures
        edges_held(
            rec.record(graph, node, rank),
            handle(graph, search, node, true, max_settled_nodes).graph.disconnect(node),
            input,
        ),
{
    reveal(edges_held);
    let rec2 = rec.record(graph, node, rank);
    let cut = handle(graph, search, node, true, max_settled_nodes).graph.disconnect(node);
    assert forall|i: int| 0 <= i < input.len() implies holds_edge(rec2, cut, #[trigger] input[i]) by {
        assert(holds_edge(rec, graph, input[i]));
        let w = choose|w: Weight|
            w <= input[i].weight && #[trigger] held_with(
                rec.fast.edges_fwd,
                rec.fast.edges_bwd,
                graph,
                input[i],
                w,
            );
        lemma_edge_step(rec, graph, search, node, rank, max_settled_nodes, input[i], w);
        let lw = choose|lw: Weight|
            lw <= w && #[trigger] held_with(
                rec2.fast.edges_fwd,
                rec2.fast.edges_bwd,
                cut,
                input[i],
                lw,
            );
        assert(lw <= input[i].weight);
    }
}

/// In a well-formed graph an edge of a node leads to a node of higher rank.
pub proof fn lemma_up_rank(g: FastGraphView, forward: bool, u: NodeId, v: NodeId, w: Weight)
    requires
        g.wf(),
        has_up(crate::path_calculator::edges_of_side(g, forward), u, v, w),
    ensures
        u < g.num_nodes,
        v < g.num_nodes,
        g.ranks[u as int] < g.ranks[v as int],
{
    let edges = crate::path_calculator::edges_of_side(g, forward);
    let e = choose|e: int|
        0 <= e < edges.len() && (#[trigger] edges[e]).base_node == u && edges[e].adj_node == v
            && edges[e].weight == w;
    lemma_edge_slice(g, forward, e);
    lemma_leads_up(g, forward, u, e);
}

/// After the last contraction, the finished graph holds every edge of the input graph
/// at the node of lower rank.
pub proof fn lemma_finish_held(rec: Recorded, graph: ArcLists, input: Seq<Edge>)
    requires
        edges_held(rec, graph, input),
        forall|u: int| 0 <= u < graph.out_arcs.len() ==> (#[trigger] graph.out_arcs[u]).len() == 0,
        rec.finish().wf(),
    ensures
        holds_edges(rec.finish(), input),
{
    reveal(edges_held);
    let fin = rec.finish();
    assert(kept(rec.fast.edges_fwd, fin.edges_fwd));
    assert(kept(rec.fast.edges_bwd, fin.edges_bwd));
    assert forall|i: int| 0 <= i < input.len() implies {
        let edge = #[trigger] input[i];
        if fin.ranks[edge.from as int] < fin.ranks[edge.to as int] {
            exists|w: Weight| w <= edge.weight && #[trigger] has_up(fin.edges_fwd, edge.from, edge.to, w)
        } else {
            exists|w: Weight| w <= edge.weight && #[trigger] has_up(fin.edges_bwd, edge.to, edge.from, w)
        }
    } by {
        let edge = input[i];
        assert(holds_edge(rec, graph, edge));
        let w = choose|w: Weight|
            w <= edge.weight && #[trigger] held_with(
                rec.fast.edges_fwd,
                rec.fast.edges_bwd,
                graph,
                edge,
                w,
            );
        if has_arc(graph, edge.from, edge.to, w) {
            assert(graph.out_arcs[edge.from as int].len() == 0);
        } else if has_up(rec.fast.edges_fwd, edge.from, edge.to, w) {
            lemma_has_up_kept(rec.fast.edges_fwd, fin.edges_fwd, edge.from, edge.to, w);
            lemma_up_rank(fin, true, edge.from, edge.to, w);
        } else {
            lemma_has_up_kept(rec.fast.edges_bwd, fin.edges_bwd, edge.to, edge.from, w);
            lemma_up_rank(fin, false, edge.to, edge.from, w);
        }
    }
}

} // verus!
