use vstd::prelude::*;

use crate::constants::NodeId;
use crate::constants::Weight;
use crate::constants::WEIGHT_MAX;
use crate::contraction_laws::arc_walk;
use crate::contraction_laws::goes_around;
use crate::contraction_laws::has_arc;
use crate::contraction_laws::lemma_contract_keeps_ways;
use crate::contraction_laws::lemma_walk_weight;
use crate::fast_graph::FastGraphEdge;
use crate::fast_graph::FastGraphView;
use crate::fast_graph_builder::edges_of;
use crate::fast_graph_builder::Recorded;
use crate::input_graph::edges_valid;
use crate::input_graph::Edge;
use crate::node_contractor::handle;
use crate::paths::is_walk;
use crate::preparation_graph::mirrored;
use crate::preparation_graph::ArcLists;
use crate::witness_search::WitnessState;

verus! {

/// Among the edges there is one of weight `w` that belongs to `u` and leads to `v`.
pub open spec fn has_up(edges: Seq<FastGraphEdge>, u: NodeId, v: NodeId, w: Weight) -> bool {
    exists|e: int|
        0 <= e < edges.len() && (#[trigger] edges[e]).base_node == u && edges[e].adj_node == v
            && edges[e].weight == w
}

/// The nodes are a way up: an edge of each node leads to the next, and the weights of
/// these edges add up to `weight`.
pub open spec fn up_walk(edges: Seq<FastGraphEdge>, nodes: Seq<NodeId>, weight: int) -> bool
    decreases nodes.len(),
{
    if nodes.len() == 0 {
        false
    } else if nodes.len() == 1 {
        weight == 0
    } else {
        exists|w: Weight| #[trigger]
            has_up(edges, nodes[nodes.len() - 2], nodes[nodes.len() - 1], w) && up_walk(
                edges,
                nodes.drop_last(),
                weight - w,
            )
    }
}

/// A way up has a weight that is not negative.
pub proof fn lemma_up_weight(edges: Seq<FastGraphEdge>, nodes: Seq<NodeId>, weight: int)
    requires
        up_walk(edges, nodes, weight),
    ensures
        weight >= 0,
    decreases nodes.len(),
{
    if nodes.len() > 1 {
        let n = nodes.len() as int;
        let w = choose|w: Weight| #[trigger]
            has_up(edges, nodes[n - 2], nodes[n - 1], w) && up_walk(
                edges,
                nodes.drop_last(),
                weight - w,
            );
        lemma_up_weight(edges, nodes.drop_last(), weight - w);
    }
}

/// Every edge of `edges` is an edge of `more`, with the same nodes and weight.
pub open spec fn kept(edges: Seq<FastGraphEdge>, more: Seq<FastGraphEdge>) -> bool {
    &&& edges.len() <= more.len()
    &&& forall|e: int|
        0 <= e < edges.len() ==> (#[trigger] more[e]).base_node == edges[e].base_node
            && more[e].adj_node == edges[e].adj_node && more[e].weight == edges[e].weight
}

/// A way up stays a way up where the edges are kept.
pub proof fn lemma_up_kept(
    edges: Seq<FastGraphEdge>,
    more: Seq<FastGraphEdge>,
    nodes: Seq<NodeId>,
    weight: int,
)
    requires
        kept(edges, more),
        up_walk(edges, nodes, weight),
    ensures
        up_walk(more, nodes, weight),
    decreases nodes.len(),
{
    if nodes.len() > 1 {
        let n = nodes.len() as int;
        let w = choose|w: Weight| #[trigger]
            has_up(edges, nodes[n - 2], nodes[n - 1], w) && up_walk(
                edges,
                nodes.drop_last(),
                weight - w,
            );
        lemma_up_kept(edges, more, nodes.drop_last(), weight - w);
        let e = choose|e: int|
            0 <= e < edges.len() && (#[trigger] edges[e]).base_node == nodes[n - 2] && edges[e].adj_node
                == nodes[n - 1] && edges[e].weight == w;
        assert(more[e].base_node == nodes[n - 2]);
        assert(has_up(more, nodes[n - 2], nodes[n - 1], w));
    }
}

/// There is a way from `s` to `t` that goes up from `s`, then through the graph of the
/// nodes that are not contracted yet, and then down to `t`, and is not heavier than
/// `weight`. The way down is given from its end: as the way up from `t`.
pub open spec fn mixes(
    rec: Recorded,
    graph: ArcLists,
    s: NodeId,
    t: NodeId,
    weight: int,
    up: Seq<NodeId>,
    mid: Seq<NodeId>,
    down: Seq<NodeId>,
    up_weight: int,
    mid_weight: int,
    down_weight: int,
) -> bool {
    &&& up_walk(rec.fast.edges_fwd, up, up_weight)
    &&& up_walk(rec.fast.edges_bwd, down, down_weight)
    &&& arc_walk(graph, mid, mid_weight)
    &&& up[0] == s
    &&& down[0] == t
    &&& mid[0] == up[up.len() - 1]
    &&& mid[mid.len() - 1] == down[down.len() - 1]
    &&& up_weight + mid_weight + down_weight <= weight
}

pub open spec fn mixed(rec: Recorded, graph: ArcLists, s: NodeId, t: NodeId, weight: int) -> bool {
    exists|
        up: Seq<NodeId>,
        mid: Seq<NodeId>,
        down: Seq<NodeId>,
        up_weight: int,
        mid_weight: int,
        down_weight: int,
    | #[trigger]
        mixes(rec, graph, s, t, weight, up, mid, down, up_weight, mid_weight, down_weight)
}

/// For every way of finite weight through the input graph there is, at this point of
/// the preparation, a way between the same nodes that is not heavier, and goes up, then
/// through the graph of the nodes that are not contracted yet, and then down.
pub open spec fn ways_kept(rec: Recorded, graph: ArcLists, input: Seq<Edge>) -> bool {
    forall|nodes: Seq<NodeId>, weight: int| #[trigger]
        is_walk(input, nodes, weight) && weight < WEIGHT_MAX ==> mixed(
            rec,
            graph,
            nodes[0],
            nodes[nodes.len() - 1],
            weight,
        )
}

/// There is a way up from `s` and a way up from `t` that meet, and are together not
/// heavier than `weight`.
pub open spec fn meets(
    g: FastGraphView,
    s: NodeId,
    t: NodeId,
    weight: int,
    up: Seq<NodeId>,
    down: Seq<NodeId>,
    up_weight: int,
    down_weight: int,
) -> bool {
    &&& up_walk(g.edges_fwd, up, up_weight)
    &&& up_walk(g.edges_bwd, down, down_weight)
    &&& up[0] == s
    &&& down[0] == t
    &&& up[up.len() - 1] == down[down.len() - 1]
    &&& up_weight + down_weight <= weight
}

/// The prepared graph keeps the ways of the input graph: for every way of finite
/// weight through the input graph, from a node `s` to a node `t`, the prepared graph
/// has a way up from `s` over leaving edges and a way up from `t` over entering edges
/// that meet at a node, and are together not heavier. This is what makes it enough for
/// a query to search upwards from both ends.
pub open spec fn keeps_ways(g: FastGraphView, input: Seq<Edge>) -> bool {
    forall|nodes: Seq<NodeId>, weight: int| #[trigger]
        is_walk(input, nodes, weight) && weight < WEIGHT_MAX ==> exists|
            up: Seq<NodeId>,
            down: Seq<NodeId>,
            up_weight: int,
            down_weight: int,
        | #[trigger]
            meets(g, nodes[0], nodes[nodes.len() - 1], weight, up, down, up_weight, down_weight)
}

/// A way through the graph begins with an arc, and goes on with a way.
pub proof fn lemma_first_arc(g: ArcLists, nodes: Seq<NodeId>, weight: int)
    requires
        arc_walk(g, nodes, weight),
        nodes.len() >= 2,
    ensures
        exists|w: Weight| #[trigger]
            has_arc(g, nodes[0], nodes[1], w) && arc_walk(g, nodes.skip(1), weight - w),
    decreases nodes.len(),
{
    let n = nodes.len() as int;
    let w = choose|w: Weight| #[trigger]
        has_arc(g, nodes[n - 2], nodes[n - 1], w) && arc_walk(g, nodes.drop_last(), weight - w);
    if n == 2 {
        assert(nodes.skip(1) =~= seq![nodes[1]]);
        assert(arc_walk(g, nodes.skip(1), 0));
        assert(has_arc(g, nodes[0], nodes[1], w) && arc_walk(g, nodes.skip(1), weight - w));
    } else {
        lemma_first_arc(g, nodes.drop_last(), weight - w);
        let first = choose|first: Weight| #[trigger]
            has_arc(g, nodes.drop_last()[0], nodes.drop_last()[1], first) && arc_walk(
                g,
                nodes.drop_last().skip(1),
                weight - w - first,
            );
        let rest = nodes.skip(1);
        assert(rest.drop_last() =~= nodes.drop_last().skip(1));
        assert(has_arc(g, rest[rest.len() - 2], rest[rest.len() - 1], w) && arc_walk(
            g,
            rest.drop_last(),
            (weight - first) - w,
        ));
        assert(arc_walk(g, rest, weight - first));
        assert(has_arc(g, nodes[0], nodes[1], first) && arc_walk(g, nodes.skip(1), weight - first));
    }
}

/// Every edge of the input graph is an arc of the graph made of the edges.
pub proof fn lemma_edge_is_arc(edges: Seq<Edge>, n: usize, k: int)
    requires
        edges_valid(edges, n),
        0 <= k < edges.len(),
    ensures
        has_arc(ArcLists::from_edges(edges, n as nat), edges[k].from, edges[k].to, edges[k].weight),
        ArcLists::from_edges(edges, n as nat).out_arcs.len() == n,
        ArcLists::from_edges(edges, n as nat).in_arcs.len() == n,
    decreases edges.len(),
{
    let g = ArcLists::from_edges(edges, n as nat);
    let front = edges.drop_last();
    let last = edges.last();
    let f = ArcLists::from_edges(front, n as nat);
    assert forall|i: int| 0 <= i < front.len() implies {
        let x = #[trigger] front[i];
        x.from != x.to && x.weight >= 1 && x.from < n && x.to < n
    } by {
        assert(front[i] == edges[i]);
    }
    lemma_from_edges_len(front, n);
    assert(edges[edges.len() - 1] == last);
    if k == edges.len() - 1 {
        let arcs = g.out_arcs[last.from as int];
        assert(arcs[arcs.len() - 1].adj_node == last.to);
        assert(has_arc(g, last.from, last.to, last.weight));
    } else {
        lemma_edge_is_arc(front, n, k);
        assert(front[k] == edges[k]);
        let e = edges[k];
        let i = choose|i: int|
            0 <= i < f.out_arcs[e.from as int].len() && (#[trigger] f.out_arcs[e.from as int][i]).adj_node
                == e.to && f.out_arcs[e.from as int][i].weight == e.weight;
        assert(g.out_arcs[e.from as int][i] == f.out_arcs[e.from as int][i]);
        assert(has_arc(g, e.from, e.to, e.weight));
    }
}

/// The graph made of edges has its number of nodes.
pub proof fn lemma_from_edges_len(edges: Seq<Edge>, n: usize)
    requires
        edges_valid(edges, n),
    ensures
        ArcLists::from_edges(edges, n as nat).out_arcs.len() == n,
        ArcLists::from_edges(edges, n as nat).in_arcs.len() == n,
    decreases edges.len(),
{
    if edges.len() > 0 {
        let front = edges.drop_last();
        assert forall|i: int| 0 <= i < front.len() implies {
            let x = #[trigger] front[i];
            x.from != x.to && x.weight >= 1 && x.from < n && x.to < n
        } by {
            assert(front[i] == edges[i]);
        }
        lemma_from_edges_len(front, n);
        assert(edges[edges.len() - 1].from < n);
    }
}

/// A way through the input graph is a way through the graph made of its edges.
pub proof fn lemma_walk_is_arc_walk(edges: Seq<Edge>, n: usize, nodes: Seq<NodeId>, weight: int)
    requires
        edges_valid(edges, n),
        is_walk(edges, nodes, weight),
    ensures
        arc_walk(ArcLists::from_edges(edges, n as nat), nodes, weight),
    decreases nodes.len(),
{
    if nodes.len() > 1 {
        let m = nodes.len() as int;
        let w = choose|w: Weight| #[trigger]
            edges.contains(Edge { from: nodes[m - 2], to: nodes[m - 1], weight: w }) && is_walk(
                edges,
                nodes.drop_last(),
                weight - w,
            );
        lemma_walk_is_arc_walk(edges, n, nodes.drop_last(), weight - w);
        let edge = Edge { from: nodes[m - 2], to: nodes[m - 1], weight: w };
        let k = choose|k: int| 0 <= k < edges.len() && edges[k] == edge;
        lemma_edge_is_arc(edges, n, k);
        assert(has_arc(ArcLists::from_edges(edges, n as nat), nodes[m - 2], nodes[m - 1], w));
    }
}

/// Before the first contraction all ways of the input graph are there.
pub proof fn lemma_start_ways(edges: Seq<Edge>, n: usize)
    requires
        edges_valid(edges, n),
    ensures
        ways_kept(Recorded::empty(n), ArcLists::from_edges(edges, n as nat), edges),
{
    let rec = Recorded::empty(n);
    let g = ArcLists::from_edges(edges, n as nat);
    assert forall|nodes: Seq<NodeId>, weight: int| #[trigger]
        is_walk(edges, nodes, weight) && weight < WEIGHT_MAX implies mixed(
        rec,
        g,
        nodes[0],
        nodes[nodes.len() - 1],
        weight,
    ) by {
        lemma_walk_is_arc_walk(edges, n, nodes, weight);
        let up = seq![nodes[0]];
        let down = seq![nodes[nodes.len() - 1]];
        assert(up_walk(rec.fast.edges_fwd, up, 0));
        assert(up_walk(rec.fast.edges_bwd, down, 0));
        assert(mixes(rec, g, nodes[0], nodes[nodes.len() - 1], weight, up, nodes, down, 0, weight, 0));
    }
}

/// A way up goes on over an edge of its last node.
pub proof fn lemma_up_push(
    edges: Seq<FastGraphEdge>,
    nodes: Seq<NodeId>,
    weight: int,
    to: NodeId,
    w: Weight,
)
    requires
        up_walk(edges, nodes, weight),
        has_up(edges, nodes[nodes.len() - 1], to, w),
    ensures
        up_walk(edges, nodes.push(to), weight + w),
{
    let more = nodes.push(to);
    assert(more.drop_last() =~= nodes);
    assert(has_up(edges, more[more.len() - 2], more[more.len() - 1], w) && up_walk(
        edges,
        more.drop_last(),
        (weight + w) - w,
    ));
}

/// Contracting a node keeps a mixed way: the arcs of the node that the way begins or
/// ends with in the graph become edges of the way up or of the way down, and the rest
/// of the way through the graph has a way through the graph without the node that is
/// not heavier.
pub proof fn lemma_mixed_step(
    rec: Recorded,
    graph: ArcLists,
    search: WitnessState,
    node: NodeId,
    rank: int,
    max_settled_nodes: usize,
    s: NodeId,
    t: NodeId,
    weight: int,
)
    requires
        graph.consistent(),
        search.labels.len() == graph.num_nodes(),
        node < graph.num_nodes(),
        weight < WEIGHT_MAX,
        mixed(rec, graph, s, t, weight),
    ensures
        mixed(
            rec.record(graph, node, rank),
            handle(graph, search, node, true, max_settled_nodes).graph.disconnect(node),
            s,
            t,
            weight,
        ),
{
    let rec2 = rec.record(graph, node, rank);
    let cut = handle(graph, search, node, true, max_settled_nodes).graph.disconnect(node);
    let (up, mid, down, w1, w2, w3) = choose|
        up: Seq<NodeId>,
        mid: Seq<NodeId>,
        down: Seq<NodeId>,
        up_weight: int,
        mid_weight: int,
        down_weight: int,
    | #[trigger]
        mixes(rec, graph, s, t, weight, up, mid, down, up_weight, mid_weight, down_weight);
    let outs = graph.out_arcs[node as int];
    let ins = graph.in_arcs[node as int];
    let fwd2 = rec2.fast.edges_fwd;
    let bwd2 = rec2.fast.edges_bwd;
    assert(kept(rec.fast.edges_fwd, fwd2));
    assert(kept(rec.fast.edges_bwd, bwd2));
    lemma_up_kept(rec.fast.edges_fwd, fwd2, up, w1);
    lemma_up_kept(rec.fast.edges_bwd, bwd2, down, w3);
    lemma_up_weight(fwd2, up, w1);
    lemma_up_weight(bwd2, down, w3);
    lemma_walk_weight(graph, mid, w2);
    assert(!crate::preparation_graph::has_arc_to(outs, node));
    assert(!crate::preparation_graph::has_arc_to(ins, node));
    if mid.len() == 1 {
        assert(arc_walk(cut, mid, 0));
        assert(mixes(rec2, cut, s, t, weight, up, mid, down, w1, 0, w3));
    } else {
        // take the first arc to the way up where the way begins at the node
        let (up2, mid2, u1, m1) = if mid[0] == node {
            lemma_first_arc(graph, mid, w2);
            let w = choose|w: Weight| #[trigger]
                has_arc(graph, mid[0], mid[1], w) && arc_walk(graph, mid.skip(1), w2 - w);
            let i = choose|i: int|
                0 <= i < outs.len() && (#[trigger] graph.out_arcs[node as int][i]).adj_node == mid[1]
                    && graph.out_arcs[node as int][i].weight == w;
            let e = rec.fast.edges_fwd.len() + i;
            assert(fwd2[e] == edges_of(node, outs)[i]);
            assert(fwd2[e].base_node == node && fwd2[e].adj_node == mid[1] && fwd2[e].weight == w);
            assert(has_up(fwd2, node, mid[1], w));
            lemma_up_push(fwd2, up, w1, mid[1], w);
            assert(outs[i].adj_node != node);
            (up.push(mid[1]), mid.skip(1), w1 + w, w2 - w)
        } else {
            (up, mid, w1, w2)
        };
        assert(up_walk(fwd2, up2, u1));
        assert(arc_walk(graph, mid2, m1));
        assert(mid2[0] == up2[up2.len() - 1]);
        assert(mid2[0] != node);
        assert(mid2[mid2.len() - 1] == mid[mid.len() - 1]);
        lemma_walk_weight(graph, mid2, m1);
        // take the last arc to the way down where the way ends at the node
        if mid2.len() >= 2 && mid2[mid2.len() - 1] == node {
            let m = mid2.len() as int;
            let w = choose|w: Weight| #[trigger]
                has_arc(graph, mid2[m - 2], mid2[m - 1], w) && arc_walk(
                    graph,
                    mid2.drop_last(),
                    m1 - w,
                );
            let b = mid2[m - 2];
            let i = choose|i: int|
                0 <= i < graph.out_arcs[b as int].len() && (
                #[trigger] graph.out_arcs[b as int][i]).adj_node == node && graph.out_arcs[b as int][i].weight
                    == w;
            let arc = graph.out_arcs[b as int][i];
            assert(ins.contains(mirrored(arc, b as int)));
            let j = choose|j: int| 0 <= j < ins.len() && ins[j] == mirrored(arc, b as int);
            let e = rec.fast.edges_bwd.len() + j;
            assert(bwd2[e] == edges_of(node, ins)[j]);
            assert(bwd2[e].base_node == node && bwd2[e].adj_node == b && bwd2[e].weight == w);
            assert(has_up(bwd2, node, b, w));
            lemma_up_push(bwd2, down, w3, b, w);
            assert(ins[j].adj_node != node);
            let mid3 = mid2.drop_last();
            lemma_walk_weight(graph, mid3, m1 - w);
            lemma_contract_keeps_ways(graph, search, node, max_settled_nodes, mid3, m1 - w);
            let (around, wa) = choose|around: Seq<NodeId>, wa: int| #[trigger]
                goes_around(cut, mid3[0], mid3[mid3.len() - 1], node, m1 - w, around, wa);
            assert(mixes(rec2, cut, s, t, weight, up2, around, down.push(b), u1, wa, w3 + w));
        } else {
            assert(mid2[mid2.len() - 1] != node);
            lemma_contract_keeps_ways(graph, search, node, max_settled_nodes, mid2, m1);
            let (around, wa) = choose|around: Seq<NodeId>, wa: int| #[trigger]
                goes_around(cut, mid2[0], mid2[mid2.len() - 1], node, m1, around, wa);
            assert(mixes(rec2, cut, s, t, weight, up2, around, down, u1, wa, w3));
        }
    }
}

/// Contracting a node keeps all ways of the input graph.
pub proof fn lemma_ways_step(
    rec: Recorded,
    graph: ArcLists,
    search: WitnessState,
    node: NodeId,
    rank: int,
    max_settled_nodes: usize,
    input: Seq<Edge>,
)
    requires
        graph.consistent(),
        search.labels.len() == graph.num_nodes(),
        node < graph.num_nodes(),
        ways_kept(rec, graph, input),
    ensures
        ways_kept(
            rec.record(graph, node, rank),
            handle(graph, search, node, true, max_settled_nodes).graph.disconnect(node),
            input,
        ),
{
    let rec2 = rec.record(graph, node, rank);
    let cut = handle(graph, search, node, true, max_settled_nodes).graph.disconnect(node);
    assert forall|nodes: Seq<NodeId>, weight: int| #[trigger]
        is_walk(input, nodes, weight) && weight < WEIGHT_MAX implies mixed(
        rec2,
        cut,
        nodes[0],
        nodes[nodes.len() - 1],
        weight,
    ) by {
        lemma_mixed_step(
            rec,
            graph,
            search,
            node,
            rank,
            max_settled_nodes,
            nodes[0],
            nodes[nodes.len() - 1],
            weight,
        );
    }
}

/// Through a graph without arcs there are no ways but those of one node.
pub proof fn lemma_no_arcs(graph: ArcLists, nodes: Seq<NodeId>, weight: int)
    requires
        forall|u: int| 0 <= u < graph.out_arcs.len() ==> (#[trigger] graph.out_arcs[u]).len() == 0,
        arc_walk(graph, nodes, weight),
    ensures
        nodes.len() == 1,
        weight == 0,
{
    if nodes.len() > 1 {
        let n = nodes.len() as int;
        let w = choose|w: Weight| #[trigger]
            has_arc(graph, nodes[n - 2], nodes[n - 1], w) && arc_walk(
                graph,
                nodes.drop_last(),
                weight - w,
            );
        assert(graph.out_arcs[nodes[n - 2] as int].len() == 0);
    }
}

/// After the last contraction, the finished graph keeps the ways of the input graph.
pub proof fn lemma_finish_ways(rec: Recorded, graph: ArcLists, input: Seq<Edge>)
    requires
        ways_kept(rec, graph, input),
        forall|u: int| 0 <= u < graph.out_arcs.len() ==> (#[trigger] graph.out_arcs[u]).len() == 0,
    ensures
        keeps_ways(rec.finish(), input),
{
    let fin = rec.finish();
    assert(kept(rec.fast.edges_fwd, fin.edges_fwd));
    assert(kept(rec.fast.edges_bwd, fin.edges_bwd));
    assert forall|nodes: Seq<NodeId>, weight: int| #[trigger]
        is_walk(input, nodes, weight) && weight < WEIGHT_MAX implies exists|
        up: Seq<NodeId>,
        down: Seq<NodeId>,
        up_weight: int,
        down_weight: int,
    | #[trigger]
        meets(fin, nodes[0], nodes[nodes.len() - 1], weight, up, down, up_weight, down_weight) by {
        let s = nodes[0];
        let t = nodes[nodes.len() - 1];
        assert(mixed(rec, graph, s, t, weight));
        let (up, mid, down, w1, w2, w3) = choose|
            up: Seq<NodeId>,
            mid: Seq<NodeId>,
            down: Seq<NodeId>,
            up_weight: int,
            mid_weight: int,
            down_weight: int,
        | #[trigger]
            mixes(rec, graph, s, t, weight, up, mid, down, up_weight, mid_weight, down_weight);
        lemma_no_arcs(graph, mid, w2);
        lemma_up_kept(rec.fast.edges_fwd, fin.edges_fwd, up, w1);
        lemma_up_kept(rec.fast.edges_bwd, fin.edges_bwd, down, w3);
        assert(meets(fin, s, t, weight, up, down, w1, w3));
    }
}

} // verus!
