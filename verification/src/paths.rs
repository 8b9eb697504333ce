use vstd::prelude::*;

use crate::constants::NodeId;
use crate::constants::Weight;
use crate::fast_graph::FastGraphEdge;
use crate::fast_graph::FastGraphView;
use crate::input_graph::Edge;
use crate::path_calculator::edges_of_side;
use crate::path_calculator::unpacked;

verus! {

/// The nodes are a way through the graph of the given edges: an edge leads from each
/// node to the next, and the weights of these edges add up to `weight`.
pub open spec fn is_walk(input: Seq<Edge>, nodes: Seq<NodeId>, weight: int) -> bool
    decreases nodes.len(),
{
    if nodes.len() == 0 {
        false
    } else if nodes.len() == 1 {
        weight == 0
    } else {
        exists|w: Weight| #[trigger]
            input.contains(
                Edge { from: nodes[nodes.len() - 2], to: nodes[nodes.len() - 1], weight: w },
            ) && is_walk(input, nodes.drop_last(), weight - w)
    }
}

/// A way has a weight that is not negative.
pub proof fn lemma_walk_weight(input: Seq<Edge>, nodes: Seq<NodeId>, weight: int)
    requires
        is_walk(input, nodes, weight),
    ensures
        weight >= 0,
    decreases nodes.len(),
{
    if nodes.len() > 1 {
        let w = choose|w: Weight| #[trigger]
            input.contains(
                Edge { from: nodes[nodes.len() - 2], to: nodes[nodes.len() - 1], weight: w },
            ) && is_walk(input, nodes.drop_last(), weight - w);
        lemma_walk_weight(input, nodes.drop_last(), weight - w);
    }
}

/// An edge is a way from its start to its end.
pub proof fn lemma_walk_edge(input: Seq<Edge>, from: NodeId, to: NodeId, weight: Weight)
    requires
        input.contains(Edge { from, to, weight }),
    ensures
        is_walk(input, seq![from, to], weight as int),
{
    let nodes = seq![from, to];
    assert(nodes.drop_last() =~= seq![from]);
    assert(is_walk(input, nodes.drop_last(), 0));
    assert(input.contains(
        Edge { from: nodes[nodes.len() - 2], to: nodes[nodes.len() - 1], weight },
    ));
}

/// A way that ends where another begins goes on with the other.
pub proof fn lemma_walk_join(
    input: Seq<Edge>,
    first: Seq<NodeId>,
    first_weight: int,
    second: Seq<NodeId>,
    second_weight: int,
)
    requires
        is_walk(input, first, first_weight),
        is_walk(input, second, second_weight),
        first[first.len() - 1] == second[0],
    ensures
        is_walk(input, first + second.skip(1), first_weight + second_weight),
    decreases second.len(),
{
    if second.len() == 1 {
        assert(first + second.skip(1) =~= first);
    } else {
        let n = second.len() as int;
        let w = choose|w: Weight| #[trigger]
            input.contains(Edge { from: second[n - 2], to: second[n - 1], weight: w }) && is_walk(
                input,
                second.drop_last(),
                second_weight - w,
            );
        lemma_walk_join(input, first, first_weight, second.drop_last(), second_weight - w);
        let all = first + second.skip(1);
        assert(all.drop_last() =~= first + second.drop_last().skip(1));
        assert(all[all.len() - 1] == second[n - 1]);
        assert(all[all.len() - 2] == second[n - 2]);
        assert(input.contains(
            Edge { from: all[all.len() - 2], to: all[all.len() - 1], weight: w },
        ));
    }
}

/// The node that the path of an edge begins at.
pub open spec fn start_of(edge: FastGraphEdge, forward: bool) -> NodeId {
    if forward {
        edge.base_node
    } else {
        edge.adj_node
    }
}

/// The node that the path of an edge ends at.
pub open spec fn end_of_edge(edge: FastGraphEdge, forward: bool) -> NodeId {
    if forward {
        edge.adj_node
    } else {
        edge.base_node
    }
}

/// The nodes that an edge of a prepared graph is unpacked to are a way through the
/// input graph that the prepared graph represents: it begins where the edge begins,
/// leads, with the end of the edge added, to where the edge ends, and has the weight of
/// the edge.
pub proof fn lemma_unpacked_walk(g: FastGraphView, input: Seq<Edge>, forward: bool, edge_id: int)
    requires
        g.unpackable(),
        g.represents(input),
        0 <= edge_id < edges_of_side(g, forward).len(),
    ensures
        ({
            let edge = edges_of_side(g, forward)[edge_id];
            let nodes = unpacked(g, forward, edge_id, false);
            &&& nodes.len() > 0
            &&& nodes[0] == start_of(edge, forward)
            &&& is_walk(input, nodes.push(end_of_edge(edge, forward)), edge.weight as int)
        }),
    decreases
            (if forward {
                g.heights().0[edge_id]
            } else {
                g.heights().1[edge_id]
            }),
{
    g.lemma_heights();
    let edge = edges_of_side(g, forward)[edge_id];
    let nodes = unpacked(g, forward, edge_id, false);
    if forward {
        assert(edge == g.edges_fwd[edge_id]);
    } else {
        assert(edge == g.edges_bwd[edge_id]);
    }
    if !edge.spec_is_shortcut() {
        lemma_walk_edge(input, start_of(edge, forward), end_of_edge(edge, forward), edge.weight);
        assert(nodes.push(end_of_edge(edge, forward)) =~= seq![
            start_of(edge, forward),
            end_of_edge(edge, forward),
        ]);
    } else {
        let first = g.edges_bwd[edge.replaced_in_edge as int];
        let second = g.edges_fwd[edge.replaced_out_edge as int];
        assert(g.joined(edge, start_of(edge, forward), end_of_edge(edge, forward)));
        lemma_unpacked_walk(g, input, false, edge.replaced_in_edge as int);
        lemma_unpacked_walk(g, input, true, edge.replaced_out_edge as int);
        let a = unpacked(g, false, edge.replaced_in_edge as int, false);
        let b = unpacked(g, true, edge.replaced_out_edge as int, false);
        assert(nodes == a + b);
        let center = first.base_node;
        lemma_walk_join(
            input,
            a.push(center),
            first.weight as int,
            b.push(end_of_edge(edge, forward)),
            second.weight as int,
        );
        assert((a.push(center) + b.push(end_of_edge(edge, forward)).skip(1)) =~= (a + b).push(
            end_of_edge(edge, forward),
        ));
    }
}

/// Unpacking an edge the other way round gives the same nodes the other way round.
pub proof fn lemma_unpacked_reverse(g: FastGraphView, forward: bool, edge_id: int)
    requires
        g.unpackable(),
        0 <= edge_id < edges_of_side(g, forward).len(),
    ensures
        unpacked(g, forward, edge_id, true) == unpacked(g, forward, edge_id, false).reverse(),
    decreases
            (if forward {
                g.heights().0[edge_id]
            } else {
                g.heights().1[edge_id]
            }),
{
    g.lemma_heights();
    let edge = edges_of_side(g, forward)[edge_id];
    if forward {
        assert(edge == g.edges_fwd[edge_id]);
    } else {
        assert(edge == g.edges_bwd[edge_id]);
    }
    if !edge.spec_is_shortcut() {
        assert(unpacked(g, forward, edge_id, false).reverse() =~= unpacked(
            g,
            forward,
            edge_id,
            false,
        ));
    } else {
        lemma_unpacked_reverse(g, false, edge.replaced_in_edge as int);
        lemma_unpacked_reverse(g, true, edge.replaced_out_edge as int);
        let a = unpacked(g, false, edge.replaced_in_edge as int, false);
        let b = unpacked(g, true, edge.replaced_out_edge as int, false);
        assert((a + b).reverse() =~= b.reverse() + a.reverse());
    }
}

} // verus!
