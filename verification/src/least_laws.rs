use vstd::prelude::*;

use crate::constants::NodeId;
use crate::constants::Weight;
use crate::constants::INVALID_NODE;
use crate::constants::WEIGHT_MAX;
use crate::fast_graph::FastGraphEdge;
use crate::fast_graph::FastGraphView;
use crate::fast_graph_builder::in_slice;
use crate::fast_graph_builder::lemma_slice_of;
use crate::hierarchy_laws::has_up;
use crate::hierarchy_laws::keeps_ways;
use crate::hierarchy_laws::lemma_up_weight;
use crate::hierarchy_laws::meets;
use crate::hierarchy_laws::up_walk;
use crate::input_graph::Edge;
use crate::labels::label_settled;
use crate::labels::label_weight;
use crate::labels::Label;
use crate::path_calculator::begin_of;
use crate::path_calculator::edges_of_side;
use crate::path_calculator::end_of;
use crate::path_calculator::lemma_leads_up;
use crate::path_calculator::lemma_single_end;
use crate::path_calculator::pair_query_result;
use crate::path_calculator::query_result;
use crate::path_calculator::stalls_from;
use crate::path_calculator::start_pair_query;
use crate::path_calculator::unpacked;
use crate::path_calculator::Query;
use crate::path_calculator::Side;
use crate::paths::end_of_edge;
use crate::paths::start_of;
use crate::search_order::meets_known;
use crate::paths::is_walk;
use crate::paths::lemma_unpacked_walk;
use crate::paths::lemma_walk_join;
use crate::paths::lemma_walk_weight;
use crate::query_laws::connected;
use crate::query_laws::connects;
use crate::query_laws::leads;
use crate::query_laws::lemma_base_node;
use crate::query_laws::lemma_meet;
use crate::query_laws::lemma_reachable_more;
use crate::query_laws::lemma_run_sound;
use crate::query_laws::lemma_start_sound;
use crate::query_laws::query_sound;
use crate::query_laws::reachable;
use crate::query_laws::side_sound;
use crate::search_order::in_order;
use crate::search_order::lemma_run_order;
use crate::search_order::lemma_start_order;
use crate::search_order::no_heavier_repeat;
use crate::search_order::seeded;
use crate::search_order::stallable;
use crate::search_order::tidy;

verus! {

/// Every edge lies among the edges of its base node.
pub proof fn lemma_edge_slice(g: FastGraphView, forward: bool, e: int)
    requires
        g.wf(),
        0 <= e < edges_of_side(g, forward).len(),
    ensures
        edges_of_side(g, forward)[e].base_node < g.num_nodes,
        begin_of(g, edges_of_side(g, forward)[e].base_node, forward) <= e < end_of(
            g,
            edges_of_side(g, forward)[e].base_node,
            forward,
        ),
{
    let n = g.num_nodes as int;
    if forward {
        let first = g.first_edge_ids_fwd;
        lemma_slice_of(first, n, e);
        let r = choose|r: int| 0 <= r < n && #[trigger] in_slice(first, r, e);
        assert(first[r] <= e < first[r + 1]);
        assert(crate::fast_graph::leads_up(g.ranks, g.edges_fwd[e], r));
    } else {
        let first = g.first_edge_ids_bwd;
        lemma_slice_of(first, n, e);
        let r = choose|r: int| 0 <= r < n && #[trigger] in_slice(first, r, e);
        assert(first[r] <= e < first[r + 1]);
        assert(crate::fast_graph::leads_up(g.ranks, g.edges_bwd[e], r));
    }
}

/// The path that an edge stands for is a way through the input graph, from where the
/// edge begins to where it ends, with the weight of the edge.
pub proof fn lemma_edge_way(g: FastGraphView, input: Seq<Edge>, forward: bool, e: int) -> (over: Seq<NodeId>)
    requires
        g.wf(),
        g.represents(input),
        0 <= e < edges_of_side(g, forward).len(),
    ensures
        is_walk(input, over, edges_of_side(g, forward)[e].weight as int),
        over.len() >= 2,
        over[0] == start_of(edges_of_side(g, forward)[e], forward),
        over[over.len() - 1] == end_of_edge(edges_of_side(g, forward)[e], forward),
{
    g.lemma_wf_unpackable();
    lemma_unpacked_walk(g, input, forward, e);
    unpacked(g, forward, e, false).push(end_of_edge(edges_of_side(g, forward)[e], forward))
}

/// A way between a seed of a search and `from` goes on with a way between `from` and
/// `to`.
pub proof fn lemma_reach_join(
    input: Seq<Edge>,
    seeds: Seq<(NodeId, Weight)>,
    forward: bool,
    from: NodeId,
    to: NodeId,
    over: Seq<NodeId>,
    over_weight: int,
    weight: int,
)
    requires
        is_walk(input, over, over_weight),
        over[0] == (if forward {
            from
        } else {
            to
        }),
        over[over.len() - 1] == (if forward {
            to
        } else {
            from
        }),
        reachable(input, seeds, forward, from, weight),
    ensures
        reachable(input, seeds, forward, to, weight + over_weight),
{
    let (k, nodes, w) = choose|k: int, nodes: Seq<NodeId>, w: int| #[trigger]
        leads(input, seeds, forward, from, weight, k, nodes, w);
    if forward {
        lemma_walk_join(input, nodes, w, over, over_weight);
        let all = nodes + over.skip(1);
        assert(all[0] == nodes[0]);
        if over.len() == 1 {
            assert(all =~= nodes);
        } else {
            assert(all[all.len() - 1] == over[over.len() - 1]);
        }
        assert(leads(input, seeds, forward, to, weight + over_weight, k, all, w + over_weight));
    } else {
        lemma_walk_join(input, over, over_weight, nodes, w);
        let all = over + nodes.skip(1);
        assert(all[0] == over[0]);
        if nodes.len() == 1 {
            assert(all =~= over);
        } else {
            assert(all[all.len() - 1] == nodes[nodes.len() - 1]);
        }
        assert(leads(input, seeds, forward, to, weight + over_weight, k, all, over_weight + w));
    }
}

/// Where the search can reach the node that an edge of the other direction leads to,
/// it can reach the base node of that edge over the edge.
pub proof fn lemma_reach_back(
    g: FastGraphView,
    input: Seq<Edge>,
    seeds: Seq<(NodeId, Weight)>,
    forward: bool,
    node: NodeId,
    e: int,
    weight: int,
)
    requires
        g.wf(),
        g.represents(input),
        node < g.num_nodes,
        begin_of(g, node, !forward) <= e < end_of(g, node, !forward),
        reachable(input, seeds, forward, edges_of_side(g, !forward)[e].adj_node, weight),
    ensures
        reachable(input, seeds, forward, node, weight + edges_of_side(g, !forward)[e].weight),
{
    lemma_base_node(g, !forward, node, e);
    let edge = edges_of_side(g, !forward)[e];
    let over = lemma_edge_way(g, input, !forward, e);
    lemma_reach_join(input, seeds, forward, edge.adj_node, node, over, edge.weight as int, weight);
}

/// The prepared graph is well formed and stands for the input graph.
#[verifier::opaque]
pub open spec fn stands_for(g: FastGraphView, input: Seq<Edge>) -> bool {
    g.wf() && g.represents(input)
}

/// Where the search can reach a node, it can reach the node that an edge of that node
/// leads to over the edge.
pub proof fn lemma_reach_on(
    g: FastGraphView,
    input: Seq<Edge>,
    seeds: Seq<(NodeId, Weight)>,
    forward: bool,
    node: NodeId,
    e: int,
    weight: int,
)
    requires
        stands_for(g, input),
        node < g.num_nodes,
        begin_of(g, node, forward) <= e < end_of(g, node, forward),
        reachable(input, seeds, forward, node, weight),
    ensures
        reachable(input, seeds, forward, edges_of_side(g, forward)[e].adj_node, weight + edges_of_side(g, forward)[e].weight),
{
    reveal(stands_for);
    lemma_base_node(g, forward, node, e);
    let edge = edges_of_side(g, forward)[e];
    let over = lemma_edge_way(g, input, forward, e);
    lemma_reach_join(input, seeds, forward, node, edge.adj_node, over, edge.weight as int, weight);
}

/// The last step of a way up: an edge of the node before the last leads to the last
/// node, and what comes before is a way up.
pub proof fn lemma_up_last(g: FastGraphView, input: Seq<Edge>, forward: bool, up: Seq<NodeId>, w: int) -> (last: (int, Weight))
    requires
        stands_for(g, input),
        up_walk(edges_of_side(g, forward), up, w),
        up.len() >= 2,
    ensures
        up_walk(edges_of_side(g, forward), up.drop_last(), w - last.1),
        w - last.1 >= 0,
        up[up.len() - 2] < g.num_nodes,
        up[up.len() - 1] < g.num_nodes,
        begin_of(g, up[up.len() - 2], forward) <= last.0 < end_of(g, up[up.len() - 2], forward),
        edges_of_side(g, forward)[last.0].adj_node == up[up.len() - 1],
        edges_of_side(g, forward)[last.0].weight == last.1,
{
    reveal(stands_for);
    let edges = edges_of_side(g, forward);
    let n = up.len() as int;
    let step = choose|step: Weight| #[trigger]
        has_up(edges, up[n - 2], up[n - 1], step) && up_walk(edges, up.drop_last(), w - step);
    let e = choose|e: int|
        0 <= e < edges.len() && (#[trigger] edges[e]).base_node == up[n - 2] && edges[e].adj_node
            == up[n - 1] && edges[e].weight == step;
    lemma_edge_slice(g, forward, e);
    lemma_leads_up(g, forward, up[n - 2], e);
    lemma_up_weight(edges, up.drop_last(), w - step);
    (e, step)
}

/// Where a node stalls, one of the edges shows it.
pub proof fn lemma_stall_edge(labels: Seq<Option<Label>>, edges: Seq<FastGraphEdge>, k: int, end: int, weight: Weight)
    requires
        stalls_from(labels, edges, k, end, weight),
    ensures
        exists|e: int|
            k <= e < end && 0 <= e && label_weight(labels, (#[trigger] edges[e]).adj_node as int)
                != WEIGHT_MAX && label_weight(labels, edges[e].adj_node as int) + edges[e].weight
                < weight,
    decreases end - k,
{
    if 0 <= k < end {
        let adj_weight = label_weight(labels, edges[k].adj_node as int);
        if adj_weight != WEIGHT_MAX && adj_weight + edges[k].weight < weight {
        } else {
            lemma_stall_edge(labels, edges, k + 1, end, weight);
        }
    }
}

/// What a search that has come to its end knows of a node that can be reached with
/// `weight`: it has settled the node with that weight or less, or there is a lighter way
/// to the node, or the best weight of the query is less.
pub open spec fn outcome(
    side: Side,
    input: Seq<Edge>,
    seeds: Seq<(NodeId, Weight)>,
    forward: bool,
    best: Weight,
    node: NodeId,
    weight: int,
) -> bool {
    ||| label_settled(side.labels, node as int) && label_weight(side.labels, node as int) <= weight
    ||| reachable(input, seeds, forward, node, weight - 1)
    ||| best < weight
}

/// The search has come to its end in order, and what it holds is true of the input
/// graph.
#[verifier::opaque]
pub open spec fn at_end(
    side: Side,
    g: FastGraphView,
    input: Seq<Edge>,
    seeds: Seq<(NodeId, Weight)>,
    forward: bool,
    best: Weight,
) -> bool {
    &&& g.wf()
    &&& g.represents(input)
    &&& side.fits(g, forward)
    &&& side.heap.len() == 0
    &&& tidy(side, g, forward, best, -1)
    &&& side_sound(side, input, seeds, forward)
    &&& seeded(side.labels, seeds, seeds.len() as int)
}

/// What a search at its end knows of a node that it holds to be not heavier than
/// `weight`.
pub proof fn lemma_node_outcome(
    side: Side,
    g: FastGraphView,
    input: Seq<Edge>,
    seeds: Seq<(NodeId, Weight)>,
    forward: bool,
    best: Weight,
    node: NodeId,
    weight: int,
)
    requires
        at_end(side, g, input, seeds, forward, best),
        node < g.num_nodes,
        label_weight(side.labels, node as int) <= weight < WEIGHT_MAX,
    ensures
        outcome(side, input, seeds, forward, best, node, weight),
{
    broadcast use vstd::multiset::group_multiset_axioms;

    reveal(at_end);
    let known = label_weight(side.labels, node as int);
    assert(side.labels[node as int].is_some());
    if !label_settled(side.labels, node as int) && known <= best {
        assert(!side.heap.contains(crate::search_order::fresh_item(side, node)));
        assert(stallable(side.labels, g, forward, node, known));
        let edges = edges_of_side(g, !forward);
        lemma_stall_edge(
            side.labels,
            edges,
            begin_of(g, node, !forward),
            end_of(g, node, !forward),
            known,
        );
        let e = choose|e: int|
            begin_of(g, node, !forward) <= e < end_of(g, node, !forward) && 0 <= e && label_weight(
                side.labels,
                (#[trigger] edges[e]).adj_node as int,
            ) != WEIGHT_MAX && label_weight(side.labels, edges[e].adj_node as int)
                + edges[e].weight < known;
        lemma_leads_up(g, !forward, node, e);
        let z = edges[e].adj_node;
        assert(side.labels[z as int].is_some());
        let from = label_weight(side.labels, z as int);
        assert(reachable(input, seeds, forward, z, from as int));
        lemma_reach_back(g, input, seeds, forward, node, e, from as int);
        lemma_reachable_more(input, seeds, forward, node, from + edges[e].weight, weight - 1);
    }
}

/// A search at its end holds a seed to be not heavier than the seed.
pub proof fn lemma_seed_known(
    side: Side,
    g: FastGraphView,
    input: Seq<Edge>,
    seeds: Seq<(NodeId, Weight)>,
    forward: bool,
    best: Weight,
    k: int,
)
    requires
        at_end(side, g, input, seeds, forward, best),
        0 <= k < seeds.len(),
        seeds[k].1 < WEIGHT_MAX,
    ensures
        seeds[k].0 < g.num_nodes,
        label_weight(side.labels, seeds[k].0 as int) <= seeds[k].1,
{
    reveal(at_end);
}

/// A search at its end holds the node that an edge of a settled node leads to to be
/// not heavier than the settled node and the edge together.
pub proof fn lemma_settled_edge(
    side: Side,
    g: FastGraphView,
    input: Seq<Edge>,
    seeds: Seq<(NodeId, Weight)>,
    forward: bool,
    best: Weight,
    node: NodeId,
    e: int,
)
    requires
        at_end(side, g, input, seeds, forward, best),
        node < g.num_nodes,
        label_settled(side.labels, node as int),
        begin_of(g, node, forward) <= e < end_of(g, node, forward),
    ensures
        label_weight(side.labels, edges_of_side(g, forward)[e].adj_node as int) <= label_weight(
            side.labels,
            node as int,
        ) + edges_of_side(g, forward)[e].weight,
{
    reveal(at_end);
    assert(side.labels[node as int].is_some());
    assert(crate::search_order::edges_done(side.labels, g, forward));
}

/// What a search at its end knows of the node that a way up from one of its seeds
/// leads to.
pub proof fn lemma_up_outcome(
    side: Side,
    g: FastGraphView,
    input: Seq<Edge>,
    seeds: Seq<(NodeId, Weight)>,
    forward: bool,
    best: Weight,
    k: int,
    up: Seq<NodeId>,
    w: int,
)
    requires
        stands_for(g, input),
        at_end(side, g, input, seeds, forward, best),
        0 <= k < seeds.len(),
        seeds[k].1 < WEIGHT_MAX,
        up_walk(edges_of_side(g, forward), up, w),
        up[0] == seeds[k].0,
        seeds[k].1 + w < WEIGHT_MAX,
    ensures
        up[up.len() - 1] < g.num_nodes,
        outcome(side, input, seeds, forward, best, up[up.len() - 1], seeds[k].1 + w),
    decreases up.len(),
{
    let n = up.len() as int;
    if n == 1 {
        lemma_seed_known(side, g, input, seeds, forward, best, k);
        lemma_node_outcome(side, g, input, seeds, forward, best, up[0], seeds[k].1 + w);
    } else {
        let (e, step) = lemma_up_last(g, input, forward, up, w);
        lemma_up_outcome(side, g, input, seeds, forward, best, k, up.drop_last(), w - step);
        let before = up[n - 2];
        let node = up[n - 1];
        assert(up.drop_last()[n - 2] == before);
        let reached = seeds[k].1 + w - step;
        if label_settled(side.labels, before as int) && label_weight(side.labels, before as int)
            <= reached {
            lemma_settled_edge(side, g, input, seeds, forward, best, before, e);
            lemma_node_outcome(side, g, input, seeds, forward, best, node, seeds[k].1 + w);
        } else if reachable(input, seeds, forward, before, reached - 1) {
            lemma_reach_on(g, input, seeds, forward, before, e, reached - 1);
        } else {
        }
    }
}

/// A way up from a seed of a search is a way through the input graph.
pub proof fn lemma_up_reachable(
    g: FastGraphView,
    input: Seq<Edge>,
    seeds: Seq<(NodeId, Weight)>,
    forward: bool,
    k: int,
    up: Seq<NodeId>,
    w: int,
)
    requires
        stands_for(g, input),
        0 <= k < seeds.len(),
        seeds[k].1 < WEIGHT_MAX,
        up_walk(edges_of_side(g, forward), up, w),
        up[0] == seeds[k].0,
    ensures
        reachable(input, seeds, forward, up[up.len() - 1], seeds[k].1 + w),
    decreases up.len(),
{
    let n = up.len() as int;
    if n == 1 {
        let nodes = seq![up[0]];
        assert(is_walk(input, nodes, 0));
        assert(leads(input, seeds, forward, up[0], seeds[k].1 + w, k, nodes, 0));
    } else {
        let (e, step) = lemma_up_last(g, input, forward, up, w);
        lemma_up_reachable(g, input, seeds, forward, k, up.drop_last(), w - step);
        assert(up.drop_last()[n - 2] == up[n - 2]);
        lemma_reach_on(g, input, seeds, forward, up[n - 2], e, seeds[k].1 + w - step);
    }
}

/// A way from a start node to an end node has, with the weights of both, a weight that
/// is not negative.
pub proof fn lemma_connected_weight(
    input: Seq<Edge>,
    starts: Seq<(NodeId, Weight)>,
    ends: Seq<(NodeId, Weight)>,
    weight: int,
)
    requires
        connected(input, starts, ends, weight),
    ensures
        weight >= 0,
{
    let (ks, kt, nodes, w) = choose|ks: int, kt: int, nodes: Seq<NodeId>, w: int| #[trigger]
        connects(input, starts, ends, weight, ks, kt, nodes, w);
    lemma_walk_weight(input, nodes, w);
}

/// The ways up that a graph which keeps the ways of the input graph has for a way
/// through the input graph.
pub proof fn lemma_ways_meet(g: FastGraphView, input: Seq<Edge>, nodes: Seq<NodeId>, w: int) -> (found: (
    Seq<NodeId>,
    Seq<NodeId>,
    int,
    int,
))
    requires
        keeps_ways(g, input),
        is_walk(input, nodes, w),
        w < WEIGHT_MAX,
    ensures
        meets(g, nodes[0], nodes[nodes.len() - 1], w, found.0, found.1, found.2, found.3),
        found.2 >= 0,
        found.3 >= 0,
{
    let (up, down, up_weight, down_weight) = choose|
        up: Seq<NodeId>,
        down: Seq<NodeId>,
        up_weight: int,
        down_weight: int,
    | #[trigger]
        meets(g, nodes[0], nodes[nodes.len() - 1], w, up, down, up_weight, down_weight);
    lemma_up_weight(g.edges_fwd, up, up_weight);
    lemma_up_weight(g.edges_bwd, down, down_weight);
    (up, down, up_weight, down_weight)
}

/// A query that has come to its end in order, on a graph that keeps the ways of the
/// input graph, has a best weight that is not larger than the weight of any way from a
/// start node to an end node.
pub proof fn lemma_best_least(
    q: Query,
    g: FastGraphView,
    input: Seq<Edge>,
    starts: Seq<(NodeId, Weight)>,
    ends: Seq<(NodeId, Weight)>,
    weight: nat,
)
    requires
        stands_for(g, input),
        keeps_ways(g, input),
        at_end(q.fwd, g, input, starts, true, q.best_weight),
        at_end(q.bwd, g, input, ends, false, q.best_weight),
        meets_known(q),
        q.fwd.labels.len() == g.num_nodes,
        connected(input, starts, ends, weight as int),
        weight < WEIGHT_MAX,
    ensures
        q.best_weight <= weight,
    decreases weight,
{
    let (ks, kt, nodes, w) = choose|ks: int, kt: int, nodes: Seq<NodeId>, w: int| #[trigger]
        connects(input, starts, ends, weight as int, ks, kt, nodes, w);
    lemma_walk_weight(input, nodes, w);
    let (up, down, up_weight, down_weight) = lemma_ways_meet(g, input, nodes, w);
    let from_start = starts[ks].1 + up_weight;
    let to_end = ends[kt].1 + down_weight;
    let best = q.best_weight;
    let node = up[up.len() - 1];
    assert(edges_of_side(g, true) == g.edges_fwd);
    assert(edges_of_side(g, false) == g.edges_bwd);
    lemma_up_outcome(q.fwd, g, input, starts, true, best, ks, up, up_weight);
    lemma_up_outcome(q.bwd, g, input, ends, false, best, kt, down, down_weight);
    lemma_up_reachable(g, input, starts, true, ks, up, up_weight);
    lemma_up_reachable(g, input, ends, false, kt, down, down_weight);
    if best < from_start || best < to_end {
    } else if reachable(input, starts, true, node, from_start - 1) {
        lemma_meet(input, starts, ends, node, from_start - 1, to_end);
        lemma_connected_weight(input, starts, ends, from_start - 1 + to_end);
        lemma_best_least(q, g, input, starts, ends, (from_start - 1 + to_end) as nat);
    } else if reachable(input, ends, false, node, to_end - 1) {
        lemma_meet(input, starts, ends, node, from_start, to_end - 1);
        lemma_connected_weight(input, starts, ends, from_start + to_end - 1);
        lemma_best_least(q, g, input, starts, ends, (from_start + to_end - 1) as nat);
    } else {
        assert(label_settled(q.fwd.labels, node as int));
        assert(label_settled(q.bwd.labels, node as int));
    }
}

/// What holds at the end of a query that began in order.
proof fn lemma_run_end(
    q: Query,
    g: FastGraphView,
    input: Seq<Edge>,
    starts: Seq<(NodeId, Weight)>,
    ends: Seq<(NodeId, Weight)>,
)
    requires
        q.fits(g),
        g.represents(input),
        in_order(q, g),
        query_sound(q, input, starts, ends),
        seeded(q.fwd.labels, starts, starts.len() as int),
        seeded(q.bwd.labels, ends, ends.len() as int),
    ensures
        stands_for(g, input),
        at_end(q.run(g).fwd, g, input, starts, true, q.run(g).best_weight),
        at_end(q.run(g).bwd, g, input, ends, false, q.run(g).best_weight),
        meets_known(q.run(g)),
        q.run(g).fwd.labels.len() == g.num_nodes,
        q.run(g).best_weight < WEIGHT_MAX ==> q.run(g).meeting_node != INVALID_NODE,
        q.run(g).meeting_node != INVALID_NODE ==> q.run(g).best_weight < WEIGHT_MAX && connected(
            input,
            starts,
            ends,
            q.run(g).best_weight as int,
        ),
{
    reveal(stands_for);
    reveal(at_end);
    lemma_run_sound(q, g, input, starts, ends);
    lemma_run_order(q, g, starts, ends);
    let r = q.run(g);
    assert(seeded(r.fwd.labels, starts, starts.len() as int)) by {
        assert forall|i: int|
            0 <= i < starts.len() && (#[trigger] starts[i]).1 < WEIGHT_MAX implies starts[i].0
            < r.fwd.labels.len() && label_weight(r.fwd.labels, starts[i].0 as int)
            <= starts[i].1 by {
            assert(label_weight(r.fwd.labels, starts[i].0 as int) <= label_weight(
                q.fwd.labels,
                starts[i].0 as int,
            ));
        }
    }
    assert(seeded(r.bwd.labels, ends, ends.len() as int)) by {
        assert forall|i: int|
            0 <= i < ends.len() && (#[trigger] ends[i]).1 < WEIGHT_MAX implies ends[i].0
            < r.bwd.labels.len() && label_weight(r.bwd.labels, ends[i].0 as int) <= ends[i].1 by {
            assert(label_weight(r.bwd.labels, ends[i].0 as int) <= label_weight(
                q.bwd.labels,
                ends[i].0 as int,
            ));
        }
    }
}

/// The best weight is the least of all ways from a start node to an end node, the
/// weights of both counted in: there is such a way with that weight or less, and none
/// with less. Where there is no meeting node, there is no way of finite weight.
pub open spec fn finds_least(
    q: Query,
    input: Seq<Edge>,
    starts: Seq<(NodeId, Weight)>,
    ends: Seq<(NodeId, Weight)>,
) -> bool {
    &&& q.meeting_node != INVALID_NODE ==> q.best_weight < WEIGHT_MAX && connected(
        input,
        starts,
        ends,
        q.best_weight as int,
    )
    &&& q.meeting_node == INVALID_NODE ==> q.best_weight == WEIGHT_MAX
    &&& forall|weight: int| #[trigger]
        connected(input, starts, ends, weight) ==> q.best_weight <= weight
}

/// A query that began in order ends with the least weight.
proof fn lemma_run_least(
    q: Query,
    g: FastGraphView,
    input: Seq<Edge>,
    starts: Seq<(NodeId, Weight)>,
    ends: Seq<(NodeId, Weight)>,
)
    requires
        q.fits(g),
        g.represents(input),
        keeps_ways(g, input),
        in_order(q, g),
        query_sound(q, input, starts, ends),
        seeded(q.fwd.labels, starts, starts.len() as int),
        seeded(q.bwd.labels, ends, ends.len() as int),
    ensures
        finds_least(q.run(g), input, starts, ends),
{
    lemma_run_end(q, g, input, starts, ends);
    let r = q.run(g);
    assert forall|weight: int| #[trigger] connected(input, starts, ends, weight) implies r.best_weight
        <= weight by {
        lemma_connected_weight(input, starts, ends, weight);
        if weight < WEIGHT_MAX {
            lemma_best_least(r, g, input, starts, ends, weight as nat);
        }
    }
}

/// A query with several start nodes and several end nodes finds the least weight:
/// on a graph that was prepared from the input graph, the weight it ends with is the
/// least weight of all ways through the input graph from a start node to an end node,
/// the weights that come with both nodes counted in. It ends without a meeting node
/// only where there is no such way of finite weight.
pub proof fn lemma_least_between(
    g: FastGraphView,
    input: Seq<Edge>,
    starts: Seq<(NodeId, Weight)>,
    ends: Seq<(NodeId, Weight)>,
)
    requires
        g.wf(),
        g.represents(input),
        keeps_ways(g, input),
        forall|i: int| 0 <= i < starts.len() ==> (#[trigger] starts[i]).0 < g.num_nodes,
        forall|i: int| 0 <= i < ends.len() ==> (#[trigger] ends[i]).0 < g.num_nodes,
    ensures
        finds_least(pair_query_result(g, starts, ends), input, starts, ends),
{
    let q = start_pair_query(g.num_nodes as nat, starts, ends, true);
    lemma_start_sound(g, input, starts, ends, true);
    lemma_start_order(g, starts, ends, true);
    lemma_run_least(q, g, input, starts, ends);
}

/// A query with several start nodes finds the least weight, as long as no start node
/// comes again with a weight that is not smaller than before: on a graph that was
/// prepared from the input graph, the weight it ends with is the least weight of all
/// ways through the input graph from a start node to the end node, the weight that
/// comes with the start node counted in. It ends without a meeting node only where
/// there is no such way of finite weight.
pub proof fn lemma_least_from(g: FastGraphView, input: Seq<Edge>, starts: Seq<(NodeId, Weight)>, end: NodeId)
    requires
        g.wf(),
        g.represents(input),
        keeps_ways(g, input),
        forall|i: int| 0 <= i < starts.len() ==> (#[trigger] starts[i]).0 < g.num_nodes,
        end < g.num_nodes,
        no_heavier_repeat(starts),
    ensures
        finds_least(query_result(g, starts, end), input, starts, seq![(end, 0usize)]),
{
    let ends = seq![(end, 0usize)];
    lemma_single_end(g.num_nodes as nat, starts, end);
    let q = start_pair_query(g.num_nodes as nat, starts, ends, false);
    lemma_start_sound(g, input, starts, ends, false);
    lemma_start_order(g, starts, ends, false);
    lemma_run_least(q, g, input, starts, ends);
}

/// `nodes` is a way of weight `weight` through the input graph that leads from `from`
/// to `to`.
pub open spec fn is_way_between(input: Seq<Edge>, from: NodeId, to: NodeId, nodes: Seq<NodeId>, weight: int) -> bool {
    &&& is_walk(input, nodes, weight)
    &&& nodes[0] == from
    &&& nodes[nodes.len() - 1] == to
}

/// A query on a prepared graph gives what a search through the input graph gives: on
/// a graph that was prepared from the input graph, the query from `start` to `end`
/// ends with a meeting node if and only if there is a way of finite weight from
/// `start` to `end` through the input graph, and then its best weight is the weight
/// of such a way, and no such way is lighter.
pub proof fn lemma_shortest(g: FastGraphView, input: Seq<Edge>, start: NodeId, end: NodeId)
    requires
        g.wf(),
        g.represents(input),
        keeps_ways(g, input),
        start < g.num_nodes,
        end < g.num_nodes,
    ensures
        ({
            let q = query_result(g, seq![(start, 0usize)], end);
            &&& q.meeting_node != INVALID_NODE ==> exists|nodes: Seq<NodeId>| #[trigger]
                is_way_between(input, start, end, nodes, q.best_weight as int)
            &&& q.meeting_node != INVALID_NODE ==> q.best_weight < WEIGHT_MAX
            &&& forall|nodes: Seq<NodeId>, weight: int| #[trigger]
                is_way_between(input, start, end, nodes, weight) ==> q.best_weight <= weight
            &&& forall|nodes: Seq<NodeId>, weight: int|
                q.meeting_node == INVALID_NODE && #[trigger] is_way_between(
                    input,
                    start,
                    end,
                    nodes,
                    weight,
                ) ==> weight >= WEIGHT_MAX
        }),
{
    let starts = seq![(start, 0usize)];
    let ends = seq![(end, 0usize)];
    let q = query_result(g, starts, end);
    assert(no_heavier_repeat(starts));
    lemma_least_from(g, input, starts, end);
    assert forall|nodes: Seq<NodeId>, weight: int| #[trigger]
        is_way_between(input, start, end, nodes, weight) implies q.best_weight <= weight by {
        assert(connects(input, starts, ends, weight, 0, 0, nodes, weight));
        assert(connected(input, starts, ends, weight));
    }
    if q.meeting_node != INVALID_NODE {
        let (ks, kt, nodes, w) = choose|ks: int, kt: int, nodes: Seq<NodeId>, w: int| #[trigger]
            connects(input, starts, ends, q.best_weight as int, ks, kt, nodes, w);
        assert(is_way_between(input, start, end, nodes, w));
        assert(w == q.best_weight);
    }
}

/// The order of the nodes does not change what a query finds: two graphs that were
/// prepared from the same input graph, in whatever orders, give queries that both find
/// a path or both find none, and that end with the same weight.
pub proof fn lemma_same_weight(
    g: FastGraphView,
    other: FastGraphView,
    input: Seq<Edge>,
    starts: Seq<(NodeId, Weight)>,
    end: NodeId,
)
    requires
        g.wf(),
        g.represents(input),
        keeps_ways(g, input),
        other.wf(),
        other.represents(input),
        keeps_ways(other, input),
        forall|i: int| 0 <= i < starts.len() ==> (#[trigger] starts[i]).0 < g.num_nodes,
        forall|i: int| 0 <= i < starts.len() ==> (#[trigger] starts[i]).0 < other.num_nodes,
        end < g.num_nodes,
        end < other.num_nodes,
        no_heavier_repeat(starts),
    ensures
        query_result(g, starts, end).best_weight == query_result(other, starts, end).best_weight,
        query_result(g, starts, end).meeting_node == INVALID_NODE <==> query_result(
            other,
            starts,
            end,
        ).meeting_node == INVALID_NODE,
{
    lemma_least_from(g, input, starts, end);
    lemma_least_from(other, input, starts, end);
}

} // verus!
