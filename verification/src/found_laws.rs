use vstd::prelude::*;

use crate::constants::NodeId;
use crate::constants::Weight;
use crate::constants::INVALID_EDGE;
use crate::constants::INVALID_NODE;
use crate::constants::WEIGHT_MAX;
use crate::fast_graph::FastGraphView;
use crate::hierarchy_laws::keeps_ways;
use crate::input_graph::Edge;
use crate::labels::label_weight;
use crate::labels::Label;
use crate::least_laws::finds_least;
use crate::least_laws::is_way_between;
use crate::least_laws::lemma_least_between;
use crate::least_laws::lemma_least_from;
use crate::least_laws::stands_for;
use crate::path_calculator::edges_of_side;
use crate::path_calculator::found_nodes;
use crate::path_calculator::found_nodes_between;
use crate::path_calculator::lemma_single_end;
use crate::path_calculator::lemma_walk_step;
use crate::path_calculator::lemma_walkable;
use crate::path_calculator::pair_query_result;
use crate::path_calculator::query_result;
use crate::path_calculator::root_of;
use crate::path_calculator::start_pair_query;
use crate::path_calculator::unpacked;
use crate::path_calculator::walk;
use crate::path_calculator::walkable;
use crate::path_calculator::Query;
use crate::paths::is_walk;
use crate::paths::lemma_unpacked_reverse;
use crate::paths::lemma_unpacked_walk;
use crate::paths::lemma_walk_join;
use crate::query_laws::connected;
use crate::query_laws::connects;
use crate::query_laws::is_seed;
use crate::query_laws::leads;
use crate::query_laws::lemma_base_node;
use crate::query_laws::lemma_run_sound;
use crate::query_laws::lemma_start_sound;
use crate::query_laws::query_sound;
use crate::search_order::lemma_run_order;
use crate::shortest_path::ShortestPath;
use crate::search_order::lemma_start_order;
use crate::search_order::no_heavier_repeat;
use crate::search_order::query_traced;
use crate::search_order::traced;

verus! {

/// Every node that was reached without an edge is a seed.
pub open spec fn rooted(labels: Seq<Option<Label>>, seeds: Seq<(NodeId, Weight)>) -> bool {
    forall|x: int|
        0 <= x < labels.len() && (#[trigger] labels[x]).is_some() && labels[x].unwrap().inc_edge
            == INVALID_EDGE ==> is_seed(seeds, x as usize)
}

/// `nodes` is a way of weight `w` between `node` and the seed `k` of a search, from the
/// seed for the forward search and to the seed for the backward search. With `bounded`,
/// the way is, with the weight of the seed, not heavier than `limit`.
pub open spec fn traces(
    input: Seq<Edge>,
    seeds: Seq<(NodeId, Weight)>,
    forward: bool,
    node: NodeId,
    nodes: Seq<NodeId>,
    limit: int,
    bounded: bool,
    k: int,
    w: int,
) -> bool {
    leads(
        input,
        seeds,
        forward,
        node,
        if bounded {
            limit
        } else {
            seeds[k].1 + w
        },
        k,
        nodes,
        w,
    )
}

/// One step of the walk back from a node that was reached over an edge: the edge is
/// an edge of the parent that leads to the node, the path it stands for is a way
/// through the input graph, and the walk goes on from the parent.
pub proof fn lemma_back_step(
    labels: Seq<Option<Label>>,
    g: FastGraphView,
    input: Seq<Edge>,
    forward: bool,
    node: NodeId,
) -> (over: Seq<NodeId>)
    requires
        stands_for(g, input),
        walkable(labels, g, forward),
        node < g.num_nodes,
        labels[node as int].is_some(),
        labels[node as int].unwrap().inc_edge != INVALID_EDGE,
    ensures
        ({
            let label = labels[node as int].unwrap();
            let edge = edges_of_side(g, forward)[label.inc_edge as int];
            &&& label.parent < g.num_nodes
            &&& labels[label.parent as int].is_some()
            &&& g.ranks[label.parent as int] < g.ranks[node as int]
            &&& label.inc_edge < edges_of_side(g, forward).len()
            &&& over.len() >= 1
            &&& over[0] == (if forward {
                label.parent
            } else {
                node
            })
            &&& is_walk(
                input,
                over.push(
                    if forward {
                        node
                    } else {
                        label.parent
                    },
                ),
                edge.weight as int,
            )
            &&& walk(labels, g, forward, node) == (if forward {
                over.reverse()
            } else {
                over
            }) + walk(labels, g, forward, label.parent)
            &&& root_of(labels, g, node) == root_of(labels, g, label.parent)
        }),
{
    reveal(stands_for);
    g.lemma_wf_unpackable();
    lemma_walk_step(labels, g, forward, node);
    let label = labels[node as int].unwrap();
    let e = label.inc_edge as int;
    assert(edges_of_side(g, forward)[e].adj_node == node && crate::path_calculator::begin_of(
        g,
        label.parent,
        forward,
    ) <= e < crate::path_calculator::end_of(g, label.parent, forward)) by {
        reveal(walkable);
    }
    lemma_base_node(g, forward, label.parent, e);
    lemma_unpacked_walk(g, input, forward, e);
    lemma_unpacked_reverse(g, forward, e);
    unpacked(g, forward, e, false)
}

/// A way goes on with the path of an edge.
proof fn lemma_way_on(
    input: Seq<Edge>,
    before: Seq<NodeId>,
    before_weight: int,
    over: Seq<NodeId>,
    over_weight: int,
    node: NodeId,
)
    requires
        is_walk(input, before, before_weight),
        is_walk(input, over.push(node), over_weight),
        over.len() >= 1,
        before[before.len() - 1] == over[0],
    ensures
        is_walk(input, (before.drop_last() + over).push(node), before_weight + over_weight),
        (before.drop_last() + over).push(node)[0] == before[0],
{
    lemma_walk_join(input, before, before_weight, over.push(node), over_weight);
    assert((before + over.push(node).skip(1)) =~= (before.drop_last() + over).push(node));
}

/// The walk back of the forward search from a node, the other way round and with the
/// node added, is a way through the input graph from a start node to that node. Where
/// every label is not lighter than the way it stands for, the way is, with the weight
/// of the start node, not heavier than the label of the node.
pub proof fn lemma_walk_forward(
    labels: Seq<Option<Label>>,
    g: FastGraphView,
    input: Seq<Edge>,
    seeds: Seq<(NodeId, Weight)>,
    node: NodeId,
    bounded: bool,
)
    requires
        stands_for(g, input),
        walkable(labels, g, true),
        labels.len() == g.num_nodes,
        rooted(labels, seeds),
        bounded ==> traced(labels, g, true, seeds),
        node < g.num_nodes,
        labels[node as int].is_some(),
    ensures
        exists|k: int, w: int| #[trigger]
            traces(
                input,
                seeds,
                true,
                node,
                walk(labels, g, true, node).reverse().push(node),
                label_weight(labels, node as int) as int,
                bounded,
                k,
                w,
            ),
    decreases g.ranks[node as int],
{
    let label = labels[node as int].unwrap();
    let back = walk(labels, g, true, node);
    let nodes = back.reverse().push(node);
    let limit = label_weight(labels, node as int) as int;
    if label.inc_edge == INVALID_EDGE {
        lemma_walk_step(labels, g, true, node);
        assert(nodes =~= seq![node]);
        assert(is_walk(input, seq![node], 0));
        if bounded {
            let i = choose|i: int|
                0 <= i < seeds.len() && (#[trigger] seeds[i]).0 == node && seeds[i].1 < WEIGHT_MAX
                    && seeds[i].1 <= label.weight;
            assert(traces(input, seeds, true, node, nodes, limit, bounded, i, 0));
        } else {
            assert(is_seed(seeds, node));
            let i = choose|i: int|
                0 <= i < seeds.len() && (#[trigger] seeds[i]).0 == node && seeds[i].1 < WEIGHT_MAX;
            assert(traces(input, seeds, true, node, nodes, limit, bounded, i, 0));
        }
    } else {
        let over = lemma_back_step(labels, g, input, true, node);
        lemma_walk_forward(labels, g, input, seeds, label.parent, bounded);
        let rest = walk(labels, g, true, label.parent);
        let before = rest.reverse().push(label.parent);
        let (k, w) = choose|k: int, w: int| #[trigger]
            traces(
                input,
                seeds,
                true,
                label.parent,
                before,
                label_weight(labels, label.parent as int) as int,
                bounded,
                k,
                w,
            );
        let edge = edges_of_side(g, true)[label.inc_edge as int];
        lemma_way_on(input, before, w, over, edge.weight as int, node);
        assert(before.drop_last() =~= rest.reverse());
        assert((over.reverse() + rest).reverse() =~= rest.reverse() + over);
        assert(nodes == (before.drop_last() + over).push(node));
        assert(traces(input, seeds, true, node, nodes, limit, bounded, k, w + edge.weight));
    }
}

/// The walk back of the backward search from a node, with the node where it ends
/// added, is a way through the input graph from that node to an end node. Where every
/// label is not lighter than the way it stands for, the way is, with the weight of the
/// end node, not heavier than the label of the node.
pub proof fn lemma_walk_backward(
    labels: Seq<Option<Label>>,
    g: FastGraphView,
    input: Seq<Edge>,
    seeds: Seq<(NodeId, Weight)>,
    node: NodeId,
    bounded: bool,
)
    requires
        stands_for(g, input),
        walkable(labels, g, false),
        labels.len() == g.num_nodes,
        rooted(labels, seeds),
        bounded ==> traced(labels, g, false, seeds),
        node < g.num_nodes,
        labels[node as int].is_some(),
    ensures
        exists|k: int, w: int| #[trigger]
            traces(
                input,
                seeds,
                false,
                node,
                walk(labels, g, false, node).push(root_of(labels, g, node)),
                label_weight(labels, node as int) as int,
                bounded,
                k,
                w,
            ),
    decreases g.ranks[node as int],
{
    let label = labels[node as int].unwrap();
    let back = walk(labels, g, false, node);
    let root = root_of(labels, g, node);
    let nodes = back.push(root);
    let limit = label_weight(labels, node as int) as int;
    if label.inc_edge == INVALID_EDGE {
        lemma_walk_step(labels, g, false, node);
        assert(nodes =~= seq![node]);
        assert(is_walk(input, seq![node], 0));
        if bounded {
            let i = choose|i: int|
                0 <= i < seeds.len() && (#[trigger] seeds[i]).0 == node && seeds[i].1 < WEIGHT_MAX
                    && seeds[i].1 <= label.weight;
            assert(traces(input, seeds, false, node, nodes, limit, bounded, i, 0));
        } else {
            assert(is_seed(seeds, node));
            let i = choose|i: int|
                0 <= i < seeds.len() && (#[trigger] seeds[i]).0 == node && seeds[i].1 < WEIGHT_MAX;
            assert(traces(input, seeds, false, node, nodes, limit, bounded, i, 0));
        }
    } else {
        let over = lemma_back_step(labels, g, input, false, node);
        lemma_walk_backward(labels, g, input, seeds, label.parent, bounded);
        let rest = walk(labels, g, false, label.parent);
        let after = rest.push(root);
        let (k, w) = choose|k: int, w: int| #[trigger]
            traces(
                input,
                seeds,
                false,
                label.parent,
                after,
                label_weight(labels, label.parent as int) as int,
                bounded,
                k,
                w,
            );
        let edge = edges_of_side(g, false)[label.inc_edge as int];
        lemma_walk_join(input, over.push(label.parent), edge.weight as int, after, w);
        assert((over.push(label.parent) + after.skip(1)) =~= (over + rest).push(root));
        assert(nodes == (over + rest).push(root));
        assert(nodes[0] == node);
        assert(traces(input, seeds, false, node, nodes, limit, bounded, k, edge.weight + w));
    }
}

/// `nodes` is a way of weight `w` from the start node `ks` to the end node `kt`. With
/// `bounded`, the way is, with the weights of both, not heavier than `limit`.
pub open spec fn found_way(
    input: Seq<Edge>,
    starts: Seq<(NodeId, Weight)>,
    ends: Seq<(NodeId, Weight)>,
    nodes: Seq<NodeId>,
    limit: int,
    bounded: bool,
    ks: int,
    kt: int,
    w: int,
) -> bool {
    connects(
        input,
        starts,
        ends,
        if bounded {
            limit
        } else {
            starts[ks].1 + w + ends[kt].1
        },
        ks,
        kt,
        nodes,
        w,
    )
}

/// The walks back of both searches from the meeting node make a way from a start node
/// to an end node.
proof fn lemma_join_found(
    q: Query,
    g: FastGraphView,
    input: Seq<Edge>,
    starts: Seq<(NodeId, Weight)>,
    ends: Seq<(NodeId, Weight)>,
    bounded: bool,
)
    requires
        stands_for(g, input),
        walkable(q.fwd.labels, g, true),
        walkable(q.bwd.labels, g, false),
        q.fwd.labels.len() == g.num_nodes,
        q.bwd.labels.len() == g.num_nodes,
        rooted(q.fwd.labels, starts),
        rooted(q.bwd.labels, ends),
        q.meeting_node < g.num_nodes,
        q.fwd.labels[q.meeting_node as int].is_some(),
        q.bwd.labels[q.meeting_node as int].is_some(),
        bounded ==> query_traced(q, g, starts, ends),
    ensures
        exists|ks: int, kt: int, w: int| #[trigger]
            found_way(
                input,
                starts,
                ends,
                found_nodes_between(q, g),
                q.best_weight as int,
                bounded,
                ks,
                kt,
                w,
            ),
        found_nodes_between(q, g)[found_nodes_between(q, g).len() - 1] == root_of(
            q.bwd.labels,
            g,
            q.meeting_node,
        ),
{
    let m = q.meeting_node;
    lemma_walk_forward(q.fwd.labels, g, input, starts, m, bounded);
    lemma_walk_backward(q.bwd.labels, g, input, ends, m, bounded);
    let first = walk(q.fwd.labels, g, true, m).reverse().push(m);
    let root = root_of(q.bwd.labels, g, m);
    let second = walk(q.bwd.labels, g, false, m).push(root);
    let from_start = label_weight(q.fwd.labels, m as int) as int;
    let to_end = label_weight(q.bwd.labels, m as int) as int;
    let (ks, w1) = choose|k: int, w: int| #[trigger]
        traces(input, starts, true, m, first, from_start, bounded, k, w);
    let (kt, w2) = choose|k: int, w: int| #[trigger]
        traces(input, ends, false, m, second, to_end, bounded, k, w);
    lemma_walk_join(input, first, w1, second, w2);
    let nodes = found_nodes_between(q, g);
    assert((first + second.skip(1)) =~= nodes);
    assert(nodes[0] == first[0]);
    assert(nodes[nodes.len() - 1] == root);
    assert(found_way(input, starts, ends, nodes, q.best_weight as int, bounded, ks, kt, w1 + w2));
}

/// At its end a sound query has what it takes to walk back from the meeting node.
proof fn lemma_found_ready(
    q: Query,
    g: FastGraphView,
    input: Seq<Edge>,
    starts: Seq<(NodeId, Weight)>,
    ends: Seq<(NodeId, Weight)>,
)
    requires
        q.fits(g),
        g.represents(input),
        query_sound(q, input, starts, ends),
        q.meeting_node != INVALID_NODE,
    ensures
        stands_for(g, input),
        walkable(q.fwd.labels, g, true),
        walkable(q.bwd.labels, g, false),
        q.fwd.labels.len() == g.num_nodes,
        q.bwd.labels.len() == g.num_nodes,
        rooted(q.fwd.labels, starts),
        rooted(q.bwd.labels, ends),
        q.meeting_node < g.num_nodes,
        q.fwd.labels[q.meeting_node as int].is_some(),
        q.bwd.labels[q.meeting_node as int].is_some(),
{
    reveal(stands_for);
    lemma_walkable(q.fwd, g, true);
    lemma_walkable(q.bwd, g, false);
}

/// The nodes of the path that a query with several end nodes finds are a way through
/// the input graph from a start node to an end node: an edge of the input graph leads
/// from each node of the path to the next.
pub proof fn lemma_found_nodes_between(
    g: FastGraphView,
    input: Seq<Edge>,
    starts: Seq<(NodeId, Weight)>,
    ends: Seq<(NodeId, Weight)>,
)
    requires
        g.wf(),
        g.represents(input),
        forall|i: int| 0 <= i < starts.len() ==> (#[trigger] starts[i]).0 < g.num_nodes,
        forall|i: int| 0 <= i < ends.len() ==> (#[trigger] ends[i]).0 < g.num_nodes,
    ensures
        pair_query_result(g, starts, ends).meeting_node != INVALID_NODE ==> exists|
            ks: int,
            kt: int,
            w: int,
        | #[trigger]
            found_way(
                input,
                starts,
                ends,
                found_nodes_between(pair_query_result(g, starts, ends), g),
                0,
                false,
                ks,
                kt,
                w,
            ),
{
    let q0 = start_pair_query(g.num_nodes as nat, starts, ends, true);
    lemma_start_sound(g, input, starts, ends, true);
    lemma_run_sound(q0, g, input, starts, ends);
    let q = q0.run(g);
    if q.meeting_node != INVALID_NODE {
        lemma_found_ready(q, g, input, starts, ends);
        lemma_join_found(q, g, input, starts, ends, false);
        let (ks, kt, w) = choose|ks: int, kt: int, w: int| #[trigger]
            found_way(
                input,
                starts,
                ends,
                found_nodes_between(q, g),
                q.best_weight as int,
                false,
                ks,
                kt,
                w,
            );
        assert(found_way(input, starts, ends, found_nodes_between(q, g), 0, false, ks, kt, w));
    }
}

/// The nodes of the path that a query finds are a way through the input graph from a
/// start node to the end node: an edge of the input graph leads from each node of the
/// path to the next.
pub proof fn lemma_found_nodes(g: FastGraphView, input: Seq<Edge>, starts: Seq<(NodeId, Weight)>, end: NodeId)
    requires
        g.wf(),
        g.represents(input),
        forall|i: int| 0 <= i < starts.len() ==> (#[trigger] starts[i]).0 < g.num_nodes,
        end < g.num_nodes,
    ensures
        query_result(g, starts, end).meeting_node != INVALID_NODE ==> exists|k: int, w: int|
            0 <= k < starts.len() && (#[trigger] starts[k]).1 < WEIGHT_MAX && #[trigger] is_way_between(
                input,
                starts[k].0,
                end,
                found_nodes(query_result(g, starts, end), g, end),
                w,
            ),
{
    let ends = seq![(end, 0usize)];
    lemma_single_end(g.num_nodes as nat, starts, end);
    let q0 = start_pair_query(g.num_nodes as nat, starts, ends, false);
    lemma_start_sound(g, input, starts, ends, false);
    lemma_run_sound(q0, g, input, starts, ends);
    let q = q0.run(g);
    if q.meeting_node != INVALID_NODE {
        lemma_found_ready(q, g, input, starts, ends);
        lemma_join_found(q, g, input, starts, ends, false);
        let (ks, kt, w) = choose|ks: int, kt: int, w: int| #[trigger]
            found_way(
                input,
                starts,
                ends,
                found_nodes_between(q, g),
                q.best_weight as int,
                false,
                ks,
                kt,
                w,
            );
        let nodes = found_nodes_between(q, g);
        assert(nodes[nodes.len() - 1] == end);
        assert(root_of(q.bwd.labels, g, q.meeting_node) == end);
        assert(found_nodes(q, g, end) == nodes);
        assert(is_way_between(input, starts[ks].0, end, nodes, w));
    }
}

/// What a query that began in order, on a graph that keeps the ways of the input
/// graph, ends with: the nodes that are found from its walks back are a way from a
/// start node to an end node that has, with the weights of both, exactly the best
/// weight.
proof fn lemma_run_exact(
    q0: Query,
    g: FastGraphView,
    input: Seq<Edge>,
    starts: Seq<(NodeId, Weight)>,
    ends: Seq<(NodeId, Weight)>,
)
    requires
        q0.fits(g),
        g.represents(input),
        query_sound(q0, input, starts, ends),
        crate::search_order::in_order(q0, g),
        query_traced(q0, g, starts, ends),
        finds_least(q0.run(g), input, starts, ends),
        q0.run(g).meeting_node != INVALID_NODE,
    ensures
        exists|ks: int, kt: int, w: int| #[trigger]
            found_way(
                input,
                starts,
                ends,
                found_nodes_between(q0.run(g), g),
                q0.run(g).best_weight as int,
                true,
                ks,
                kt,
                w,
            ) && starts[ks].1 + w + ends[kt].1 == q0.run(g).best_weight,
        found_nodes_between(q0.run(g), g)[found_nodes_between(q0.run(g), g).len() - 1] == root_of(
            q0.run(g).bwd.labels,
            g,
            q0.run(g).meeting_node,
        ),
{
    lemma_run_sound(q0, g, input, starts, ends);
    lemma_run_order(q0, g, starts, ends);
    let q = q0.run(g);
    lemma_found_ready(q, g, input, starts, ends);
    lemma_join_found(q, g, input, starts, ends, true);
    let nodes = found_nodes_between(q, g);
    let (ks, kt, w) = choose|ks: int, kt: int, w: int| #[trigger]
        found_way(input, starts, ends, nodes, q.best_weight as int, true, ks, kt, w);
    let whole = starts[ks].1 + w + ends[kt].1;
    assert(connects(input, starts, ends, whole, ks, kt, nodes, w));
    assert(connected(input, starts, ends, whole));
    assert(found_way(input, starts, ends, nodes, q.best_weight as int, true, ks, kt, w) && starts[ks].1
        + w + ends[kt].1 == q.best_weight);
}

/// The path that a query with several end nodes finds on a graph that was prepared
/// from the input graph is a way through the input graph: it begins at a start node,
/// ends at an end node, an edge of the input graph leads from each of its nodes to the
/// next, and the weights of these edges add up, with the weights of the start node and
/// the end node, to the weight that the query reports.
pub proof fn lemma_found_exact_between(
    g: FastGraphView,
    input: Seq<Edge>,
    starts: Seq<(NodeId, Weight)>,
    ends: Seq<(NodeId, Weight)>,
)
    requires
        g.wf(),
        g.represents(input),
        keeps_ways(g, input),
        forall|i: int| 0 <= i < starts.len() ==> (#[trigger] starts[i]).0 < g.num_nodes,
        forall|i: int| 0 <= i < ends.len() ==> (#[trigger] ends[i]).0 < g.num_nodes,
    ensures
        pair_query_result(g, starts, ends).meeting_node != INVALID_NODE ==> exists|
            ks: int,
            kt: int,
            w: int,
        | #[trigger]
            found_way(
                input,
                starts,
                ends,
                found_nodes_between(pair_query_result(g, starts, ends), g),
                pair_query_result(g, starts, ends).best_weight as int,
                true,
                ks,
                kt,
                w,
            ) && starts[ks].1 + w + ends[kt].1 == pair_query_result(g, starts, ends).best_weight,
{
    let q0 = start_pair_query(g.num_nodes as nat, starts, ends, true);
    lemma_start_sound(g, input, starts, ends, true);
    lemma_start_order(g, starts, ends, true);
    lemma_least_between(g, input, starts, ends);
    if q0.run(g).meeting_node != INVALID_NODE {
        lemma_run_exact(q0, g, input, starts, ends);
    }
}

/// The path that a query finds on a graph that was prepared from the input graph is
/// a way through the input graph: it begins at a start node, ends at the end node, an
/// edge of the input graph leads from each of its nodes to the next, and the weights of
/// these edges add up, with the weight of the start node, to the weight that the query
/// reports. This holds as long as no start node comes again with a weight that is not
/// smaller than before.
pub proof fn lemma_found_exact(g: FastGraphView, input: Seq<Edge>, starts: Seq<(NodeId, Weight)>, end: NodeId)
    requires
        g.wf(),
        g.represents(input),
        keeps_ways(g, input),
        forall|i: int| 0 <= i < starts.len() ==> (#[trigger] starts[i]).0 < g.num_nodes,
        end < g.num_nodes,
        no_heavier_repeat(starts),
    ensures
        query_result(g, starts, end).meeting_node != INVALID_NODE ==> exists|k: int, w: int|
            0 <= k < starts.len() && (#[trigger] starts[k]).1 < WEIGHT_MAX && #[trigger] is_way_between(
                input,
                starts[k].0,
                end,
                found_nodes(query_result(g, starts, end), g, end),
                w,
            ) && starts[k].1 + w == query_result(g, starts, end).best_weight,
{
    let ends = seq![(end, 0usize)];
    lemma_single_end(g.num_nodes as nat, starts, end);
    let q0 = start_pair_query(g.num_nodes as nat, starts, ends, false);
    lemma_start_sound(g, input, starts, ends, false);
    lemma_start_order(g, starts, ends, false);
    lemma_least_from(g, input, starts, end);
    let q = q0.run(g);
    if q.meeting_node != INVALID_NODE {
        lemma_run_exact(q0, g, input, starts, ends);
        let nodes = found_nodes_between(q, g);
        let (ks, kt, w) = choose|ks: int, kt: int, w: int| #[trigger]
            found_way(input, starts, ends, nodes, q.best_weight as int, true, ks, kt, w) && starts[ks].1
                + w + ends[kt].1 == q.best_weight;
        assert(nodes[nodes.len() - 1] == end);
        assert(found_nodes(q, g, end) == nodes);
        assert(is_way_between(input, starts[ks].0, end, nodes, w));
    }
}

/// The path from `start` to `end` that a query finds on a graph that was prepared from
/// the input graph begins at `start`, ends at `end`, an edge of the input graph leads
/// from each of its nodes to the next, and the weights of these edges add up to the
/// weight that the query reports.
pub proof fn lemma_path_exact(g: FastGraphView, input: Seq<Edge>, start: NodeId, end: NodeId)
    requires
        g.wf(),
        g.represents(input),
        keeps_ways(g, input),
        start < g.num_nodes,
        end < g.num_nodes,
    ensures
        ({
            let q = query_result(g, seq![(start, 0usize)], end);
            q.meeting_node != INVALID_NODE ==> is_way_between(
                input,
                start,
                end,
                found_nodes(q, g, end),
                q.best_weight as int,
            )
        }),
{
    let starts = seq![(start, 0usize)];
    assert(no_heavier_repeat(starts));
    lemma_found_exact(g, input, starts, end);
}

/// The path is what the query `q` has found: none where there is no meeting node,
/// and else the path with the nodes `nodes`, from the first to the last of them, with
/// the best weight.
pub open spec fn answers(q: Query, nodes: Seq<NodeId>, path: Option<ShortestPath>) -> bool {
    &&& path is None <==> q.meeting_node == INVALID_NODE
    &&& path matches Some(p) ==> {
        &&& p.spec_nodes() == nodes
        &&& p.spec_source() == nodes[0]
        &&& p.spec_target() == nodes[nodes.len() - 1]
        &&& p.spec_weight() == q.best_weight
    }
}

/// The path leads from the start node `ks` to the end node `kt` along a way through
/// the input graph, and its weight is the weight `w` of that way and the weights of
/// both nodes together.
pub open spec fn follows_way(
    input: Seq<Edge>,
    starts: Seq<(NodeId, Weight)>,
    ends: Seq<(NodeId, Weight)>,
    p: ShortestPath,
    ks: int,
    kt: int,
    w: int,
) -> bool {
    &&& 0 <= ks < starts.len()
    &&& 0 <= kt < ends.len()
    &&& starts[ks].1 < WEIGHT_MAX
    &&& ends[kt].1 < WEIGHT_MAX
    &&& p.spec_source() == starts[ks].0
    &&& p.spec_target() == ends[kt].0
    &&& is_way_between(input, starts[ks].0, ends[kt].0, p.spec_nodes(), w)
    &&& starts[ks].1 + w + ends[kt].1 == p.spec_weight()
}

/// The path is a lightest path from a start node to an end node through the input
/// graph, the weights that come with both nodes counted in: it follows a way through
/// the input graph, and no way from a start node to an end node is lighter. Where there
/// is no path, there is no such way of finite weight.
pub open spec fn is_lightest_between(
    input: Seq<Edge>,
    starts: Seq<(NodeId, Weight)>,
    ends: Seq<(NodeId, Weight)>,
    path: Option<ShortestPath>,
) -> bool {
    match path {
        Some(p) => {
            &&& exists|ks: int, kt: int, w: int| #[trigger]
                follows_way(input, starts, ends, p, ks, kt, w)
            &&& forall|weight: int| #[trigger]
                connected(input, starts, ends, weight) ==> p.spec_weight() <= weight
        },
        None => forall|weight: int| #[trigger]
            connected(input, starts, ends, weight) ==> weight >= WEIGHT_MAX,
    }
}

/// The path is a lightest path from `start` to `end` through the input graph: its
/// nodes are a way from `start` to `end`, its weight is the weight of that way, and no
/// way from `start` to `end` is lighter. Where there is no path, there is no such way
/// of finite weight.
pub open spec fn is_lightest(input: Seq<Edge>, start: NodeId, end: NodeId, path: Option<ShortestPath>) -> bool {
    match path {
        Some(p) => {
            &&& p.spec_source() == start
            &&& p.spec_target() == end
            &&& is_way_between(input, start, end, p.spec_nodes(), p.spec_weight() as int)
            &&& forall|nodes: Seq<NodeId>, w: int| #[trigger]
                is_way_between(input, start, end, nodes, w) ==> p.spec_weight() <= w
        },
        None => forall|nodes: Seq<NodeId>, w: int| #[trigger]
            is_way_between(input, start, end, nodes, w) ==> w >= WEIGHT_MAX,
    }
}

/// What a query with several end nodes finds on a graph that was prepared from the
/// input graph is a lightest path.
pub proof fn lemma_lightest_between(
    g: FastGraphView,
    input: Seq<Edge>,
    starts: Seq<(NodeId, Weight)>,
    ends: Seq<(NodeId, Weight)>,
    path: Option<ShortestPath>,
)
    requires
        g.wf(),
        g.represents(input),
        keeps_ways(g, input),
        forall|i: int| 0 <= i < starts.len() ==> (#[trigger] starts[i]).0 < g.num_nodes,
        forall|i: int| 0 <= i < ends.len() ==> (#[trigger] ends[i]).0 < g.num_nodes,
        answers(
            pair_query_result(g, starts, ends),
            found_nodes_between(pair_query_result(g, starts, ends), g),
            path,
        ),
    ensures
        is_lightest_between(input, starts, ends, path),
{
    let q = pair_query_result(g, starts, ends);
    lemma_least_between(g, input, starts, ends);
    lemma_found_exact_between(g, input, starts, ends);
    if let Some(p) = path {
        let nodes = found_nodes_between(q, g);
        let (ks, kt, w) = choose|ks: int, kt: int, w: int| #[trigger]
            found_way(input, starts, ends, nodes, q.best_weight as int, true, ks, kt, w) && starts[ks].1
                + w + ends[kt].1 == q.best_weight;
        assert(follows_way(input, starts, ends, p, ks, kt, w));
    }
}

/// What a query with several start nodes finds on a graph that was prepared from the
/// input graph is a lightest path, as long as no start node comes again with a weight
/// that is not smaller than before.
pub proof fn lemma_lightest_from(
    g: FastGraphView,
    input: Seq<Edge>,
    starts: Seq<(NodeId, Weight)>,
    end: NodeId,
    path: Option<ShortestPath>,
)
    requires
        g.wf(),
        g.represents(input),
        keeps_ways(g, input),
        forall|i: int| 0 <= i < starts.len() ==> (#[trigger] starts[i]).0 < g.num_nodes,
        end < g.num_nodes,
        no_heavier_repeat(starts),
        answers(query_result(g, starts, end), found_nodes(query_result(g, starts, end), g, end), path),
    ensures
        is_lightest_between(input, starts, seq![(end, 0usize)], path),
{
    let q = query_result(g, starts, end);
    let ends = seq![(end, 0usize)];
    lemma_least_from(g, input, starts, end);
    lemma_found_exact(g, input, starts, end);
    if let Some(p) = path {
        let nodes = found_nodes(q, g, end);
        let (k, w) = choose|k: int, w: int|
            0 <= k < starts.len() && (#[trigger] starts[k]).1 < WEIGHT_MAX && #[trigger] is_way_between(
                input,
                starts[k].0,
                end,
                nodes,
                w,
            ) && starts[k].1 + w == q.best_weight;
        assert(follows_way(input, starts, ends, p, k, 0, w));
    }
}

/// What a query from `start` to `end` finds on a graph that was prepared from the
/// input graph is a lightest path from `start` to `end`.
pub proof fn lemma_lightest(
    g: FastGraphView,
    input: Seq<Edge>,
    start: NodeId,
    end: NodeId,
    path: Option<ShortestPath>,
)
    requires
        g.wf(),
        g.represents(input),
        keeps_ways(g, input),
        start < g.num_nodes,
        end < g.num_nodes,
        answers(
            query_result(g, seq![(start, 0usize)], end),
            found_nodes(query_result(g, seq![(start, 0usize)], end), g, end),
            path,
        ),
    ensures
        is_lightest(input, start, end, path),
{
    crate::least_laws::lemma_shortest(g, input, start, end);
    lemma_path_exact(g, input, start, end);
}

} // verus!
