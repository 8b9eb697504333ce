use vstd::prelude::*;

use crate::constants::NodeId;
use crate::constants::Weight;
use crate::constants::INVALID_EDGE;
use crate::constants::INVALID_NODE;
use crate::constants::WEIGHT_MAX;
use crate::fast_graph::FastGraphView;
use crate::heap_item::HeapItem;
use crate::input_graph::Edge;
use crate::labels::label_settled;
use crate::labels::label_weight;
use crate::min_heap::min_item;
use crate::path_calculator::begin_of;
use crate::path_calculator::best_meet;
use crate::path_calculator::best_start;
use crate::path_calculator::edges_of_side;
use crate::path_calculator::end_of;
use crate::path_calculator::lemma_advance;
use crate::path_calculator::lemma_empty_fits;
use crate::path_calculator::lemma_seed;
use crate::path_calculator::lemma_single_end;
use crate::path_calculator::lemma_slice;
use crate::path_calculator::lemma_take;
use crate::path_calculator::pair_query_result;
use crate::path_calculator::query_result;
use crate::path_calculator::seed_from;
use crate::path_calculator::stalls_from;
use crate::path_calculator::start_pair_query;
use crate::path_calculator::unpacked;
use crate::path_calculator::Query;
use crate::path_calculator::Side;
use crate::paths::end_of_edge;
use crate::paths::is_walk;
use crate::paths::lemma_unpacked_walk;
use crate::paths::lemma_walk_join;

verus! {

/// `nodes` is a way of weight `w` between `node` and the seed `k` of a search, from the
/// seed for the forward search and to the seed for the backward search, and with the
/// weight of the seed it is not heavier than `weight`.
pub open spec fn leads(
    input: Seq<Edge>,
    seeds: Seq<(NodeId, Weight)>,
    forward: bool,
    node: NodeId,
    weight: int,
    k: int,
    nodes: Seq<NodeId>,
    w: int,
) -> bool {
    &&& 0 <= k < seeds.len()
    &&& seeds[k].1 < WEIGHT_MAX
    &&& is_walk(input, nodes, w)
    &&& nodes[0] == (if forward {
        seeds[k].0
    } else {
        node
    })
    &&& nodes[nodes.len() - 1] == (if forward {
        node
    } else {
        seeds[k].0
    })
    &&& seeds[k].1 + w <= weight
}

/// There is a way between `node` and a seed of the search that is, with the weight of
/// the seed, not heavier than `weight`.
pub open spec fn reachable(
    input: Seq<Edge>,
    seeds: Seq<(NodeId, Weight)>,
    forward: bool,
    node: NodeId,
    weight: int,
) -> bool {
    exists|k: int, nodes: Seq<NodeId>, w: int| #[trigger]
        leads(input, seeds, forward, node, weight, k, nodes, w)
}

/// `node` is among the seeds, with a finite weight.
pub open spec fn is_seed(seeds: Seq<(NodeId, Weight)>, node: NodeId) -> bool {
    exists|k: int| 0 <= k < seeds.len() && (#[trigger] seeds[k]).0 == node && seeds[k].1 < WEIGHT_MAX
}

/// What a search holds is true of the input graph: there is a way for every label and
/// for every entry of the queue that is not heavier than the weight it holds, and
/// every label that names no edge is the label of a seed.
pub open spec fn side_sound(side: Side, input: Seq<Edge>, seeds: Seq<(NodeId, Weight)>, forward: bool) -> bool {
    &&& forall|x: int|
        0 <= x < side.labels.len() && (#[trigger] side.labels[x]).is_some()
            && side.labels[x].unwrap().inc_edge == INVALID_EDGE ==> is_seed(seeds, x as usize)
    &&& forall|x: int|
        0 <= x < side.labels.len() && (#[trigger] side.labels[x]).is_some() ==> reachable(
            input,
            seeds,
            forward,
            x as usize,
            side.labels[x].unwrap().weight as int,
        )
    &&& forall|item: HeapItem| #[trigger]
        side.heap.contains(item) ==> reachable(
            input,
            seeds,
            forward,
            item.node_id,
            item.weight as int,
        )
}

/// `nodes` is a way of weight `w` from the start node `ks` to the end node `kt`, and
/// with the weights of both it is not heavier than `weight`.
pub open spec fn connects(
    input: Seq<Edge>,
    starts: Seq<(NodeId, Weight)>,
    ends: Seq<(NodeId, Weight)>,
    weight: int,
    ks: int,
    kt: int,
    nodes: Seq<NodeId>,
    w: int,
) -> bool {
    &&& 0 <= ks < starts.len()
    &&& 0 <= kt < ends.len()
    &&& starts[ks].1 < WEIGHT_MAX
    &&& ends[kt].1 < WEIGHT_MAX
    &&& is_walk(input, nodes, w)
    &&& nodes[0] == starts[ks].0
    &&& nodes[nodes.len() - 1] == ends[kt].0
    &&& starts[ks].1 + w + ends[kt].1 <= weight
}

/// There is a way from a start node to an end node that is, with the weights of both,
/// not heavier than `weight`.
pub open spec fn connected(
    input: Seq<Edge>,
    starts: Seq<(NodeId, Weight)>,
    ends: Seq<(NodeId, Weight)>,
    weight: int,
) -> bool {
    exists|ks: int, kt: int, nodes: Seq<NodeId>, w: int| #[trigger]
        connects(input, starts, ends, weight, ks, kt, nodes, w)
}

/// What a query holds is true of the input graph: both searches are sound, and where
/// there is a meeting node, there is a way from a start node to an end node that is
/// not heavier than the best weight.
pub open spec fn query_sound(
    q: Query,
    input: Seq<Edge>,
    starts: Seq<(NodeId, Weight)>,
    ends: Seq<(NodeId, Weight)>,
) -> bool {
    &&& side_sound(q.fwd, input, starts, true)
    &&& side_sound(q.bwd, input, ends, false)
    &&& q.meeting_node != INVALID_NODE ==> connected(input, starts, ends, q.best_weight as int)
}

/// The seeds of one search in a query.
pub open spec fn seeds_of(starts: Seq<(NodeId, Weight)>, ends: Seq<(NodeId, Weight)>, forward: bool) -> Seq<
    (NodeId, Weight),
> {
    if forward {
        starts
    } else {
        ends
    }
}

/// A way that is not heavier than a weight is not heavier than a larger weight.
pub proof fn lemma_reachable_more(
    input: Seq<Edge>,
    seeds: Seq<(NodeId, Weight)>,
    forward: bool,
    node: NodeId,
    weight: int,
    more: int,
)
    requires
        reachable(input, seeds, forward, node, weight),
        weight <= more,
    ensures
        reachable(input, seeds, forward, node, more),
{
    let (k, nodes, w) = choose|k: int, nodes: Seq<NodeId>, w: int| #[trigger]
        leads(input, seeds, forward, node, weight, k, nodes, w);
    assert(leads(input, seeds, forward, node, more, k, nodes, w));
}

/// The edges of a node belong to it.
pub proof fn lemma_base_node(g: FastGraphView, forward: bool, node: NodeId, e: int)
    requires
        g.wf(),
        node < g.num_nodes,
        begin_of(g, node, forward) <= e < end_of(g, node, forward),
    ensures
        0 <= e < edges_of_side(g, forward).len(),
        edges_of_side(g, forward)[e].base_node == node,
        edges_of_side(g, forward)[e].adj_node < g.num_nodes,
{
    lemma_slice(g, node, forward);
    let rank = g.ranks[node as int] as int;
    let base = edges_of_side(g, forward)[e].base_node;
    if forward {
        assert(g.first_edge_ids_fwd[rank] <= e < g.first_edge_ids_fwd[rank + 1]);
        assert(crate::fast_graph::leads_up(g.ranks, g.edges_fwd[e], rank));
    } else {
        assert(g.first_edge_ids_bwd[rank] <= e < g.first_edge_ids_bwd[rank + 1]);
        assert(crate::fast_graph::leads_up(g.ranks, g.edges_bwd[e], rank));
    }
    if base != node {
        assert(g.ranks[base as int] != g.ranks[node as int]);
    }
}

/// The end of an edge can be reached over the edge from the node it belongs to.
pub proof fn lemma_reach_over(
    g: FastGraphView,
    input: Seq<Edge>,
    seeds: Seq<(NodeId, Weight)>,
    forward: bool,
    curr: HeapItem,
    e: int,
)
    requires
        g.wf(),
        g.represents(input),
        curr.node_id < g.num_nodes,
        begin_of(g, curr.node_id, forward) <= e < end_of(g, curr.node_id, forward),
        reachable(input, seeds, forward, curr.node_id, curr.weight as int),
    ensures
        reachable(
            input,
            seeds,
            forward,
            edges_of_side(g, forward)[e].adj_node,
            curr.weight + edges_of_side(g, forward)[e].weight,
        ),
{
    g.lemma_wf_unpackable();
    lemma_base_node(g, forward, curr.node_id, e);
    lemma_unpacked_walk(g, input, forward, e);
    let edge = edges_of_side(g, forward)[e];
    let over = unpacked(g, forward, e, false).push(end_of_edge(edge, forward));
    let (k, nodes, w) = choose|k: int, nodes: Seq<NodeId>, w: int| #[trigger]
        leads(input, seeds, forward, curr.node_id, curr.weight as int, k, nodes, w);
    crate::paths::lemma_walk_weight(input, nodes, w);
    if forward {
        lemma_walk_join(input, nodes, w, over, edge.weight as int);
        let all = nodes + over.skip(1);
        assert(all[0] == nodes[0]);
        assert(all[all.len() - 1] == edge.adj_node);
        assert(leads(
            input,
            seeds,
            forward,
            edge.adj_node,
            curr.weight + edge.weight,
            k,
            all,
            w + edge.weight,
        ));
    } else {
        lemma_walk_join(input, over, edge.weight as int, nodes, w);
        let all = over + nodes.skip(1);
        assert(all[0] == edge.adj_node);
        if nodes.len() == 1 {
            assert(all =~= over);
        } else {
            assert(all[all.len() - 1] == nodes[nodes.len() - 1]);
        }
        assert(leads(
            input,
            seeds,
            forward,
            edge.adj_node,
            curr.weight + edge.weight,
            k,
            all,
            edge.weight + w,
        ));
    }
}

/// Following an edge keeps a search sound.
proof fn lemma_relax_edge_sound(
    side: Side,
    g: FastGraphView,
    input: Seq<Edge>,
    seeds: Seq<(NodeId, Weight)>,
    forward: bool,
    k: int,
    curr: HeapItem,
)
    requires
        g.wf(),
        g.represents(input),
        side.labels.len() == g.num_nodes,
        side_sound(side, input, seeds, forward),
        curr.node_id < g.num_nodes,
        begin_of(g, curr.node_id, forward) <= k < end_of(g, curr.node_id, forward),
        reachable(input, seeds, forward, curr.node_id, curr.weight as int),
    ensures
        side_sound(side.relax_edge(edges_of_side(g, forward)[k], k, curr), input, seeds, forward),
        side.relax_edge(edges_of_side(g, forward)[k], k, curr).labels.len() == g.num_nodes,
{
    broadcast use vstd::multiset::group_multiset_axioms;

    let edge = edges_of_side(g, forward)[k];
    let next = side.relax_edge(edge, k, curr);
    lemma_base_node(g, forward, curr.node_id, k);
    if next != side {
        lemma_reach_over(g, input, seeds, forward, curr, k);
        let reached = (curr.weight + edge.weight) as usize;
        assert forall|x: int|
            0 <= x < next.labels.len() && (#[trigger] next.labels[x]).is_some()
                && next.labels[x].unwrap().inc_edge == INVALID_EDGE implies is_seed(
            seeds,
            x as usize,
        ) by {
            if x != edge.adj_node {
                assert(side.labels[x].is_some());
            }
        }
        assert forall|x: int|
            0 <= x < next.labels.len() && (#[trigger] next.labels[x]).is_some() implies reachable(
            input,
            seeds,
            forward,
            x as usize,
            next.labels[x].unwrap().weight as int,
        ) by {
            if x != edge.adj_node {
                assert(side.labels[x].is_some());
            }
        }
        assert forall|item: HeapItem| #[trigger] next.heap.contains(item) implies reachable(
            input,
            seeds,
            forward,
            item.node_id,
            item.weight as int,
        ) by {
            if item != (HeapItem { weight: reached, node_id: edge.adj_node }) {
                assert(side.heap.contains(item));
            }
        }
    }
}

/// Following edges keeps a search sound.
proof fn lemma_relax_sound(
    side: Side,
    g: FastGraphView,
    input: Seq<Edge>,
    seeds: Seq<(NodeId, Weight)>,
    forward: bool,
    k: int,
    end: int,
    curr: HeapItem,
)
    requires
        g.wf(),
        g.represents(input),
        side.labels.len() == g.num_nodes,
        side_sound(side, input, seeds, forward),
        curr.node_id < g.num_nodes,
        begin_of(g, curr.node_id, forward) <= k <= end,
        end == end_of(g, curr.node_id, forward),
        reachable(input, seeds, forward, curr.node_id, curr.weight as int),
    ensures
        side_sound(side.relax_from(edges_of_side(g, forward), k, end, curr), input, seeds, forward),
    decreases end - k,
{
    if k < end {
        lemma_relax_edge_sound(side, g, input, seeds, forward, k, curr);
        lemma_relax_sound(
            side.relax_edge(edges_of_side(g, forward)[k], k, curr),
            g,
            input,
            seeds,
            forward,
            k + 1,
            end,
            curr,
        );
    }
}

/// Taking an item out of the queue keeps a search sound.
proof fn lemma_take_sound(
    side: Side,
    input: Seq<Edge>,
    seeds: Seq<(NodeId, Weight)>,
    forward: bool,
    item: HeapItem,
)
    requires
        side_sound(side, input, seeds, forward),
    ensures
        side_sound(Side { heap: side.heap.remove(item), ..side }, input, seeds, forward),
{
    broadcast use vstd::multiset::group_multiset_axioms;

    let taken = Side { heap: side.heap.remove(item), ..side };
    assert forall|other: HeapItem| #[trigger] taken.heap.contains(other) implies reachable(
        input,
        seeds,
        forward,
        other.node_id,
        other.weight as int,
    ) by {
        assert(side.heap.contains(other));
    }
}

/// Marking a node as settled keeps a search sound.
proof fn lemma_settle_sound(
    side: Side,
    input: Seq<Edge>,
    seeds: Seq<(NodeId, Weight)>,
    forward: bool,
    node: NodeId,
)
    requires
        side_sound(side, input, seeds, forward),
        node < side.labels.len(),
        side.labels[node as int].is_some(),
    ensures
        side_sound(side.settle(node), input, seeds, forward),
{
    let settled = side.settle(node);
    assert forall|x: int|
        0 <= x < settled.labels.len() && (#[trigger] settled.labels[x]).is_some()
            && settled.labels[x].unwrap().inc_edge == INVALID_EDGE implies is_seed(
        seeds,
        x as usize,
    ) by {
        assert(side.labels[x].is_some());
    }
    assert forall|x: int|
        0 <= x < settled.labels.len() && (#[trigger] settled.labels[x]).is_some() implies reachable(
        input,
        seeds,
        forward,
        x as usize,
        settled.labels[x].unwrap().weight as int,
    ) by {
        assert(side.labels[x].is_some());
    }
}

/// Where both searches have reached a node, there is a way from a start node over that
/// node to an end node.
pub proof fn lemma_meet(
    input: Seq<Edge>,
    starts: Seq<(NodeId, Weight)>,
    ends: Seq<(NodeId, Weight)>,
    node: NodeId,
    from_start: int,
    to_end: int,
)
    requires
        reachable(input, starts, true, node, from_start),
        reachable(input, ends, false, node, to_end),
    ensures
        connected(input, starts, ends, from_start + to_end),
{
    let (ks, first, w1) = choose|k: int, nodes: Seq<NodeId>, w: int| #[trigger]
        leads(input, starts, true, node, from_start, k, nodes, w);
    let (kt, second, w2) = choose|k: int, nodes: Seq<NodeId>, w: int| #[trigger]
        leads(input, ends, false, node, to_end, k, nodes, w);
    lemma_walk_join(input, first, w1, second, w2);
    let all = first + second.skip(1);
    assert(all[0] == first[0]);
    if second.len() == 1 {
        assert(all =~= first);
    } else {
        assert(all[all.len() - 1] == second[second.len() - 1]);
    }
    assert(connects(input, starts, ends, from_start + to_end, ks, kt, all, w1 + w2));
}

/// The search in which the node `curr` was taken from the queue and settled is sound.
proof fn lemma_settled_sound(
    side: Side,
    g: FastGraphView,
    input: Seq<Edge>,
    seeds: Seq<(NodeId, Weight)>,
    forward: bool,
    curr: HeapItem,
)
    requires
        g.wf(),
        g.represents(input),
        side.fits(g, forward),
        side_sound(side, input, seeds, forward),
        side.heap.contains(curr),
    ensures
        side_sound(
            (Side { heap: side.heap.remove(curr), ..side }).relax_from(
                edges_of_side(g, forward),
                begin_of(g, curr.node_id, forward),
                end_of(g, curr.node_id, forward),
                curr,
            ).settle(curr.node_id),
            input,
            seeds,
            forward,
        ),
        reachable(input, seeds, forward, curr.node_id, curr.weight as int),
{
    let popped = Side { heap: side.heap.remove(curr), ..side };
    lemma_take(side, g, forward, curr);
    lemma_take_sound(side, input, seeds, forward, curr);
    lemma_slice(g, curr.node_id, forward);
    assert(reachable(input, seeds, forward, curr.node_id, curr.weight as int));
    lemma_relax_sound(
        popped,
        g,
        input,
        seeds,
        forward,
        begin_of(g, curr.node_id, forward),
        end_of(g, curr.node_id, forward),
        curr,
    );
    crate::path_calculator::lemma_relax(
        popped,
        g,
        forward,
        begin_of(g, curr.node_id, forward),
        end_of(g, curr.node_id, forward),
        curr,
    );
    let relaxed = popped.relax_from(
        edges_of_side(g, forward),
        begin_of(g, curr.node_id, forward),
        end_of(g, curr.node_id, forward),
        curr,
    );
    assert(relaxed.labels[curr.node_id as int].is_some());
    lemma_settle_sound(relaxed, input, seeds, forward, curr.node_id);
}

/// Where the other search holds a label for the node `curr`, there is a way from a
/// start node over that node to an end node.
proof fn lemma_meet_at(
    input: Seq<Edge>,
    starts: Seq<(NodeId, Weight)>,
    ends: Seq<(NodeId, Weight)>,
    forward: bool,
    other: Side,
    curr: HeapItem,
)
    requires
        reachable(input, seeds_of(starts, ends, forward), forward, curr.node_id, curr.weight as int),
        side_sound(other, input, seeds_of(starts, ends, !forward), !forward),
        curr.node_id < other.labels.len(),
        other.labels[curr.node_id as int].is_some(),
    ensures
        connected(
            input,
            starts,
            ends,
            curr.weight + label_weight(other.labels, curr.node_id as int),
        ),
{
    let other_weight = other.labels[curr.node_id as int].unwrap().weight as int;
    assert(reachable(
        input,
        seeds_of(starts, ends, !forward),
        !forward,
        curr.node_id,
        other_weight,
    ));
    if forward {
        lemma_meet(input, starts, ends, curr.node_id, curr.weight as int, other_weight);
    } else {
        lemma_meet(input, starts, ends, curr.node_id, other_weight, curr.weight as int);
    }
}

/// A step of a search keeps a query sound.
pub proof fn lemma_advance_sound(
    q: Query,
    g: FastGraphView,
    input: Seq<Edge>,
    starts: Seq<(NodeId, Weight)>,
    ends: Seq<(NodeId, Weight)>,
    forward: bool,
)
    requires
        q.fits(g),
        g.represents(input),
        query_sound(q, input, starts, ends),
    ensures
        query_sound(q.advance(g, forward), input, starts, ends),
    decreases q.side(forward).heap.len(),
{
    let seeds = seeds_of(starts, ends, forward);
    let side = q.side(forward);
    let curr = min_item(side.heap);
    if side.heap.len() == 0 || !side.heap.contains(curr) {
    } else {
        let popped = Side { heap: side.heap.remove(curr), ..side };
        lemma_take(side, g, forward, curr);
        lemma_take_sound(side, input, seeds, forward, curr);
        let q1 = q.with_side(forward, popped);
        if label_settled(side.labels, curr.node_id as int) {
            lemma_advance_sound(q1, g, input, starts, ends, forward);
        } else if curr.weight > q.best_weight {
        } else if stalls_from(
            side.labels,
            edges_of_side(g, !forward),
            begin_of(g, curr.node_id, !forward),
            end_of(g, curr.node_id, !forward),
            curr.weight,
        ) {
            lemma_advance_sound(q1, g, input, starts, ends, forward);
        } else {
            lemma_settled_sound(side, g, input, seeds, forward, curr);
            let other = q.side(!forward);
            if other.labels[curr.node_id as int].is_some() {
                lemma_meet_at(input, starts, ends, forward, other, curr);
            }
        }
    }
}

/// Running the searches keeps a query sound.
pub proof fn lemma_run_sound(
    q: Query,
    g: FastGraphView,
    input: Seq<Edge>,
    starts: Seq<(NodeId, Weight)>,
    ends: Seq<(NodeId, Weight)>,
)
    requires
        q.fits(g),
        g.represents(input),
        query_sound(q, input, starts, ends),
    ensures
        query_sound(q.run(g), input, starts, ends),
        q.run(g).fits(g),
    decreases
            crate::labels::total_weight(q.fwd.labels) + crate::labels::total_weight(q.bwd.labels),
            q.fwd.heap.len() + q.bwd.heap.len(),
{
    if q.fwd.heap.len() == 0 && q.bwd.heap.len() == 0 {
    } else {
        lemma_advance(q, g, true);
        lemma_advance_sound(q, g, input, starts, ends, true);
        let q1 = q.advance(g, true);
        lemma_advance(q1, g, false);
        lemma_advance_sound(q1, g, input, starts, ends, false);
        lemma_run_sound(q1.advance(g, false), g, input, starts, ends);
    }
}

/// The seeded search is sound and fits the graph.
proof fn lemma_seed_sound(
    side: Side,
    g: FastGraphView,
    input: Seq<Edge>,
    seeds: Seq<(NodeId, Weight)>,
    forward: bool,
    k: int,
    least: bool,
)
    requires
        0 <= k <= seeds.len(),
        side.fits(g, forward),
        side_sound(side, input, seeds, forward),
        forall|i: int| 0 <= i < seeds.len() ==> (#[trigger] seeds[i]).0 < g.num_nodes,
    ensures
        side_sound(seed_from(side, seeds, k, least), input, seeds, forward),
        seed_from(side, seeds, k, least).fits(g, forward),
        forall|x: int|
            0 <= x < side.labels.len() && side.labels[x].is_some() ==> (#[trigger] seed_from(
                side,
                seeds,
                k,
                least,
            ).labels[x]).is_some(),
        forall|i: int|
            k <= i < seeds.len() && (#[trigger] seeds[i]).1 < WEIGHT_MAX ==> seed_from(
                side,
                seeds,
                k,
                least,
            ).labels[seeds[i].0 as int].is_some(),
    decreases seeds.len() - k,
{
    broadcast use vstd::multiset::group_multiset_axioms;

    if k < seeds.len() {
        let node = seeds[k].0;
        let weight = seeds[k].1;
        let next = if weight < WEIGHT_MAX && (!least || weight < label_weight(
            side.labels,
            node as int,
        )) {
            side.reach(node, weight, INVALID_NODE, INVALID_EDGE)
        } else {
            side
        };
        if next != side {
            lemma_seed(side, g, forward, node, weight);
            let alone = seq![node];
            assert(is_walk(input, alone, 0));
            assert(leads(input, seeds, forward, node, weight as int, k, alone, 0));
            assert(is_seed(seeds, node)) by {
                assert(seeds[k].0 == node);
            }
            assert forall|x: int|
                0 <= x < next.labels.len() && (#[trigger] next.labels[x]).is_some()
                    && next.labels[x].unwrap().inc_edge == INVALID_EDGE implies is_seed(
                seeds,
                x as usize,
            ) by {
                if x != node {
                    assert(side.labels[x].is_some());
                }
            }
            assert forall|x: int|
                0 <= x < next.labels.len() && (#[trigger] next.labels[x]).is_some() implies reachable(
                input,
                seeds,
                forward,
                x as usize,
                next.labels[x].unwrap().weight as int,
            ) by {
                if x != node {
                    assert(side.labels[x].is_some());
                }
            }
            assert forall|item: HeapItem| #[trigger] next.heap.contains(item) implies reachable(
                input,
                seeds,
                forward,
                item.node_id,
                item.weight as int,
            ) by {
                if item != (HeapItem { weight, node_id: node }) {
                    assert(side.heap.contains(item));
                }
            }
        }
        lemma_seed_sound(next, g, input, seeds, forward, k + 1, least);
        let last = seed_from(side, seeds, k, least);
        assert forall|x: int| 0 <= x < side.labels.len() && side.labels[x].is_some() implies (
        #[trigger] last.labels[x]).is_some() by {
            assert(next.labels[x].is_some());
        }
        assert forall|i: int| k <= i < seeds.len() && (#[trigger] seeds[i]).1
            < WEIGHT_MAX implies last.labels[seeds[i].0 as int].is_some() by {
            if i == k {
                if weight < WEIGHT_MAX {
                    assert(next.labels[node as int].is_some());
                }
            }
        }
    }
}

/// Where a node is among the start nodes with a finite weight, it is so with its least
/// such weight.
proof fn lemma_best_start(starts: Seq<(NodeId, Weight)>, target: NodeId, k: int)
    requires
        0 <= k <= starts.len(),
    ensures
        best_start(starts, target, k) < WEIGHT_MAX ==> exists|j: int|
            0 <= j < k && #[trigger] starts[j] == (target, best_start(starts, target, k)),
    decreases k,
{
    if k > 0 {
        lemma_best_start(starts, target, k - 1);
        let rest = best_start(starts, target, k - 1);
        if starts[k - 1].0 == target && starts[k - 1].1 < rest {
            assert(starts[k - 1] == (target, best_start(starts, target, k)));
        } else if rest < WEIGHT_MAX {
            let j = choose|j: int| 0 <= j < k - 1 && #[trigger] starts[j] == (target, rest);
            assert(starts[j] == (target, best_start(starts, target, k)));
        }
    }
}

/// The best way to meet without a step is a way from a start node to an end node: the
/// way that is made of the one node that is both.
pub proof fn lemma_best_meet(
    input: Seq<Edge>,
    starts: Seq<(NodeId, Weight)>,
    ends: Seq<(NodeId, Weight)>,
    k: int,
)
    requires
        0 <= k <= ends.len(),
    ensures
        best_meet(starts, ends, k).1 != INVALID_NODE ==> {
            &&& connected(input, starts, ends, best_meet(starts, ends, k).0 as int)
            &&& best_meet(starts, ends, k).0 < WEIGHT_MAX
            &&& exists|i: int, j: int|
                0 <= i < starts.len() && 0 <= j < k && (#[trigger] starts[i]).0 == best_meet(
                    starts,
                    ends,
                    k,
                ).1 && (#[trigger] ends[j]).0 == starts[i].0 && starts[i].1 < WEIGHT_MAX
                    && ends[j].1 < WEIGHT_MAX && starts[i].1 + ends[j].1 == best_meet(
                    starts,
                    ends,
                    k,
                ).0
        },
    decreases k,
{
    if k > 0 {
        lemma_best_meet(input, starts, ends, k - 1);
        let rest = best_meet(starts, ends, k - 1);
        let node = ends[k - 1].0;
        let from_start = best_start(starts, node, starts.len() as int);
        if ends[k - 1].1 < WEIGHT_MAX && from_start < WEIGHT_MAX && from_start + ends[k - 1].1
            < rest.0 {
            lemma_best_start(starts, node, starts.len() as int);
            let i = choose|i: int| 0 <= i < starts.len() && #[trigger] starts[i] == (node, from_start);
            let alone = seq![node];
            assert(is_walk(input, alone, 0));
            assert(connects(
                input,
                starts,
                ends,
                from_start + ends[k - 1].1,
                i,
                k - 1,
                alone,
                0,
            ));
            assert(starts[i].0 == node && ends[k - 1].0 == starts[i].0);
        } else if rest.1 != INVALID_NODE {
            let (i, j) = choose|i: int, j: int|
                0 <= i < starts.len() && 0 <= j < k - 1 && (#[trigger] starts[i]).0 == rest.1 && (
                #[trigger] ends[j]).0 == starts[i].0 && starts[i].1 < WEIGHT_MAX && ends[j].1
                    < WEIGHT_MAX && starts[i].1 + ends[j].1 == rest.0;
            assert(starts[i].0 == rest.1 && ends[j].0 == starts[i].0);
        }
    }
}

/// A query begins sound, and fit for its graph.
pub proof fn lemma_start_sound(
    g: FastGraphView,
    input: Seq<Edge>,
    starts: Seq<(NodeId, Weight)>,
    ends: Seq<(NodeId, Weight)>,
    least: bool,
)
    requires
        g.wf(),
        forall|i: int| 0 <= i < starts.len() ==> (#[trigger] starts[i]).0 < g.num_nodes,
        forall|i: int| 0 <= i < ends.len() ==> (#[trigger] ends[i]).0 < g.num_nodes,
    ensures
        query_sound(
            start_pair_query(g.num_nodes as nat, starts, ends, least),
            input,
            starts,
            ends,
        ),
        start_pair_query(g.num_nodes as nat, starts, ends, least).fits(g),
{
    broadcast use vstd::multiset::group_multiset_axioms;

    let n = g.num_nodes as nat;
    let empty = Side::empty(n);
    lemma_empty_fits(g, true);
    lemma_empty_fits(g, false);
    assert(side_sound(empty, input, starts, true));
    assert(side_sound(empty, input, ends, false));
    lemma_seed_sound(empty, g, input, starts, true, 0, least);
    lemma_seed_sound(empty, g, input, ends, false, 0, least);
    lemma_best_meet(input, starts, ends, ends.len() as int);
    let q = start_pair_query(n, starts, ends, least);
    if q.meeting_node != INVALID_NODE {
        let (i, j) = choose|i: int, j: int|
            0 <= i < starts.len() && 0 <= j < ends.len() && (#[trigger] starts[i]).0
                == q.meeting_node && (#[trigger] ends[j]).0 == starts[i].0 && starts[i].1
                < WEIGHT_MAX && ends[j].1 < WEIGHT_MAX;
        assert(q.fwd.labels[starts[i].0 as int].is_some());
        assert(q.bwd.labels[ends[j].0 as int].is_some());
    }
}

/// The weight of a path that a query finds is the weight of a way through the input
/// graph, or more: where the query ends with a meeting node, there is a way from a
/// start node to the end node that is, with the weight of the start node, not heavier
/// than the best weight. The path that is found is never lighter than the lightest
/// there is.
pub proof fn lemma_found_weight(
    g: FastGraphView,
    input: Seq<Edge>,
    starts: Seq<(NodeId, Weight)>,
    end: NodeId,
)
    requires
        g.wf(),
        g.represents(input),
        forall|i: int| 0 <= i < starts.len() ==> (#[trigger] starts[i]).0 < g.num_nodes,
        end < g.num_nodes,
    ensures
        query_result(g, starts, end).meeting_node != INVALID_NODE ==> connected(
            input,
            starts,
            seq![(end, 0usize)],
            query_result(g, starts, end).best_weight as int,
        ),
{
    let ends = seq![(end, 0usize)];
    lemma_single_end(g.num_nodes as nat, starts, end);
    lemma_start_sound(g, input, starts, ends, false);
    lemma_run_sound(start_pair_query(g.num_nodes as nat, starts, ends, false), g, input, starts, ends);
}

/// The weight of a path that a query with several end nodes finds is the weight of a
/// way through the input graph, or more: where the query ends with a meeting node,
/// there is a way from a start node to an end node that is, with the weights of both,
/// not heavier than the best weight.
pub proof fn lemma_found_weight_between(
    g: FastGraphView,
    input: Seq<Edge>,
    starts: Seq<(NodeId, Weight)>,
    ends: Seq<(NodeId, Weight)>,
)
    requires
        g.wf(),
        g.represents(input),
        forall|i: int| 0 <= i < starts.len() ==> (#[trigger] starts[i]).0 < g.num_nodes,
        forall|i: int| 0 <= i < ends.len() ==> (#[trigger] ends[i]).0 < g.num_nodes,
    ensures
        pair_query_result(g, starts, ends).meeting_node != INVALID_NODE ==> connected(
            input,
            starts,
            ends,
            pair_query_result(g, starts, ends).best_weight as int,
        ),
{
    lemma_start_sound(g, input, starts, ends, true);
    lemma_run_sound(start_pair_query(g.num_nodes as nat, starts, ends, true), g, input, starts, ends);
}

} // verus!
