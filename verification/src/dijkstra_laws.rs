use vstd::prelude::*;

use crate::constants::NodeId;
use crate::constants::Weight;
use crate::constants::WEIGHT_MAX;
use crate::contraction_laws::arc_walk;
use crate::contraction_laws::avoids;
use crate::contraction_laws::has_arc;
use crate::contraction_laws::lemma_walk_weight;
use crate::dijkstra::SearchState;
use crate::heap_item::HeapItem;
use crate::labels::label_settled;
use crate::labels::label_weight;
use crate::min_heap::is_min_of;
use crate::preparation_graph::Arc;
use crate::preparation_graph::lemma_from_edges_consistent;
use crate::preparation_graph::ArcLists;
use crate::constants::INVALID_NODE;
use crate::fast_graph::FastGraphView;
use crate::hierarchy_laws::keeps_ways;
use crate::hierarchy_laws::lemma_walk_is_arc_walk;
use crate::input_graph::edges_valid;
use crate::input_graph::strictly_sorted;
use crate::input_graph::Edge;
use crate::least_laws::is_way_between;
use crate::least_laws::lemma_shortest;
use crate::path_calculator::query_result;
use crate::paths::is_walk;

verus! {

/// `nodes` is a way of weight `w` through the graph that leads from `from` to `to` and
/// avoids the node `avoid`.
pub open spec fn is_route(
    graph: ArcLists,
    avoid: NodeId,
    from: NodeId,
    to: NodeId,
    nodes: Seq<NodeId>,
    w: int,
) -> bool {
    &&& arc_walk(graph, nodes, w)
    &&& nodes[0] == from
    &&& nodes[nodes.len() - 1] == to
    &&& avoids(nodes, avoid)
}

/// There is a way of weight `w` through the graph from `from` to `to` that avoids the
/// node `avoid`.
pub open spec fn has_route(graph: ArcLists, avoid: NodeId, from: NodeId, to: NodeId, w: int) -> bool {
    exists|nodes: Seq<NodeId>| #[trigger] is_route(graph, avoid, from, to, nodes, w)
}

/// What the search holds is true of the graph: there is a way from the start node for
/// every label and for every entry of the queue, with the weight it holds.
pub open spec fn routed(state: SearchState, graph: ArcLists) -> bool {
    &&& forall|x: int|
        0 <= x < state.labels.len() && (#[trigger] state.labels[x]).is_some() ==> has_route(
            graph,
            state.avoid,
            state.start,
            x as usize,
            label_weight(state.labels, x) as int,
        )
    &&& forall|item: HeapItem| #[trigger]
        state.heap.contains(item) ==> has_route(
            graph,
            state.avoid,
            state.start,
            item.node_id,
            item.weight as int,
        )
}

/// No way from the start node to a settled node is lighter than the label of the node.
pub open spec fn exact(state: SearchState, graph: ArcLists) -> bool {
    forall|x: int, nodes: Seq<NodeId>, w: int|
        0 <= x < state.labels.len() && label_settled(state.labels, x) && #[trigger] is_route(
            graph,
            state.avoid,
            state.start,
            x as usize,
            nodes,
            w,
        ) ==> label_weight(state.labels, x) <= w
}

/// Over an arc of a settled node, the end of the arc is held to be not heavier than
/// the node and the arc together, unless it is the node that is avoided.
pub open spec fn arcs_done(state: SearchState, graph: ArcLists) -> bool {
    forall|x: int, i: int|
        #![trigger state.labels[x], graph.out_arcs[x][i]]
        0 <= x < state.labels.len() && label_settled(state.labels, x) && 0 <= i
            < graph.out_arcs[x].len() && graph.out_arcs[x][i].adj_node != state.avoid
            ==> label_weight(state.labels, graph.out_arcs[x][i].adj_node as int) <= label_weight(
            state.labels,
            x,
        ) + graph.out_arcs[x][i].weight
}

/// The start node has a label of weight zero, and is not the node that is avoided.
/// There are no more nodes than can be told apart.
pub open spec fn rooted(state: SearchState) -> bool {
    &&& state.labels.len() <= usize::MAX
    &&& state.start < state.labels.len()
    &&& state.start != state.avoid
    &&& state.labels[state.start as int].is_some()
    &&& label_weight(state.labels, state.start as int) == 0
}

/// The entry of the queue that holds the weight of the label of `node`.
pub open spec fn fresh_entry(state: SearchState, node: int) -> HeapItem {
    HeapItem { weight: label_weight(state.labels, node), node_id: node as usize }
}

/// Every node with a label that is not settled has an entry in the queue with the
/// weight of its label. The node `busy` is left out.
pub open spec fn alive(state: SearchState, busy: int) -> bool {
    forall|x: int|
        0 <= x < state.labels.len() && (#[trigger] state.labels[x]).is_some() && !label_settled(
            state.labels,
            x,
        ) && x != busy ==> state.heap.contains(fresh_entry(state, x))
}

/// The labels are a tree of lightest ways as far as it is built: what the search holds
/// is true of the graph, the labels of settled nodes are final, and the arcs of settled
/// nodes were followed.
#[verifier::opaque]
pub open spec fn tree(state: SearchState, graph: ArcLists) -> bool {
    &&& routed(state, graph)
    &&& exact(state, graph)
    &&& arcs_done(state, graph)
    &&& rooted(state)
}

/// The search has come to its end: the queue is empty, and every node with a label is
/// settled.
pub open spec fn ended(state: SearchState) -> bool {
    &&& state.heap.len() == 0
    &&& forall|x: int|
        0 <= x < state.labels.len() && (#[trigger] state.labels[x]).is_some() ==> label_settled(
            state.labels,
            x,
        )
}

/// A way goes on over an arc.
pub proof fn lemma_route_on(
    graph: ArcLists,
    avoid: NodeId,
    from: NodeId,
    to: NodeId,
    w: int,
    arc: Arc,
    i: int,
)
    requires
        has_route(graph, avoid, from, to, w),
        to < graph.out_arcs.len(),
        0 <= i < graph.out_arcs[to as int].len(),
        graph.out_arcs[to as int][i] == arc,
        arc.adj_node != avoid,
    ensures
        has_route(graph, avoid, from, arc.adj_node, w + arc.weight),
{
    let nodes = choose|nodes: Seq<NodeId>| #[trigger] is_route(graph, avoid, from, to, nodes, w);
    let more = nodes.push(arc.adj_node);
    assert(more.drop_last() =~= nodes);
    assert(has_arc(graph, more[more.len() - 2], more[more.len() - 1], arc.weight));
    assert(arc_walk(graph, more.drop_last(), (w + arc.weight) - arc.weight));
    assert(arc_walk(graph, more, w + arc.weight));
    assert(is_route(graph, avoid, from, arc.adj_node, more, w + arc.weight));
}

/// What a search whose labels are a tree knows of a node that a way leads to: it has
/// settled the node with the weight of the way or less, or its queue holds an entry that
/// is not heavier than the way.
pub proof fn lemma_route_known(
    state: SearchState,
    graph: ArcLists,
    to: NodeId,
    nodes: Seq<NodeId>,
    w: int,
)
    requires
        state.fits(graph),
        arcs_done(state, graph),
        rooted(state),
        alive(state, -1),
        is_route(graph, state.avoid, state.start, to, nodes, w),
        w < WEIGHT_MAX,
    ensures
        to < state.labels.len(),
        (label_settled(state.labels, to as int) && label_weight(state.labels, to as int) <= w)
            || exists|item: HeapItem| #[trigger] state.heap.contains(item) && item.weight <= w,
    decreases nodes.len(),
{
    let n = nodes.len() as int;
    if n == 1 {
        lemma_known(state, to, w);
    } else {
        let step = choose|step: Weight| #[trigger]
            has_arc(graph, nodes[n - 2], nodes[n - 1], step) && arc_walk(
                graph,
                nodes.drop_last(),
                w - step,
            );
        let before = nodes[n - 2];
        let rest = nodes.drop_last();
        assert(avoids(rest, state.avoid)) by {
            assert forall|i: int| 0 <= i < rest.len() implies #[trigger] rest[i] != state.avoid by {
                assert(nodes[i] != state.avoid);
            }
        }
        assert(is_route(graph, state.avoid, state.start, before, rest, w - step));
        lemma_route_known(state, graph, before, rest, w - step);
        let i = choose|i: int|
            0 <= i < graph.out_arcs[before as int].len() && (
            #[trigger] graph.out_arcs[before as int][i]).adj_node == to
                && graph.out_arcs[before as int][i].weight == step;
        assert(graph.out_arcs[before as int][i].adj_node < graph.out_arcs.len());
        assert(nodes[n - 1] != state.avoid);
        if label_settled(state.labels, before as int) && label_weight(state.labels, before as int)
            <= w - step {
            assert(state.labels[before as int].is_some());
            assert(label_weight(state.labels, graph.out_arcs[before as int][i].adj_node as int)
                <= label_weight(state.labels, before as int) + graph.out_arcs[before as int][i].weight);
            lemma_known(state, to, w);
        } else {
            let item = choose|item: HeapItem| #[trigger]
                state.heap.contains(item) && item.weight <= w - step;
            assert(state.heap.contains(item) && item.weight <= w);
        }
    }
}

/// A node that the search holds to be not heavier than `w` is settled, or has an entry
/// in the queue that is not heavier.
proof fn lemma_known(state: SearchState, node: NodeId, w: int)
    requires
        alive(state, -1),
        node < state.labels.len(),
        label_weight(state.labels, node as int) <= w < WEIGHT_MAX,
    ensures
        (label_settled(state.labels, node as int) && label_weight(state.labels, node as int) <= w)
            || exists|item: HeapItem| #[trigger] state.heap.contains(item) && item.weight <= w,
{
    assert(state.labels[node as int].is_some());
    if !label_settled(state.labels, node as int) {
        let item = fresh_entry(state, node as int);
        assert(state.heap.contains(item) && item.weight <= w);
    }
}

/// A search that has come to its end has settled every node that a way leads to, with
/// the weight of the way or less.
pub proof fn lemma_ended_known(
    state: SearchState,
    graph: ArcLists,
    to: NodeId,
    nodes: Seq<NodeId>,
    w: int,
)
    requires
        state.fits(graph),
        tree(state, graph),
        ended(state),
        is_route(graph, state.avoid, state.start, to, nodes, w),
        w < WEIGHT_MAX,
    ensures
        to < state.labels.len(),
        label_settled(state.labels, to as int),
        label_weight(state.labels, to as int) <= w,
{
    broadcast use vstd::multiset::group_multiset_axioms;

    reveal(tree);
    assert(alive(state, -1));
    lemma_route_known(state, graph, to, nodes, w);
    if !(label_settled(state.labels, to as int) && label_weight(state.labels, to as int) <= w) {
        let item = choose|item: HeapItem| #[trigger] state.heap.contains(item) && item.weight <= w;
        assert(state.heap.count(item) > 0);
    }
}

/// The search is at work on the node of the entry `curr`, which it took from the
/// queue: its labels are a tree, the entry holds the weight of the label of its node,
/// which is not settled yet, and every other node with a label that is not settled has
/// its entry in the queue.
#[verifier::opaque]
pub open spec fn at_work(state: SearchState, graph: ArcLists, curr: HeapItem) -> bool {
    &&& state.fits(graph)
    &&& tree(state, graph)
    &&& alive(state, curr.node_id as int)
    &&& curr.node_id < state.labels.len()
    &&& state.labels[curr.node_id as int].is_some()
    &&& !label_settled(state.labels, curr.node_id as int)
    &&& label_weight(state.labels, curr.node_id as int) == curr.weight
    &&& has_route(graph, state.avoid, state.start, curr.node_id, curr.weight as int)
}

/// No weight that `lower` holds is larger than the weight that `upper` holds, and the
/// labels of settled nodes are the same.
pub open spec fn grown(lower: SearchState, upper: SearchState) -> bool {
    &&& lower.labels.len() == upper.labels.len()
    &&& lower.avoid == upper.avoid
    &&& lower.start == upper.start
    &&& forall|x: int|
        0 <= x < upper.labels.len() ==> label_weight(lower.labels, x) <= label_weight(
            upper.labels,
            x,
        )
    &&& forall|x: int|
        0 <= x < upper.labels.len() && (label_settled(upper.labels, x) || label_settled(
            lower.labels,
            x,
        )) ==> #[trigger] lower.labels[x] == upper.labels[x]
}

/// An arc that gives its end a new label leads to a node that is not settled.
proof fn lemma_new_label(state: SearchState, graph: ArcLists, curr: HeapItem, i: int)
    requires
        at_work(state, graph, curr),
        0 <= i < graph.out_arcs[curr.node_id as int].len(),
        graph.out_arcs[curr.node_id as int][i].adj_node != state.avoid,
        curr.weight + graph.out_arcs[curr.node_id as int][i].weight < label_weight(
            state.labels,
            graph.out_arcs[curr.node_id as int][i].adj_node as int,
        ),
    ensures
        graph.out_arcs[curr.node_id as int][i].adj_node < state.labels.len(),
        graph.out_arcs[curr.node_id as int][i].adj_node != curr.node_id,
        graph.out_arcs[curr.node_id as int][i].adj_node != state.start,
        !label_settled(state.labels, graph.out_arcs[curr.node_id as int][i].adj_node as int),
        has_route(
            graph,
            state.avoid,
            state.start,
            graph.out_arcs[curr.node_id as int][i].adj_node,
            curr.weight + graph.out_arcs[curr.node_id as int][i].weight,
        ),
{
    reveal(at_work);
    reveal(tree);
    let arc = graph.out_arcs[curr.node_id as int][i];
    lemma_route_on(graph, state.avoid, state.start, curr.node_id, curr.weight as int, arc, i);
    let reached = curr.weight + arc.weight;
    if label_settled(state.labels, arc.adj_node as int) {
        let nodes = choose|nodes: Seq<NodeId>| #[trigger]
            is_route(graph, state.avoid, state.start, arc.adj_node, nodes, reached);
        assert(label_weight(state.labels, arc.adj_node as int) <= reached);
    }
}

/// Following an arc of the node it is at work on leaves the search at work on it.
/// Afterwards the end of the arc is held to be not heavier than the entry and the arc
/// together, unless it is the node that is avoided.
proof fn lemma_relax_arc_tree(state: SearchState, graph: ArcLists, curr: HeapItem, i: int)
    requires
        at_work(state, graph, curr),
        0 <= i < graph.out_arcs[curr.node_id as int].len(),
    ensures
        ({
            let arc = graph.out_arcs[curr.node_id as int][i];
            let next = state.relax_arc(arc, curr);
            &&& at_work(next, graph, curr)
            &&& grown(next, state)
            &&& arc.adj_node != state.avoid ==> label_weight(next.labels, arc.adj_node as int)
                <= curr.weight + arc.weight
        }),
{
    broadcast use vstd::multiset::group_multiset_axioms;

    reveal(at_work);
    reveal(tree);
    let x = curr.node_id as int;
    let arc = graph.out_arcs[x][i];
    let next = state.relax_arc(arc, curr);
    assert(arc.adj_node < state.labels.len() && arc.weight >= 1);
    crate::dijkstra::lemma_relax_arc(state, arc, curr);
    if arc.adj_node != state.avoid && curr.weight + arc.weight < label_weight(
        state.labels,
        arc.adj_node as int,
    ) {
        lemma_new_label(state, graph, curr, i);
        let a = arc.adj_node as int;
        let reached = (curr.weight + arc.weight) as usize;
        let added = HeapItem { weight: reached, node_id: arc.adj_node };
        assert(next.heap == state.heap.insert(added));
        assert(next.labels[a].is_some() && label_weight(next.labels, a) == reached
            && !label_settled(next.labels, a));
        assert forall|y: int| 0 <= y < state.labels.len() && y != a implies next.labels[y]
            == state.labels[y] by {}
        assert(grown(next, state));
        assert(routed(next, graph)) by {
            assert forall|y: int|
                0 <= y < next.labels.len() && (#[trigger] next.labels[y]).is_some() implies has_route(
                graph,
                next.avoid,
                next.start,
                y as usize,
                label_weight(next.labels, y) as int,
            ) by {
                if y != a {
                    assert(state.labels[y].is_some());
                }
            }
            assert forall|item: HeapItem| #[trigger] next.heap.contains(item) implies has_route(
                graph,
                next.avoid,
                next.start,
                item.node_id,
                item.weight as int,
            ) by {
                if item != added {
                    assert(state.heap.contains(item));
                }
            }
        }
        assert(exact(next, graph)) by {
            assert forall|y: int, nodes: Seq<NodeId>, w: int|
                0 <= y < next.labels.len() && label_settled(next.labels, y) && #[trigger] is_route(
                    graph,
                    next.avoid,
                    next.start,
                    y as usize,
                    nodes,
                    w,
                ) implies label_weight(next.labels, y) <= w by {
                assert(next.labels[y] == state.labels[y]);
                assert(label_settled(state.labels, y));
            }
        }
        assert(arcs_done(next, graph)) by {
            assert forall|y: int, j: int|
                #![trigger next.labels[y], graph.out_arcs[y][j]]
                0 <= y < next.labels.len() && label_settled(next.labels, y) && 0 <= j
                    < graph.out_arcs[y].len() && graph.out_arcs[y][j].adj_node
                    != next.avoid implies label_weight(
                next.labels,
                graph.out_arcs[y][j].adj_node as int,
            ) <= label_weight(next.labels, y) + graph.out_arcs[y][j].weight by {
                assert(next.labels[y] == state.labels[y]);
                assert(label_settled(state.labels, y));
                let z = graph.out_arcs[y][j].adj_node as int;
                assert(z < state.labels.len());
                assert(label_weight(state.labels, z) <= label_weight(state.labels, y)
                    + graph.out_arcs[y][j].weight);
                assert(label_weight(next.labels, z) <= label_weight(state.labels, z));
            }
        }
        assert(alive(next, x)) by {
            assert forall|y: int|
                0 <= y < next.labels.len() && (#[trigger] next.labels[y]).is_some()
                    && !label_settled(next.labels, y) && y != x implies next.heap.contains(
                fresh_entry(next, y),
            ) by {
                if y == a {
                    assert(fresh_entry(next, y) == added);
                } else {
                    assert(state.labels[y].is_some());
                    assert(fresh_entry(next, y) == fresh_entry(state, y));
                    assert(state.heap.contains(fresh_entry(state, y)));
                }
            }
        }
    } else {
        assert(next == state);
        assert(grown(state, state));
    }
}

/// Following the arcs of the node it is at work on leaves the search at work on it.
/// Afterwards the end of every arc is held to be not heavier than the entry and the arc
/// together, unless it is the node that is avoided.
proof fn lemma_relax_tree(state: SearchState, graph: ArcLists, curr: HeapItem, k: int)
    requires
        at_work(state, graph, curr),
        0 <= k <= graph.out_arcs[curr.node_id as int].len(),
    ensures
        ({
            let arcs = graph.out_arcs[curr.node_id as int];
            let last = state.relax_from(arcs, k, curr);
            &&& at_work(last, graph, curr)
            &&& grown(last, state)
            &&& forall|i: int|
                k <= i < arcs.len() && (#[trigger] arcs[i]).adj_node != state.avoid ==> label_weight(
                    last.labels,
                    arcs[i].adj_node as int,
                ) <= curr.weight + arcs[i].weight
        }),
    decreases graph.out_arcs[curr.node_id as int].len() - k,
{
    reveal(at_work);
    let arcs = graph.out_arcs[curr.node_id as int];
    if k < arcs.len() {
        lemma_relax_arc_tree(state, graph, curr, k);
        let next = state.relax_arc(arcs[k], curr);
        lemma_relax_tree(next, graph, curr, k + 1);
        let last = next.relax_from(arcs, k + 1, curr);
        assert(last == state.relax_from(arcs, k, curr));
        assert(grown(last, state)) by {
            assert forall|x: int| 0 <= x < state.labels.len() implies label_weight(last.labels, x)
                <= label_weight(state.labels, x) by {
                assert(label_weight(last.labels, x) <= label_weight(next.labels, x));
            }
            assert forall|x: int|
                0 <= x < state.labels.len() && (label_settled(state.labels, x) || label_settled(
                    last.labels,
                    x,
                )) implies #[trigger] last.labels[x] == state.labels[x] by {
                if label_settled(state.labels, x) {
                    assert(next.labels[x] == state.labels[x]);
                    assert(last.labels[x] == next.labels[x]);
                } else {
                    assert(last.labels[x] == next.labels[x]);
                    assert(next.labels[x] == state.labels[x]);
                }
            }
        }
        assert forall|i: int|
            k <= i < arcs.len() && (#[trigger] arcs[i]).adj_node != state.avoid implies label_weight(
            last.labels,
            arcs[i].adj_node as int,
        ) <= curr.weight + arcs[i].weight by {
            if i == k {
                assert(arcs[k].adj_node < state.labels.len());
                assert(label_weight(last.labels, arcs[k].adj_node as int) <= label_weight(
                    next.labels,
                    arcs[k].adj_node as int,
                ));
            }
        }
    } else {
        assert(grown(state, state));
    }
}

/// The first entry of the queue of a search whose labels are a tree holds the weight
/// of the label of its node, unless that node is settled, and no way to that node is
/// lighter.
proof fn lemma_first_exact(state: SearchState, graph: ArcLists, curr: HeapItem)
    requires
        state.fits(graph),
        tree(state, graph),
        alive(state, -1),
        is_min_of(curr, state.heap),
        !label_settled(state.labels, curr.node_id as int),
    ensures
        at_work(SearchState { heap: state.heap.remove(curr), ..state }, graph, curr),
        forall|nodes: Seq<NodeId>, w: int| #[trigger]
            is_route(graph, state.avoid, state.start, curr.node_id, nodes, w) ==> curr.weight <= w,
{
    broadcast use vstd::multiset::group_multiset_axioms;

    reveal(at_work);
    reveal(tree);
    let x = curr.node_id as int;
    let taken = SearchState { heap: state.heap.remove(curr), ..state };
    crate::dijkstra::lemma_take(state, curr);
    assert(state.labels[x].is_some());
    assert(state.heap.contains(fresh_entry(state, x)));
    assert(curr.precedes(fresh_entry(state, x)));
    assert(curr == fresh_entry(state, x));
    assert(routed(taken, graph)) by {
        assert forall|item: HeapItem| #[trigger] taken.heap.contains(item) implies has_route(
            graph,
            taken.avoid,
            taken.start,
            item.node_id,
            item.weight as int,
        ) by {
            assert(state.heap.contains(item));
        }
    }
    assert(alive(taken, x)) by {
        assert forall|y: int|
            0 <= y < taken.labels.len() && (#[trigger] taken.labels[y]).is_some() && !label_settled(
                taken.labels,
                y,
            ) && y != x implies taken.heap.contains(fresh_entry(taken, y)) by {
            assert(state.heap.contains(fresh_entry(state, y)));
            assert(fresh_entry(state, y) != curr);
        }
    }
    assert forall|nodes: Seq<NodeId>, w: int| #[trigger]
        is_route(graph, state.avoid, state.start, curr.node_id, nodes, w) implies curr.weight
        <= w by {
        if w < WEIGHT_MAX {
            lemma_route_known(state, graph, curr.node_id, nodes, w);
            let item = choose|item: HeapItem| #[trigger] state.heap.contains(item) && item.weight <= w;
            assert(curr.precedes(item));
        }
    }
}

/// Marking the node it was at work on as settled gives the search a tree again.
proof fn lemma_settle_tree(state: SearchState, graph: ArcLists, curr: HeapItem)
    requires
        at_work(state, graph, curr),
        forall|nodes: Seq<NodeId>, w: int| #[trigger]
            is_route(graph, state.avoid, state.start, curr.node_id, nodes, w) ==> curr.weight <= w,
        forall|i: int|
            0 <= i < graph.out_arcs[curr.node_id as int].len() && (
            #[trigger] graph.out_arcs[curr.node_id as int][i]).adj_node != state.avoid
                ==> label_weight(
                state.labels,
                graph.out_arcs[curr.node_id as int][i].adj_node as int,
            ) <= curr.weight + graph.out_arcs[curr.node_id as int][i].weight,
    ensures
        state.settle(curr.node_id).fits(graph),
        tree(state.settle(curr.node_id), graph),
        alive(state.settle(curr.node_id), -1),
{
    reveal(at_work);
    reveal(tree);
    let x = curr.node_id as int;
    let settled = state.settle(curr.node_id);
    crate::dijkstra::lemma_settle(state, curr.node_id);
    assert forall|y: int| 0 <= y < state.labels.len() implies label_weight(settled.labels, y)
        == label_weight(state.labels, y) by {}
    assert(routed(settled, graph)) by {
        assert forall|y: int|
            0 <= y < settled.labels.len() && (#[trigger] settled.labels[y]).is_some() implies has_route(
            graph,
            settled.avoid,
            settled.start,
            y as usize,
            label_weight(settled.labels, y) as int,
        ) by {
            assert(state.labels[y].is_some());
        }
    }
    assert(exact(settled, graph)) by {
        assert forall|y: int, nodes: Seq<NodeId>, w: int|
            0 <= y < settled.labels.len() && label_settled(settled.labels, y) && #[trigger] is_route(
                graph,
                settled.avoid,
                settled.start,
                y as usize,
                nodes,
                w,
            ) implies label_weight(settled.labels, y) <= w by {
            if y != x {
                assert(settled.labels[y] == state.labels[y]);
                assert(label_settled(state.labels, y));
            }
        }
    }
    assert(arcs_done(settled, graph)) by {
        assert forall|y: int, j: int|
            #![trigger settled.labels[y], graph.out_arcs[y][j]]
            0 <= y < settled.labels.len() && label_settled(settled.labels, y) && 0 <= j
                < graph.out_arcs[y].len() && graph.out_arcs[y][j].adj_node
                != settled.avoid implies label_weight(
            settled.labels,
            graph.out_arcs[y][j].adj_node as int,
        ) <= label_weight(settled.labels, y) + graph.out_arcs[y][j].weight by {
            let z = graph.out_arcs[y][j].adj_node as int;
            assert(z < state.labels.len());
            if y != x {
                assert(settled.labels[y] == state.labels[y]);
                assert(label_settled(state.labels, y));
                assert(state.labels[y].is_some());
                assert(label_weight(state.labels, z) <= label_weight(state.labels, y)
                    + graph.out_arcs[y][j].weight);
            }
        }
    }
    assert(alive(settled, -1)) by {
        assert forall|y: int|
            0 <= y < settled.labels.len() && (#[trigger] settled.labels[y]).is_some()
                && !label_settled(settled.labels, y) && y != -1 implies settled.heap.contains(
            fresh_entry(settled, y),
        ) by {
            assert(y != x);
            assert(settled.labels[y] == state.labels[y]);
            assert(state.labels[y].is_some());
            assert(fresh_entry(settled, y) == fresh_entry(state, y));
        }
    }
}

/// Taking an entry out of the queue keeps the labels a tree. Where the node of the
/// entry is settled, every node with a label that is not settled keeps its entry in the
/// queue.
proof fn lemma_taken_tree(state: SearchState, graph: ArcLists, curr: HeapItem)
    requires
        state.fits(graph),
        tree(state, graph),
        alive(state, -1),
        state.heap.contains(curr),
    ensures
        (SearchState { heap: state.heap.remove(curr), ..state }).fits(graph),
        tree(SearchState { heap: state.heap.remove(curr), ..state }, graph),
        label_settled(state.labels, curr.node_id as int) ==> alive(
            SearchState { heap: state.heap.remove(curr), ..state },
            -1,
        ),
{
    broadcast use vstd::multiset::group_multiset_axioms;

    reveal(tree);
    let taken = SearchState { heap: state.heap.remove(curr), ..state };
    crate::dijkstra::lemma_take(state, curr);
    assert(routed(taken, graph)) by {
        assert forall|item: HeapItem| #[trigger] taken.heap.contains(item) implies has_route(
            graph,
            taken.avoid,
            taken.start,
            item.node_id,
            item.weight as int,
        ) by {
            assert(state.heap.contains(item));
        }
    }
    if label_settled(state.labels, curr.node_id as int) {
        assert forall|y: int|
            0 <= y < taken.labels.len() && (#[trigger] taken.labels[y]).is_some() && !label_settled(
                taken.labels,
                y,
            ) && y != -1 implies taken.heap.contains(fresh_entry(taken, y)) by {
            assert(state.heap.contains(fresh_entry(state, y)));
            assert(fresh_entry(state, y) != curr);
        }
    }
}

/// Settling the node of the first entry of the queue, with its arcs followed, keeps
/// the labels a tree, and every node with a label that is not settled has its entry in
/// the queue. The search has come closer to its end.
proof fn lemma_step_tree(state: SearchState, graph: ArcLists, curr: HeapItem)
    requires
        state.fits(graph),
        tree(state, graph),
        alive(state, -1),
        is_min_of(curr, state.heap),
        !label_settled(state.labels, curr.node_id as int),
    ensures
        ({
            let taken = SearchState { heap: state.heap.remove(curr), ..state };
            let settled = taken.relax_from(graph.out_arcs[curr.node_id as int], 0, curr).settle(
                curr.node_id,
            );
            &&& settled.fits(graph)
            &&& tree(settled, graph)
            &&& alive(settled, -1)
            &&& settled.start == state.start
            &&& settled.avoid == state.avoid
            &&& settled.max_weight == state.max_weight
            &&& settled.max_nodes == state.max_nodes
            &&& forall|y: int|
                0 <= y < state.labels.len() && y != curr.node_id && !label_settled(state.labels, y)
                    ==> !label_settled(settled.labels, y)
            &&& crate::labels::total_weight(settled.labels) <= crate::labels::total_weight(
                state.labels,
            )
            &&& crate::labels::total_weight(settled.labels) == crate::labels::total_weight(
                state.labels,
            ) ==> settled.heap == taken.heap
        }),
{
    let taken = SearchState { heap: state.heap.remove(curr), ..state };
    let arcs = graph.out_arcs[curr.node_id as int];
    lemma_first_exact(state, graph, curr);
    lemma_relax_tree(taken, graph, curr, 0);
    let relaxed = taken.relax_from(arcs, 0, curr);
    assert forall|nodes: Seq<NodeId>, w: int| #[trigger]
        is_route(graph, relaxed.avoid, relaxed.start, curr.node_id, nodes, w) implies curr.weight
        <= w by {
        assert(is_route(graph, state.avoid, state.start, curr.node_id, nodes, w));
    }
    lemma_settle_tree(relaxed, graph, curr);
    let settled = relaxed.settle(curr.node_id);
    crate::dijkstra::lemma_take(state, curr);
    crate::dijkstra::lemma_relax_from(taken, arcs, 0, curr);
    crate::labels::lemma_total_weight_update(
        relaxed.labels,
        curr.node_id as int,
        crate::labels::Label { settled: true, ..relaxed.labels[curr.node_id as int].unwrap() },
    );
    assert forall|y: int|
        0 <= y < state.labels.len() && y != curr.node_id && !label_settled(
            state.labels,
            y,
        ) implies !label_settled(settled.labels, y) by {
        assert(settled.labels[y] == relaxed.labels[y]);
        if label_settled(relaxed.labels, y) {
            assert(relaxed.labels[y] == taken.labels[y]);
        }
    }
}

/// Running the search keeps its labels a tree. Where it ends with `end` settled, every
/// node with a label that is not settled has its entry in the queue.
pub proof fn lemma_run_tree(state: SearchState, graph: ArcLists, end: NodeId, popped: usize)
    requires
        state.fits(graph),
        tree(state, graph),
        alive(state, -1),
        end < state.labels.len(),
        !label_settled(state.labels, end as int),
    ensures
        state.run(graph, end, popped).fits(graph),
        tree(state.run(graph, end, popped), graph),
        state.run(graph, end, popped).start == state.start,
        state.run(graph, end, popped).avoid == state.avoid,
        state.run(graph, end, popped).max_weight == state.max_weight,
        label_settled(state.run(graph, end, popped).labels, end as int) ==> alive(
            state.run(graph, end, popped),
            -1,
        ),
    decreases crate::labels::total_weight(state.labels), state.heap.len(),
{
    let curr = crate::min_heap::min_item(state.heap);
    if state.heap.len() == 0 || !state.heap.contains(curr) {
    } else {
        crate::min_heap::lemma_min_exists(state.heap);
        let taken = SearchState { heap: state.heap.remove(curr), ..state };
        crate::min_heap::lemma_remove_len(state.heap, curr);
        if popped >= state.max_nodes {
            lemma_taken_tree(state, graph, curr);
        } else if label_settled(state.labels, curr.node_id as int) {
            lemma_taken_tree(state, graph, curr);
            lemma_run_tree(taken, graph, end, (popped + 1) as usize);
        } else {
            lemma_step_tree(state, graph, curr);
            let settled = taken.relax_from(graph.out_arcs[curr.node_id as int], 0, curr).settle(
                curr.node_id,
            );
            if curr.node_id == end || curr.weight >= state.max_weight {
            } else {
                lemma_run_tree(settled, graph, end, (popped + 1) as usize);
            }
        }
    }
}

/// A search that has just begun has a tree, with the start node in the queue.
pub proof fn lemma_begin_tree(state: SearchState, graph: ArcLists, start: NodeId)
    requires
        state.fits(graph),
        state.labels.len() <= usize::MAX,
        start < state.labels.len(),
        start != state.avoid,
    ensures
        (SearchState { start, ..state.begin(start) }).fits(graph),
        tree(SearchState { start, ..state.begin(start) }, graph),
        alive(SearchState { start, ..state.begin(start) }, -1),
        forall|x: int|
            0 <= x < state.labels.len() ==> !#[trigger] label_settled(state.begin(start).labels, x),
{
    broadcast use vstd::multiset::group_multiset_axioms;

    reveal(tree);
    let first = SearchState { start, ..state.begin(start) };
    let alone = seq![start];
    assert(arc_walk(graph, alone, 0));
    assert(is_route(graph, first.avoid, start, start, alone, 0));
    assert forall|x: int| 0 <= x < first.labels.len() && x != start implies first.labels[x].is_none() by {}
    assert(first.heap.contains(fresh_entry(first, start as int)));
    assert forall|item: HeapItem| #[trigger] first.heap.contains(item) implies item == (HeapItem {
        weight: 0,
        node_id: start,
    }) by {}
}

/// Searching keeps the labels a tree: the search begins with a tree, and goes on with
/// the tree of the search before where that began at the same node. Where the search
/// ends with `end` settled, every node with a label that is not settled has its entry
/// in the queue, and the next search from the same node can go on from there.
pub proof fn lemma_search_tree(state: SearchState, graph: ArcLists, start: NodeId, end: NodeId)
    requires
        state.fits(graph),
        state.labels.len() <= usize::MAX,
        start < state.labels.len(),
        end < state.labels.len(),
        start != end,
        start != state.avoid,
        start == state.start ==> tree(state, graph) && alive(state, -1),
    ensures
        state.search(graph, start, end).fits(graph),
        tree(state.search(graph, start, end), graph),
        state.search(graph, start, end).start == start,
        state.search(graph, start, end).avoid == state.avoid,
        state.search(graph, start, end).max_weight == state.max_weight,
        label_settled(state.search(graph, start, end).labels, end as int) ==> alive(
            state.search(graph, start, end),
            -1,
        ),
{
    if start != state.start {
        lemma_begin_tree(state, graph, start);
        let first = SearchState { start, ..state.begin(start) };
        assert(!label_settled(state.begin(start).labels, end as int));
        lemma_run_tree(first, graph, end, 0);
    } else if !label_settled(state.labels, end as int) {
        assert((SearchState { start, ..state }) == state);
        lemma_run_tree(state, graph, end, 0);
    }
}

/// The search of Dijkstra finds the lightest way: as long as it does not give up, so
/// that it ends with `end` settled or with nothing left to do, and no weight limit is
/// set, the path it finds is as heavy as a way through the graph from `start` to `end`
/// that avoids the node to avoid, and no such way is lighter; where it finds no path,
/// there is no such way of finite weight.
pub proof fn lemma_search_least(state: SearchState, graph: ArcLists, start: NodeId, end: NodeId)
    requires
        state.fits(graph),
        state.labels.len() <= usize::MAX,
        start < state.labels.len(),
        end < state.labels.len(),
        start != state.avoid,
        state.max_weight == WEIGHT_MAX,
        start == state.start ==> tree(state, graph) && alive(state, -1),
        start != end ==> label_settled(state.search(graph, start, end).labels, end as int) || ended(
            state.search(graph, start, end),
        ),
    ensures
        ({
            let found = state.search(graph, start, end).found_path(start, end);
            &&& found matches Some(path) ==> has_route(graph, state.avoid, start, end, path.0 as int)
            &&& forall|nodes: Seq<NodeId>, w: int| #[trigger]
                is_route(graph, state.avoid, start, end, nodes, w) ==> match found {
                    Some(path) => path.0 <= w,
                    None => w >= WEIGHT_MAX,
                }
        }),
{
    let r = state.search(graph, start, end);
    let found = r.found_path(start, end);
    if start == end {
        let alone = seq![start];
        assert(arc_walk(graph, alone, 0));
        assert(is_route(graph, state.avoid, start, end, alone, 0));
        assert forall|nodes: Seq<NodeId>, w: int| #[trigger]
            is_route(graph, state.avoid, start, end, nodes, w) implies 0 <= w by {
            lemma_walk_weight(graph, nodes, w);
        }
    } else {
        lemma_search_tree(state, graph, start, end);
        assert(routed(r, graph) && exact(r, graph)) by {
            reveal(tree);
        }
        assert forall|nodes: Seq<NodeId>, w: int| #[trigger]
            is_route(graph, state.avoid, start, end, nodes, w) implies match found {
            Some(path) => path.0 <= w,
            None => w >= WEIGHT_MAX,
        } by {
            if w < WEIGHT_MAX {
                if !label_settled(r.labels, end as int) {
                    lemma_ended_known(r, graph, end, nodes, w);
                }
                assert(label_weight(r.labels, end as int) <= w);
            }
        }
    }
}

/// A way through the graph made of the edges of an input graph is a way through the
/// input graph.
pub proof fn lemma_arc_walk_is_walk(edges: Seq<Edge>, n: usize, nodes: Seq<NodeId>, weight: int)
    requires
        edges_valid(edges, n),
        strictly_sorted(edges),
        arc_walk(ArcLists::from_edges(edges, n as nat), nodes, weight),
    ensures
        is_walk(edges, nodes, weight),
    decreases nodes.len(),
{
    let graph = ArcLists::from_edges(edges, n as nat);
    if nodes.len() > 1 {
        let m = nodes.len() as int;
        let w = choose|w: Weight| #[trigger]
            has_arc(graph, nodes[m - 2], nodes[m - 1], w) && arc_walk(
                graph,
                nodes.drop_last(),
                weight - w,
            );
        lemma_arc_walk_is_walk(edges, n, nodes.drop_last(), weight - w);
        lemma_from_edges_consistent(edges, n);
        let u = nodes[m - 2] as int;
        let i = choose|i: int|
            0 <= i < graph.out_arcs[u].len() && (#[trigger] graph.out_arcs[u][i]).adj_node == nodes[m
                - 1] && graph.out_arcs[u][i].weight == w;
        assert(edges.contains(Edge { from: nodes[m - 2], to: nodes[m - 1], weight: w }));
    }
}

/// The nodes of a way through a graph that begins at a node of the graph are nodes of
/// the graph.
pub proof fn lemma_walk_nodes(graph: ArcLists, nodes: Seq<NodeId>, weight: int, i: int)
    requires
        graph.wf(),
        arc_walk(graph, nodes, weight),
        nodes[0] < graph.num_nodes(),
        0 <= i < nodes.len(),
    ensures
        nodes[i] < graph.num_nodes(),
    decreases nodes.len(),
{
    if nodes.len() > 1 {
        let m = nodes.len() as int;
        let w = choose|w: Weight| #[trigger]
            has_arc(graph, nodes[m - 2], nodes[m - 1], w) && arc_walk(
                graph,
                nodes.drop_last(),
                weight - w,
            );
        if i < m - 1 {
            lemma_walk_nodes(graph, nodes.drop_last(), weight - w, i);
        } else {
            let u = nodes[m - 2] as int;
            let k = choose|k: int|
                0 <= k < graph.out_arcs[u].len() && (#[trigger] graph.out_arcs[u][k]).adj_node
                    == nodes[m - 1] && graph.out_arcs[u][k].weight == w;
            assert(graph.out_arcs[u][k].adj_node < graph.out_arcs.len());
        }
    }
}

/// A query on a prepared graph finds what the search of Dijkstra finds in the input
/// graph: on a graph that was prepared from the input graph, the query from `start`
/// to `end` finds a path if and only if the search through the graph made of the edges
/// of the input graph does, and both paths have the same weight. This holds for a
/// search that avoids no node and has no weight limit, as long as it does not give up:
/// it ends with `end` settled or with nothing left to do.
pub proof fn lemma_same_as_search(
    g: FastGraphView,
    input: Seq<Edge>,
    state: SearchState,
    start: NodeId,
    end: NodeId,
)
    requires
        g.wf(),
        g.represents(input),
        keeps_ways(g, input),
        g.num_nodes < usize::MAX,
        edges_valid(input, g.num_nodes),
        strictly_sorted(input),
        start < g.num_nodes,
        end < g.num_nodes,
        state.fits(ArcLists::from_edges(input, g.num_nodes as nat)),
        state.avoid == INVALID_NODE,
        state.max_weight == WEIGHT_MAX,
        start == state.start ==> tree(state, ArcLists::from_edges(input, g.num_nodes as nat))
            && alive(state, -1),
        start != end ==> label_settled(
            state.search(ArcLists::from_edges(input, g.num_nodes as nat), start, end).labels,
            end as int,
        ) || ended(state.search(ArcLists::from_edges(input, g.num_nodes as nat), start, end)),
    ensures
        ({
            let graph = ArcLists::from_edges(input, g.num_nodes as nat);
            let found = state.search(graph, start, end).found_path(start, end);
            let q = query_result(g, seq![(start, 0usize)], end);
            &&& found is None <==> q.meeting_node == INVALID_NODE
            &&& found matches Some(path) ==> path.0 == q.best_weight
        }),
{
    let n = g.num_nodes;
    let graph = ArcLists::from_edges(input, n as nat);
    let found = state.search(graph, start, end).found_path(start, end);
    let q = query_result(g, seq![(start, 0usize)], end);
    lemma_from_edges_consistent(input, n);
    lemma_search_least(state, graph, start, end);
    lemma_shortest(g, input, start, end);
    if q.meeting_node != INVALID_NODE {
        let nodes = choose|nodes: Seq<NodeId>| #[trigger]
            is_way_between(input, start, end, nodes, q.best_weight as int);
        lemma_walk_is_arc_walk(input, n, nodes, q.best_weight as int);
        assert(avoids(nodes, INVALID_NODE)) by {
            assert forall|i: int| 0 <= i < nodes.len() implies #[trigger] nodes[i] != INVALID_NODE by {
                lemma_walk_nodes(graph, nodes, q.best_weight as int, i);
            }
        }
        assert(is_route(graph, state.avoid, start, end, nodes, q.best_weight as int));
    }
    if let Some(path) = found {
        let nodes = choose|nodes: Seq<NodeId>| #[trigger]
            is_route(graph, state.avoid, start, end, nodes, path.0 as int);
        lemma_arc_walk_is_walk(input, n, nodes, path.0 as int);
        assert(is_way_between(input, start, end, nodes, path.0 as int));
        assert(path.0 < WEIGHT_MAX);
    }
}

} // verus!
