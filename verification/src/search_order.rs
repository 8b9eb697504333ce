use vstd::prelude::*;

use crate::constants::NodeId;
use crate::constants::Weight;
use crate::constants::WEIGHT_MAX;
use crate::fast_graph::FastGraphEdge;
use crate::fast_graph::FastGraphView;
use crate::heap_item::HeapItem;
use crate::labels::label_settled;
use crate::labels::label_weight;
use crate::labels::Label;
use crate::min_heap::is_min_of;
use crate::path_calculator::begin_of;
use crate::path_calculator::edges_of_side;
use crate::path_calculator::end_of;
use crate::path_calculator::stalls_from;
use crate::constants::INVALID_NODE;
use crate::min_heap::min_item;
use crate::path_calculator::lemma_advance;
use crate::path_calculator::lemma_leads_up;
use crate::path_calculator::lemma_relax;
use crate::path_calculator::lemma_relax_edge;
use crate::path_calculator::lemma_settle;
use crate::path_calculator::lemma_slice;
use crate::path_calculator::lemma_take;
use crate::path_calculator::Query;
use crate::path_calculator::Side;
use crate::labels::total_weight;
use crate::constants::INVALID_EDGE;
use crate::path_calculator::best_meet;
use crate::path_calculator::seed_from;
use crate::path_calculator::start_pair_query;

verus! {

/// A node that was reached with `weight` stalls: it can be reached with less over an
/// edge from a node of higher rank.
pub open spec fn stallable(
    labels: Seq<Option<Label>>,
    g: FastGraphView,
    forward: bool,
    node: NodeId,
    weight: Weight,
) -> bool {
    stalls_from(
        labels,
        edges_of_side(g, !forward),
        begin_of(g, node, !forward),
        end_of(g, node, !forward),
        weight,
    )
}

/// An entry of the queue with this node and weight is passed over: it lies beyond the
/// best weight, or it stalls.
pub open spec fn dismissed(
    side: Side,
    g: FastGraphView,
    forward: bool,
    best: Weight,
    node: NodeId,
    weight: Weight,
) -> bool {
    weight > best || stallable(side.labels, g, forward, node, weight)
}

/// No weight that `lower` holds is larger than the weight that `upper` holds.
pub open spec fn below(lower: Seq<Option<Label>>, upper: Seq<Option<Label>>) -> bool {
    &&& lower.len() == upper.len()
    &&& forall|x: int| 0 <= x < upper.len() ==> label_weight(lower, x) <= label_weight(upper, x)
}

/// What stalls, stalls all the more where weights have become smaller and the weight
/// it was reached with is larger.
pub proof fn lemma_stalls_more(
    labels: Seq<Option<Label>>,
    lower: Seq<Option<Label>>,
    edges: Seq<FastGraphEdge>,
    k: int,
    end: int,
    weight: Weight,
    more: Weight,
)
    requires
        below(lower, labels),
        weight <= more,
        0 <= k,
        end <= edges.len(),
        forall|e: int| k <= e < end ==> (#[trigger] edges[e]).adj_node < labels.len(),
        stalls_from(labels, edges, k, end, weight),
    ensures
        stalls_from(lower, edges, k, end, more),
    decreases end - k,
{
    if k < end {
        let adj = edges[k].adj_node;
        let adj_weight = label_weight(labels, adj as int);
        if adj_weight != WEIGHT_MAX && adj_weight + edges[k].weight < weight {
            assert(label_weight(lower, adj as int) <= adj_weight);
        } else {
            lemma_stalls_more(labels, lower, edges, k + 1, end, weight, more);
        }
    }
}

/// What is passed over is passed over all the more where weights have become smaller,
/// the best weight has become smaller, and the weight it was reached with is larger.
pub proof fn lemma_dismissed_more(
    side: Side,
    lower: Side,
    g: FastGraphView,
    forward: bool,
    best: Weight,
    less: Weight,
    node: NodeId,
    weight: Weight,
    more: Weight,
)
    requires
        g.wf(),
        side.labels.len() == g.num_nodes,
        node < g.num_nodes,
        below(lower.labels, side.labels),
        less <= best,
        weight <= more,
        dismissed(side, g, forward, best, node, weight),
    ensures
        dismissed(lower, g, forward, less, node, more),
{
    if weight > best {
    } else {
        crate::path_calculator::lemma_slice(g, node, !forward);
        lemma_stalls_more(
            side.labels,
            lower.labels,
            edges_of_side(g, !forward),
            begin_of(g, node, !forward),
            end_of(g, node, !forward),
            weight,
            more,
        );
    }
}

/// The entry of the queue that holds the weight of the label of `node`.
pub open spec fn fresh_item(side: Side, node: NodeId) -> HeapItem {
    HeapItem { weight: label_weight(side.labels, node as int), node_id: node }
}

/// No entry of the queue is lighter than the label of its node.
pub open spec fn entries_light(side: Side) -> bool {
    forall|item: HeapItem| #[trigger]
        side.heap.contains(item) ==> label_weight(side.labels, item.node_id as int) <= item.weight
}

/// Every entry of the queue holds the weight of the label of its node, or its node is
/// settled, or it is passed over, or the queue holds an entry with the weight of the
/// label. The node `busy` is left out.
pub open spec fn entries_live(side: Side, g: FastGraphView, forward: bool, best: Weight, busy: int) -> bool {
    forall|item: HeapItem| #[trigger]
        side.heap.contains(item) ==> {
            ||| item.node_id == busy
            ||| item == fresh_item(side, item.node_id)
            ||| label_settled(side.labels, item.node_id as int)
            ||| dismissed(side, g, forward, best, item.node_id, item.weight)
            ||| side.heap.contains(fresh_item(side, item.node_id))
        }
}

/// Every node with a label that is not settled has an entry in the queue with the
/// weight of its label, or is passed over with that weight. The node `busy` is left
/// out.
pub open spec fn labels_live(side: Side, g: FastGraphView, forward: bool, best: Weight, busy: int) -> bool {
    forall|x: int|
        0 <= x < side.labels.len() && (#[trigger] side.labels[x]).is_some() && !label_settled(
            side.labels,
            x,
        ) && x != busy ==> {
            ||| side.heap.contains(fresh_item(side, x as usize))
            ||| dismissed(side, g, forward, best, x as usize, label_weight(side.labels, x))
        }
}

/// Over an edge of a settled node, the end of the edge is held to be not heavier than
/// the node and the edge together.
pub open spec fn edges_done(labels: Seq<Option<Label>>, g: FastGraphView, forward: bool) -> bool {
    forall|x: int, e: int|
        #![trigger labels[x], edges_of_side(g, forward)[e]]
        0 <= x < labels.len() && label_settled(labels, x) && begin_of(g, x as usize, forward) <= e
            < end_of(g, x as usize, forward) ==> label_weight(
            labels,
            edges_of_side(g, forward)[e].adj_node as int,
        ) <= label_weight(labels, x) + edges_of_side(g, forward)[e].weight
}

/// The search is in order. While the edges of the node `busy` are followed, that node
/// is left out of what is said of the queue.
pub open spec fn tidy(side: Side, g: FastGraphView, forward: bool, best: Weight, busy: int) -> bool {
    &&& entries_light(side)
    &&& entries_live(side, g, forward, best, busy)
    &&& labels_live(side, g, forward, best, busy)
    &&& edges_done(side.labels, g, forward)
}

/// A search in order stays in order where the best weight becomes smaller.
pub proof fn lemma_tidy_best(side: Side, g: FastGraphView, forward: bool, best: Weight, less: Weight, busy: int)
    requires
        g.wf(),
        side.fits(g, forward),
        tidy(side, g, forward, best, busy),
        less <= best,
    ensures
        tidy(side, g, forward, less, busy),
{
    assert(below(side.labels, side.labels));
    assert forall|item: HeapItem| #[trigger] side.heap.contains(item) implies {
        ||| item.node_id == busy
        ||| item == fresh_item(side, item.node_id)
        ||| label_settled(side.labels, item.node_id as int)
        ||| dismissed(side, g, forward, less, item.node_id, item.weight)
        ||| side.heap.contains(fresh_item(side, item.node_id))
    } by {
        if dismissed(side, g, forward, best, item.node_id, item.weight) {
            lemma_dismissed_more(
                side,
                side,
                g,
                forward,
                best,
                less,
                item.node_id,
                item.weight,
                item.weight,
            );
        }
    }
    assert forall|x: int|
        0 <= x < side.labels.len() && (#[trigger] side.labels[x]).is_some() && !label_settled(
            side.labels,
            x,
        ) && x != busy implies {
        ||| side.heap.contains(fresh_item(side, x as usize))
        ||| dismissed(side, g, forward, less, x as usize, label_weight(side.labels, x))
    } by {
        if dismissed(side, g, forward, best, x as usize, label_weight(side.labels, x)) {
            lemma_dismissed_more(
                side,
                side,
                g,
                forward,
                best,
                less,
                x as usize,
                label_weight(side.labels, x),
                label_weight(side.labels, x),
            );
        }
    }
}

/// Taking the first entry out of the queue of a search in order: where its node is
/// settled or the entry is passed over, the search stays in order; else the entry holds
/// the weight of the label of its node, and the search is in order but for that node.
pub proof fn lemma_tidy_take(side: Side, g: FastGraphView, forward: bool, best: Weight, curr: HeapItem)
    requires
        g.wf(),
        side.fits(g, forward),
        tidy(side, g, forward, best, -1),
        is_min_of(curr, side.heap),
    ensures
        ({
            let popped = Side { heap: side.heap.remove(curr), ..side };
            if label_settled(side.labels, curr.node_id as int) || dismissed(
                side,
                g,
                forward,
                best,
                curr.node_id,
                curr.weight,
            ) {
                tidy(popped, g, forward, best, -1)
            } else {
                &&& curr == fresh_item(side, curr.node_id)
                &&& tidy(popped, g, forward, best, curr.node_id as int)
            }
        }),
{
    broadcast use vstd::multiset::group_multiset_axioms;

    let popped = Side { heap: side.heap.remove(curr), ..side };
    let node = curr.node_id;
    let done = label_settled(side.labels, node as int) || dismissed(
        side,
        g,
        forward,
        best,
        node,
        curr.weight,
    );
    let busy: int = if done {
        -1
    } else {
        node as int
    };
    assert(below(side.labels, side.labels));
    if !done {
        // the entry is not stale: a fresher one would have come first
        if curr != fresh_item(side, node) {
            assert(side.heap.contains(fresh_item(side, node)));
            assert(curr.precedes(fresh_item(side, node)));
        }
    }
    assert forall|item: HeapItem| #[trigger] popped.heap.contains(item) implies label_weight(
        popped.labels,
        item.node_id as int,
    ) <= item.weight by {
        assert(side.heap.contains(item));
    }
    assert forall|item: HeapItem| #[trigger] popped.heap.contains(item) implies {
        ||| item.node_id == busy
        ||| item == fresh_item(popped, item.node_id)
        ||| label_settled(popped.labels, item.node_id as int)
        ||| dismissed(popped, g, forward, best, item.node_id, item.weight)
        ||| popped.heap.contains(fresh_item(popped, item.node_id))
    } by {
        assert(side.heap.contains(item));
        if item.node_id == node {
            if done && !label_settled(side.labels, node as int) {
                // the entry was passed over: heavier entries of the node are, too
                if item != fresh_item(side, node) && !dismissed(
                    side,
                    g,
                    forward,
                    best,
                    node,
                    item.weight,
                ) {
                    assert(side.heap.contains(fresh_item(side, node)));
                    if curr == fresh_item(side, node) {
                        lemma_dismissed_more(
                            side,
                            side,
                            g,
                            forward,
                            best,
                            best,
                            node,
                            curr.weight,
                            item.weight,
                        );
                    }
                }
            }
        } else {
            if side.heap.contains(fresh_item(side, item.node_id)) {
                assert(fresh_item(side, item.node_id) != curr);
            }
        }
    }
    assert forall|x: int|
        0 <= x < popped.labels.len() && (#[trigger] popped.labels[x]).is_some() && !label_settled(
            popped.labels,
            x,
        ) && x != busy implies {
        ||| popped.heap.contains(fresh_item(popped, x as usize))
        ||| dismissed(popped, g, forward, best, x as usize, label_weight(popped.labels, x))
    } by {
        if x == node {
            // the entry was passed over
            if curr != fresh_item(side, node) {
                if side.heap.contains(fresh_item(side, node)) {
                    assert(popped.heap.contains(fresh_item(side, node)));
                }
            }
        } else {
            if side.heap.contains(fresh_item(side, x as usize)) {
                assert(fresh_item(side, x as usize) != curr);
            }
        }
    }
}

/// Every label of `after` is the label of `before`, or is not settled.
pub open spec fn settled_kept(after: Seq<Option<Label>>, before: Seq<Option<Label>>) -> bool {
    forall|y: int|
        0 <= y < after.len() && label_settled(after, y) ==> (#[trigger] after[y]) == before[y]
}

/// A new label for `node` with less weight than it had, while `busy` is another node.
pub open spec fn reaches(side: Side, next: Side, node: NodeId, weight: Weight, busy: int) -> bool {
    &&& node < side.labels.len()
    &&& node != busy
    &&& weight < label_weight(side.labels, node as int)
    &&& next.labels.len() == side.labels.len()
    &&& next.labels[node as int].is_some()
    &&& next.labels[node as int].unwrap().weight == weight
    &&& !next.labels[node as int].unwrap().settled
    &&& forall|x: int| 0 <= x < side.labels.len() && x != node ==> next.labels[x] == side.labels[x]
    &&& next.heap == side.heap.insert(HeapItem { weight, node_id: node })
}

proof fn lemma_reaches_below(side: Side, next: Side, node: NodeId, weight: Weight, busy: int)
    requires
        reaches(side, next, node, weight, busy),
    ensures
        below(next.labels, side.labels),
        settled_kept(next.labels, side.labels),
        fresh_item(next, node) == (HeapItem { weight, node_id: node }),
        next.heap.contains(fresh_item(next, node)),
        forall|x: NodeId| x < side.labels.len() && x != node ==> #[trigger] fresh_item(next, x) == fresh_item(side, x),
{
    broadcast use vstd::multiset::group_multiset_axioms;

    assert forall|x: int| 0 <= x < side.labels.len() implies label_weight(next.labels, x)
        <= label_weight(side.labels, x) by {
        if x != node {
            assert(next.labels[x] == side.labels[x]);
        }
    }
}

proof fn lemma_reaches_entries_light(side: Side, next: Side, node: NodeId, weight: Weight, busy: int)
    requires
        reaches(side, next, node, weight, busy),
        entries_light(side),
        forall|item: HeapItem| #[trigger] side.heap.contains(item) ==> item.node_id < side.labels.len(),
    ensures
        entries_light(next),
{
    broadcast use vstd::multiset::group_multiset_axioms;

    lemma_reaches_below(side, next, node, weight, busy);
    let added = HeapItem { weight, node_id: node };
    assert forall|item: HeapItem| #[trigger] next.heap.contains(item) implies label_weight(
        next.labels,
        item.node_id as int,
    ) <= item.weight by {
        if item != added {
            assert(side.heap.contains(item));
            assert(label_weight(next.labels, item.node_id as int) <= label_weight(
                side.labels,
                item.node_id as int,
            ));
        }
    }
}

proof fn lemma_reaches_entries_live(
    side: Side,
    next: Side,
    g: FastGraphView,
    forward: bool,
    best: Weight,
    node: NodeId,
    weight: Weight,
    busy: int,
)
    requires
        g.wf(),
        side.fits(g, forward),
        reaches(side, next, node, weight, busy),
        entries_live(side, g, forward, best, busy),
    ensures
        entries_live(next, g, forward, best, busy),
{
    broadcast use vstd::multiset::group_multiset_axioms;

    lemma_reaches_below(side, next, node, weight, busy);
    let added = HeapItem { weight, node_id: node };
    assert forall|item: HeapItem| #[trigger] next.heap.contains(item) implies {
        ||| item.node_id == busy
        ||| item == fresh_item(next, item.node_id)
        ||| label_settled(next.labels, item.node_id as int)
        ||| dismissed(next, g, forward, best, item.node_id, item.weight)
        ||| next.heap.contains(fresh_item(next, item.node_id))
    } by {
        if item != added && item.node_id != node && item.node_id != busy {
            assert(side.heap.contains(item));
            let y = item.node_id;
            assert(next.labels[y as int] == side.labels[y as int]);
            assert(fresh_item(next, y) == fresh_item(side, y));
            if dismissed(side, g, forward, best, y, item.weight) {
                lemma_dismissed_more(side, next, g, forward, best, best, y, item.weight, item.weight);
            } else if side.heap.contains(fresh_item(side, y)) {
                assert(next.heap.contains(fresh_item(side, y)));
            }
        }
    }
}

proof fn lemma_reaches_labels_live(
    side: Side,
    next: Side,
    g: FastGraphView,
    forward: bool,
    best: Weight,
    node: NodeId,
    weight: Weight,
    busy: int,
)
    requires
        g.wf(),
        side.fits(g, forward),
        reaches(side, next, node, weight, busy),
        labels_live(side, g, forward, best, busy),
    ensures
        labels_live(next, g, forward, best, busy),
{
    broadcast use vstd::multiset::group_multiset_axioms;

    lemma_reaches_below(side, next, node, weight, busy);
    assert forall|x: int|
        0 <= x < next.labels.len() && (#[trigger] next.labels[x]).is_some() && !label_settled(
            next.labels,
            x,
        ) && x != busy implies {
        ||| next.heap.contains(fresh_item(next, x as usize))
        ||| dismissed(next, g, forward, best, x as usize, label_weight(next.labels, x))
    } by {
        if x != node {
            assert(next.labels[x] == side.labels[x]);
            assert(side.labels[x].is_some());
            assert(fresh_item(next, x as usize) == fresh_item(side, x as usize));
            let w = label_weight(side.labels, x);
            if dismissed(side, g, forward, best, x as usize, w) {
                lemma_dismissed_more(side, next, g, forward, best, best, x as usize, w, w);
            } else {
                assert(side.heap.contains(fresh_item(side, x as usize)));
                assert(next.heap.contains(fresh_item(side, x as usize)));
            }
        }
    }
}

proof fn lemma_reaches_edges_done(
    side: Side,
    next: Side,
    g: FastGraphView,
    forward: bool,
    node: NodeId,
    weight: Weight,
    busy: int,
)
    requires
        g.wf(),
        side.labels.len() == g.num_nodes,
        reaches(side, next, node, weight, busy),
        edges_done(side.labels, g, forward),
    ensures
        edges_done(next.labels, g, forward),
{
    lemma_reaches_below(side, next, node, weight, busy);
    assert forall|x: int, e: int|
        #![trigger next.labels[x], edges_of_side(g, forward)[e]]
        0 <= x < next.labels.len() && label_settled(next.labels, x) && begin_of(
            g,
            x as usize,
            forward,
        ) <= e < end_of(g, x as usize, forward) implies label_weight(
        next.labels,
        edges_of_side(g, forward)[e].adj_node as int,
    ) <= label_weight(next.labels, x) + edges_of_side(g, forward)[e].weight by {
        assert(x != node);
        assert(next.labels[x] == side.labels[x]);
        assert(label_settled(side.labels, x));
        lemma_leads_up(g, forward, x as usize, e);
        let edge = edges_of_side(g, forward)[e];
        let z = edge.adj_node;
        assert(label_weight(side.labels, z as int) <= label_weight(side.labels, x) + edge.weight);
        assert(label_weight(next.labels, z as int) <= label_weight(side.labels, z as int));
    }
}

/// Following an edge of the node `curr` keeps the search in order but for that node.
/// Afterwards the end of the edge is held to be not heavier than the entry and the
/// edge together.
pub proof fn lemma_tidy_relax_edge(
    side: Side,
    g: FastGraphView,
    forward: bool,
    best: Weight,
    k: int,
    curr: HeapItem,
)
    requires
        g.wf(),
        side.fits(g, forward),
        tidy(side, g, forward, best, curr.node_id as int),
        curr.node_id < g.num_nodes,
        side.labels[curr.node_id as int].is_some(),
        begin_of(g, curr.node_id, forward) <= k < end_of(g, curr.node_id, forward),
    ensures
        ({
            let edge = edges_of_side(g, forward)[k];
            let next = side.relax_edge(edge, k, curr);
            &&& tidy(next, g, forward, best, curr.node_id as int)
            &&& next.fits(g, forward)
            &&& below(next.labels, side.labels)
            &&& settled_kept(next.labels, side.labels)
            &&& next.labels[curr.node_id as int] == side.labels[curr.node_id as int]
            &&& label_weight(next.labels, edge.adj_node as int) <= curr.weight + edge.weight
        }),
{
    let edge = edges_of_side(g, forward)[k];
    let next = side.relax_edge(edge, k, curr);
    let busy = curr.node_id as int;
    lemma_slice(g, curr.node_id, forward);
    lemma_leads_up(g, forward, curr.node_id, k);
    lemma_relax_edge(side, g, forward, k, curr);
    let a = edge.adj_node;
    assert(a != curr.node_id);
    if curr.weight + edge.weight < label_weight(side.labels, a as int) {
        let reached = (curr.weight + edge.weight) as usize;
        assert(next == side.reach(a, reached, curr.node_id, k as usize));
        assert(reaches(side, next, a, reached, busy));
        lemma_reaches_below(side, next, a, reached, busy);
        lemma_reaches_entries_light(side, next, a, reached, busy);
        lemma_reaches_entries_live(side, next, g, forward, best, a, reached, busy);
        lemma_reaches_labels_live(side, next, g, forward, best, a, reached, busy);
        lemma_reaches_edges_done(side, next, g, forward, a, reached, busy);
    } else {
        assert(next == side);
        assert(below(side.labels, side.labels));
    }
}

/// Following the edges of the node `curr` keeps the search in order but for that
/// node. Afterwards the end of every edge is held to be not heavier than the entry and
/// the edge together.
pub proof fn lemma_tidy_relax(
    side: Side,
    g: FastGraphView,
    forward: bool,
    best: Weight,
    k: int,
    end: int,
    curr: HeapItem,
)
    requires
        g.wf(),
        side.fits(g, forward),
        tidy(side, g, forward, best, curr.node_id as int),
        curr.node_id < g.num_nodes,
        side.labels[curr.node_id as int].is_some(),
        begin_of(g, curr.node_id, forward) <= k <= end,
        end == end_of(g, curr.node_id, forward),
    ensures
        ({
            let last = side.relax_from(edges_of_side(g, forward), k, end, curr);
            &&& tidy(last, g, forward, best, curr.node_id as int)
            &&& last.fits(g, forward)
            &&& below(last.labels, side.labels)
            &&& settled_kept(last.labels, side.labels)
            &&& last.labels[curr.node_id as int] == side.labels[curr.node_id as int]
            &&& forall|e: int|
                k <= e < end ==> label_weight(
                    last.labels,
                    (#[trigger] edges_of_side(g, forward)[e]).adj_node as int,
                ) <= curr.weight + edges_of_side(g, forward)[e].weight
        }),
    decreases end - k,
{
    if k < end {
        lemma_tidy_relax_edge(side, g, forward, best, k, curr);
        let edges = edges_of_side(g, forward);
        let next = side.relax_edge(edges[k], k, curr);
        lemma_tidy_relax(next, g, forward, best, k + 1, end, curr);
        let last = next.relax_from(edges, k + 1, end, curr);
        assert(last == side.relax_from(edges, k, end, curr));
        lemma_slice(g, curr.node_id, forward);
        assert forall|e: int| k <= e < end implies label_weight(
            last.labels,
            (#[trigger] edges_of_side(g, forward)[e]).adj_node as int,
        ) <= curr.weight + edges_of_side(g, forward)[e].weight by {
            if e == k {
                assert(edges[k].adj_node < g.num_nodes);
                assert(label_weight(last.labels, edges[k].adj_node as int) <= label_weight(
                    next.labels,
                    edges[k].adj_node as int,
                ));
            }
        }
        assert(below(last.labels, side.labels)) by {
            assert forall|x: int| 0 <= x < side.labels.len() implies label_weight(last.labels, x)
                <= label_weight(side.labels, x) by {
                assert(label_weight(last.labels, x) <= label_weight(next.labels, x));
            }
        }
        assert forall|y: int| 0 <= y < last.labels.len() && label_settled(last.labels, y) implies (
        #[trigger] last.labels[y]) == side.labels[y] by {
            assert(last.labels[y] == next.labels[y]);
            assert(label_settled(next.labels, y));
        }
    } else {
        assert(below(side.labels, side.labels));
    }
}

/// Marking the node whose edges were followed as settled brings the search in order.
pub proof fn lemma_tidy_settle(side: Side, g: FastGraphView, forward: bool, best: Weight, node: NodeId)
    requires
        g.wf(),
        side.fits(g, forward),
        tidy(side, g, forward, best, node as int),
        node < g.num_nodes,
        side.labels[node as int].is_some(),
        forall|e: int|
            begin_of(g, node, forward) <= e < end_of(g, node, forward) ==> label_weight(
                side.labels,
                (#[trigger] edges_of_side(g, forward)[e]).adj_node as int,
            ) <= label_weight(side.labels, node as int) + edges_of_side(g, forward)[e].weight,
    ensures
        tidy(side.settle(node), g, forward, best, -1),
        below(side.settle(node).labels, side.labels),
        below(side.labels, side.settle(node).labels),
{
    let settled = side.settle(node);
    assert forall|x: int| 0 <= x < side.labels.len() implies label_weight(settled.labels, x)
        == label_weight(side.labels, x) by {}
    assert(below(settled.labels, side.labels));
    assert(below(side.labels, settled.labels));
    assert forall|y: NodeId| y < side.labels.len() implies #[trigger] fresh_item(settled, y)
        == fresh_item(side, y) by {}
    assert(entries_light(settled)) by {
        assert forall|item: HeapItem| #[trigger] settled.heap.contains(item) implies label_weight(
            settled.labels,
            item.node_id as int,
        ) <= item.weight by {
            assert(side.heap.contains(item));
        }
    }
    assert(entries_live(settled, g, forward, best, -1)) by {
        assert forall|item: HeapItem| #[trigger] settled.heap.contains(item) implies {
            ||| item.node_id == -1
            ||| item == fresh_item(settled, item.node_id)
            ||| label_settled(settled.labels, item.node_id as int)
            ||| dismissed(settled, g, forward, best, item.node_id, item.weight)
            ||| settled.heap.contains(fresh_item(settled, item.node_id))
        } by {
            assert(side.heap.contains(item));
            assert(fresh_item(settled, item.node_id) == fresh_item(side, item.node_id));
            if item.node_id != node {
                if dismissed(side, g, forward, best, item.node_id, item.weight) {
                    lemma_dismissed_more(
                        side,
                        settled,
                        g,
                        forward,
                        best,
                        best,
                        item.node_id,
                        item.weight,
                        item.weight,
                    );
                }
            }
        }
    }
    assert(labels_live(settled, g, forward, best, -1)) by {
        assert forall|x: int|
            0 <= x < settled.labels.len() && (#[trigger] settled.labels[x]).is_some()
                && !label_settled(settled.labels, x) && x != -1 implies {
            ||| settled.heap.contains(fresh_item(settled, x as usize))
            ||| dismissed(settled, g, forward, best, x as usize, label_weight(settled.labels, x))
        } by {
            assert(x != node);
            assert(settled.labels[x] == side.labels[x]);
            assert(side.labels[x].is_some());
            assert(fresh_item(settled, x as usize) == fresh_item(side, x as usize));
            let w = label_weight(side.labels, x);
            if dismissed(side, g, forward, best, x as usize, w) {
                lemma_dismissed_more(side, settled, g, forward, best, best, x as usize, w, w);
            }
        }
    }
    assert(edges_done(settled.labels, g, forward)) by {
        assert forall|x: int, e: int|
            #![trigger settled.labels[x], edges_of_side(g, forward)[e]]
            0 <= x < settled.labels.len() && label_settled(settled.labels, x) && begin_of(
                g,
                x as usize,
                forward,
            ) <= e < end_of(g, x as usize, forward) implies label_weight(
            settled.labels,
            edges_of_side(g, forward)[e].adj_node as int,
        ) <= label_weight(settled.labels, x) + edges_of_side(g, forward)[e].weight by {
            lemma_leads_up(g, forward, x as usize, e);
            let edge = edges_of_side(g, forward)[e];
            if x != node {
                assert(settled.labels[x] == side.labels[x]);
                assert(label_settled(side.labels, x));
                assert(label_weight(side.labels, edge.adj_node as int) <= label_weight(
                    side.labels,
                    x,
                ) + edge.weight);
            }
        }
    }
}

/// Every label is not lighter than the way it stands for: the label of a node that
/// was reached over an edge is not lighter than the label of its parent and that edge
/// together, and the label of a node that was reached without an edge is not lighter
/// than one of the seeds at that node.
pub open spec fn traced(
    labels: Seq<Option<Label>>,
    g: FastGraphView,
    forward: bool,
    seeds: Seq<(NodeId, Weight)>,
) -> bool {
    forall|x: int|
        0 <= x < labels.len() && (#[trigger] labels[x]).is_some() ==> {
            let label = labels[x].unwrap();
            if label.inc_edge == INVALID_EDGE {
                exists|i: int|
                    0 <= i < seeds.len() && (#[trigger] seeds[i]).0 == x && seeds[i].1 < WEIGHT_MAX
                        && seeds[i].1 <= label.weight
            } else {
                &&& label.parent < labels.len()
                &&& label.inc_edge < edges_of_side(g, forward).len()
                &&& label_weight(labels, label.parent as int) + edges_of_side(
                    g,
                    forward,
                )[label.inc_edge as int].weight <= label.weight
            }
        }
}

/// Following an edge of the node `curr` keeps every label not lighter than the way it
/// stands for, as long as the entry is not lighter than the label of its node.
pub proof fn lemma_relax_edge_traced(
    side: Side,
    g: FastGraphView,
    forward: bool,
    seeds: Seq<(NodeId, Weight)>,
    k: int,
    curr: HeapItem,
)
    requires
        g.wf(),
        side.fits(g, forward),
        traced(side.labels, g, forward, seeds),
        curr.node_id < g.num_nodes,
        side.labels[curr.node_id as int].is_some(),
        label_weight(side.labels, curr.node_id as int) <= curr.weight,
        begin_of(g, curr.node_id, forward) <= k < end_of(g, curr.node_id, forward),
    ensures
        ({
            let next = side.relax_edge(edges_of_side(g, forward)[k], k, curr);
            &&& traced(next.labels, g, forward, seeds)
            &&& next.fits(g, forward)
            &&& below(next.labels, side.labels)
            &&& next.labels[curr.node_id as int] == side.labels[curr.node_id as int]
        }),
{
    let edge = edges_of_side(g, forward)[k];
    let next = side.relax_edge(edge, k, curr);
    lemma_slice(g, curr.node_id, forward);
    lemma_leads_up(g, forward, curr.node_id, k);
    lemma_relax_edge(side, g, forward, k, curr);
    let a = edge.adj_node;
    assert(a != curr.node_id);
    if curr.weight + edge.weight < label_weight(side.labels, a as int) {
        let reached = (curr.weight + edge.weight) as usize;
        assert(next == side.reach(a, reached, curr.node_id, k as usize));
        assert(reaches(side, next, a, reached, curr.node_id as int));
        lemma_reaches_below(side, next, a, reached, curr.node_id as int);
        assert forall|x: int| 0 <= x < next.labels.len() && (#[trigger] next.labels[x]).is_some() implies {
            let label = next.labels[x].unwrap();
            if label.inc_edge == INVALID_EDGE {
                exists|i: int|
                    0 <= i < seeds.len() && (#[trigger] seeds[i]).0 == x && seeds[i].1 < WEIGHT_MAX
                        && seeds[i].1 <= label.weight
            } else {
                &&& label.parent < next.labels.len()
                &&& label.inc_edge < edges_of_side(g, forward).len()
                &&& label_weight(next.labels, label.parent as int) + edges_of_side(
                    g,
                    forward,
                )[label.inc_edge as int].weight <= label.weight
            }
        } by {
            if x != a {
                assert(next.labels[x] == side.labels[x]);
                assert(side.labels[x].is_some());
                let label = side.labels[x].unwrap();
                if label.inc_edge != INVALID_EDGE {
                    assert(label_weight(next.labels, label.parent as int) <= label_weight(
                        side.labels,
                        label.parent as int,
                    ));
                }
            }
        }
    } else {
        assert(next == side);
        assert(below(side.labels, side.labels));
    }
}

/// Following the edges of the node `curr` keeps every label not lighter than the way
/// it stands for, as long as the entry is not lighter than the label of its node.
pub proof fn lemma_relax_traced(
    side: Side,
    g: FastGraphView,
    forward: bool,
    seeds: Seq<(NodeId, Weight)>,
    k: int,
    end: int,
    curr: HeapItem,
)
    requires
        g.wf(),
        side.fits(g, forward),
        traced(side.labels, g, forward, seeds),
        curr.node_id < g.num_nodes,
        side.labels[curr.node_id as int].is_some(),
        label_weight(side.labels, curr.node_id as int) <= curr.weight,
        begin_of(g, curr.node_id, forward) <= k <= end,
        end == end_of(g, curr.node_id, forward),
    ensures
        ({
            let last = side.relax_from(edges_of_side(g, forward), k, end, curr);
            &&& traced(last.labels, g, forward, seeds)
            &&& last.fits(g, forward)
            &&& below(last.labels, side.labels)
            &&& last.labels[curr.node_id as int] == side.labels[curr.node_id as int]
        }),
    decreases end - k,
{
    if k < end {
        lemma_relax_edge_traced(side, g, forward, seeds, k, curr);
        let edges = edges_of_side(g, forward);
        let next = side.relax_edge(edges[k], k, curr);
        lemma_relax_traced(next, g, forward, seeds, k + 1, end, curr);
        let last = next.relax_from(edges, k + 1, end, curr);
        assert(last == side.relax_from(edges, k, end, curr));
        assert(below(last.labels, side.labels)) by {
            assert forall|x: int| 0 <= x < side.labels.len() implies label_weight(last.labels, x)
                <= label_weight(side.labels, x) by {
                assert(label_weight(last.labels, x) <= label_weight(next.labels, x));
            }
        }
    } else {
        assert(below(side.labels, side.labels));
    }
}

/// Marking a node as settled keeps every label not lighter than the way it stands for.
pub proof fn lemma_settle_traced(
    side: Side,
    g: FastGraphView,
    forward: bool,
    seeds: Seq<(NodeId, Weight)>,
    node: NodeId,
)
    requires
        traced(side.labels, g, forward, seeds),
        node < side.labels.len(),
        side.labels[node as int].is_some(),
    ensures
        traced(side.settle(node).labels, g, forward, seeds),
{
    let settled = side.settle(node);
    assert forall|x: int| 0 <= x < side.labels.len() implies label_weight(settled.labels, x)
        == label_weight(side.labels, x) by {}
    assert forall|x: int|
        0 <= x < settled.labels.len() && (#[trigger] settled.labels[x]).is_some() implies {
        let label = settled.labels[x].unwrap();
        if label.inc_edge == INVALID_EDGE {
            exists|i: int|
                0 <= i < seeds.len() && (#[trigger] seeds[i]).0 == x && seeds[i].1 < WEIGHT_MAX
                    && seeds[i].1 <= label.weight
        } else {
            &&& label.parent < settled.labels.len()
            &&& label.inc_edge < edges_of_side(g, forward).len()
            &&& label_weight(settled.labels, label.parent as int) + edges_of_side(
                g,
                forward,
            )[label.inc_edge as int].weight <= label.weight
        }
    } by {
        assert(side.labels[x].is_some());
        let label = side.labels[x].unwrap();
        if label.inc_edge != INVALID_EDGE {
            assert(label_weight(settled.labels, label.parent as int) == label_weight(
                side.labels,
                label.parent as int,
            ));
        }
    }
}

/// Where there is a meeting node, the best weight is not less than the weights of
/// both its labels together.
pub open spec fn met(q: Query) -> bool {
    q.meeting_node != INVALID_NODE ==> q.meeting_node < q.fwd.labels.len() && label_weight(
        q.fwd.labels,
        q.meeting_node as int,
    ) + label_weight(q.bwd.labels, q.meeting_node as int) <= q.best_weight
}

/// Every label of both searches is not lighter than the way it stands for, and the
/// best weight is not less than the labels of the meeting node together.
pub open spec fn query_traced(
    q: Query,
    g: FastGraphView,
    starts: Seq<(NodeId, Weight)>,
    ends: Seq<(NodeId, Weight)>,
) -> bool {
    &&& traced(q.fwd.labels, g, true, starts)
    &&& traced(q.bwd.labels, g, false, ends)
    &&& met(q)
}

/// Where both searches have settled a node, the best weight is not larger than the
/// weights of both its labels together.
pub open spec fn meets_known(q: Query) -> bool {
    forall|x: int|
        0 <= x < q.fwd.labels.len() && #[trigger] label_settled(q.fwd.labels, x) && label_settled(
            q.bwd.labels,
            x,
        ) ==> q.best_weight <= label_weight(q.fwd.labels, x) + label_weight(q.bwd.labels, x)
}

/// The query is in order: both searches are, every node that both have settled is
/// known as a place to meet, and where the best weight is finite there is a meeting
/// node.
pub open spec fn in_order(q: Query, g: FastGraphView) -> bool {
    &&& tidy(q.side(true), g, true, q.best_weight, -1)
    &&& tidy(q.side(false), g, false, q.best_weight, -1)
    &&& meets_known(q)
    &&& q.best_weight < WEIGHT_MAX ==> q.meeting_node != INVALID_NODE
}

/// What a step keeps of the labels of both searches: no weight becomes larger.
pub open spec fn lowered(q: Query, r: Query) -> bool {
    &&& below(r.fwd.labels, q.fwd.labels)
    &&& below(r.bwd.labels, q.bwd.labels)
}

/// The step that settles the node of the entry `curr` keeps the query in order.
proof fn lemma_settle_order(q: Query, g: FastGraphView, forward: bool, curr: HeapItem)
    requires
        q.fits(g),
        in_order(q, g),
        q.side(forward).heap.contains(curr),
        curr.weight <= q.best_weight,
        curr == fresh_item(q.side(forward), curr.node_id),
        tidy(
            Side { heap: q.side(forward).heap.remove(curr), ..q.side(forward) },
            g,
            forward,
            q.best_weight,
            curr.node_id as int,
        ),
    ensures
        ({
            let side = q.side(forward);
            let other = q.side(!forward);
            let popped = Side { heap: side.heap.remove(curr), ..side };
            let settled = popped.relax_from(
                edges_of_side(g, forward),
                begin_of(g, curr.node_id, forward),
                end_of(g, curr.node_id, forward),
                curr,
            ).settle(curr.node_id);
            let together = curr.weight + label_weight(other.labels, curr.node_id as int);
            let r = if other.labels[curr.node_id as int].is_some() && together < q.best_weight {
                Query {
                    best_weight: together as usize,
                    meeting_node: curr.node_id,
                    ..q.with_side(forward, settled)
                }
            } else {
                q.with_side(forward, settled)
            };
            in_order(r, g) && lowered(q, r)
        }),
{
    let side = q.side(forward);
    let other = q.side(!forward);
    let node = curr.node_id;
    let popped = Side { heap: side.heap.remove(curr), ..side };
    lemma_take(side, g, forward, curr);
    lemma_slice(g, node, forward);
    let begin = begin_of(g, node, forward);
    let end = end_of(g, node, forward);
    lemma_tidy_relax(popped, g, forward, q.best_weight, begin, end, curr);
    let relaxed = popped.relax_from(edges_of_side(g, forward), begin, end, curr);
    assert(label_weight(relaxed.labels, node as int) == curr.weight);
    lemma_tidy_settle(relaxed, g, forward, q.best_weight, node);
    let settled = relaxed.settle(node);
    let together = curr.weight + label_weight(other.labels, node as int);
    let r = if other.labels[node as int].is_some() && together < q.best_weight {
        Query { best_weight: together as usize, meeting_node: node, ..q.with_side(forward, settled) }
    } else {
        q.with_side(forward, settled)
    };
    assert(r.side(forward) == settled);
    assert(r.side(!forward) == other);
    assert(r.best_weight <= q.best_weight);
    lemma_settle(relaxed, g, forward, node);
    lemma_relax(popped, g, forward, begin, end, curr);
    lemma_tidy_best(settled, g, forward, q.best_weight, r.best_weight, -1);
    lemma_tidy_best(other, g, !forward, q.best_weight, r.best_weight, -1);
    assert(below(settled.labels, side.labels)) by {
        assert forall|x: int| 0 <= x < side.labels.len() implies label_weight(settled.labels, x)
            <= label_weight(side.labels, x) by {
            assert(label_weight(settled.labels, x) <= label_weight(relaxed.labels, x));
            assert(label_weight(relaxed.labels, x) <= label_weight(popped.labels, x));
        }
    }
    assert(below(other.labels, other.labels));
    assert(meets_known(r)) by {
        assert forall|x: int|
            0 <= x < r.fwd.labels.len() && #[trigger] label_settled(r.fwd.labels, x)
                && label_settled(r.bwd.labels, x) implies r.best_weight <= label_weight(
            r.fwd.labels,
            x,
        ) + label_weight(r.bwd.labels, x) by {
            if x == node {
                assert(label_weight(settled.labels, x) == curr.weight);
                assert(label_settled(other.labels, x));
                assert(other.labels[x].is_some());
            } else {
                assert(label_settled(settled.labels, x));
                assert(settled.labels[x] == relaxed.labels[x]);
                assert(label_settled(relaxed.labels, x));
                assert(relaxed.labels[x] == popped.labels[x]);
                assert(label_settled(q.fwd.labels, x));
                assert(label_settled(q.bwd.labels, x));
            }
        }
    }
}

/// Settling the node of the entry `curr` keeps every label of the search not lighter
/// than the way it stands for, and makes no weight larger.
proof fn lemma_side_settle_traced(
    side: Side,
    g: FastGraphView,
    forward: bool,
    seeds: Seq<(NodeId, Weight)>,
    curr: HeapItem,
)
    requires
        g.wf(),
        side.fits(g, forward),
        traced(side.labels, g, forward, seeds),
        side.heap.contains(curr),
        label_weight(side.labels, curr.node_id as int) <= curr.weight,
    ensures
        ({
            let popped = Side { heap: side.heap.remove(curr), ..side };
            let settled = popped.relax_from(
                edges_of_side(g, forward),
                begin_of(g, curr.node_id, forward),
                end_of(g, curr.node_id, forward),
                curr,
            ).settle(curr.node_id);
            &&& traced(settled.labels, g, forward, seeds)
            &&& below(settled.labels, side.labels)
            &&& label_weight(settled.labels, curr.node_id as int) <= curr.weight
        }),
{
    let node = curr.node_id;
    let popped = Side { heap: side.heap.remove(curr), ..side };
    lemma_take(side, g, forward, curr);
    lemma_slice(g, node, forward);
    let begin = begin_of(g, node, forward);
    let end = end_of(g, node, forward);
    lemma_relax_traced(popped, g, forward, seeds, begin, end, curr);
    let relaxed = popped.relax_from(edges_of_side(g, forward), begin, end, curr);
    lemma_settle_traced(relaxed, g, forward, seeds, node);
    let settled = relaxed.settle(node);
    assert forall|x: int| 0 <= x < side.labels.len() implies label_weight(settled.labels, x)
        <= label_weight(side.labels, x) by {
        assert(label_weight(settled.labels, x) == label_weight(relaxed.labels, x));
        assert(label_weight(relaxed.labels, x) <= label_weight(popped.labels, x));
    }
}

/// The best weight stays not less than the labels of the meeting node together where
/// no weight becomes larger, and where a node becomes the meeting node with the weights
/// of both its labels as the best weight.
proof fn lemma_met_kept(q: Query, r: Query, forward: bool, node: NodeId, weight: Weight)
    requires
        met(q),
        r.side(!forward) == q.side(!forward),
        below(r.side(forward).labels, q.side(forward).labels),
        q.fwd.labels.len() == q.bwd.labels.len(),
        node < q.fwd.labels.len(),
        label_weight(r.side(forward).labels, node as int) <= weight,
        (r.best_weight == q.best_weight && r.meeting_node == q.meeting_node) || (r.meeting_node
            == node && r.best_weight == weight + label_weight(
            q.side(!forward).labels,
            node as int,
        )),
    ensures
        met(r),
{
    if r.meeting_node != INVALID_NODE {
        let m = r.meeting_node as int;
        if r.best_weight == q.best_weight && r.meeting_node == q.meeting_node {
            assert(label_weight(r.side(forward).labels, m) <= label_weight(q.side(forward).labels, m));
        }
    }
}

/// The step that settles the node of the entry `curr` keeps every label not lighter
/// than the way it stands for.
proof fn lemma_settle_step_traced(
    q: Query,
    g: FastGraphView,
    forward: bool,
    curr: HeapItem,
    starts: Seq<(NodeId, Weight)>,
    ends: Seq<(NodeId, Weight)>,
)
    requires
        q.fits(g),
        query_traced(q, g, starts, ends),
        entries_light(q.side(forward)),
        q.side(forward).heap.contains(curr),
    ensures
        ({
            let side = q.side(forward);
            let other = q.side(!forward);
            let popped = Side { heap: side.heap.remove(curr), ..side };
            let settled = popped.relax_from(
                edges_of_side(g, forward),
                begin_of(g, curr.node_id, forward),
                end_of(g, curr.node_id, forward),
                curr,
            ).settle(curr.node_id);
            let together = curr.weight + label_weight(other.labels, curr.node_id as int);
            let r = if other.labels[curr.node_id as int].is_some() && together < q.best_weight {
                Query {
                    best_weight: together as usize,
                    meeting_node: curr.node_id,
                    ..q.with_side(forward, settled)
                }
            } else {
                q.with_side(forward, settled)
            };
            query_traced(r, g, starts, ends)
        }),
{
    let side = q.side(forward);
    let other = q.side(!forward);
    let node = curr.node_id;
    let seeds = if forward {
        starts
    } else {
        ends
    };
    lemma_side_settle_traced(side, g, forward, seeds, curr);
    let popped = Side { heap: side.heap.remove(curr), ..side };
    let settled = popped.relax_from(
        edges_of_side(g, forward),
        begin_of(g, node, forward),
        end_of(g, node, forward),
        curr,
    ).settle(node);
    let together = curr.weight + label_weight(other.labels, node as int);
    let r = if other.labels[node as int].is_some() && together < q.best_weight {
        Query { best_weight: together as usize, meeting_node: node, ..q.with_side(forward, settled) }
    } else {
        q.with_side(forward, settled)
    };
    assert(r.side(forward) == settled);
    assert(r.side(!forward) == other);
    lemma_met_kept(q, r, forward, node, curr.weight);
}

/// A step of a search keeps the query in order, and makes no weight larger. Where
/// every label is not lighter than the way it stands for, this stays so.
pub proof fn lemma_advance_order(
    q: Query,
    g: FastGraphView,
    forward: bool,
    starts: Seq<(NodeId, Weight)>,
    ends: Seq<(NodeId, Weight)>,
)
    requires
        q.fits(g),
        in_order(q, g),
    ensures
        in_order(q.advance(g, forward), g),
        lowered(q, q.advance(g, forward)),
        query_traced(q, g, starts, ends) ==> query_traced(q.advance(g, forward), g, starts, ends),
    decreases q.side(forward).heap.len(),
{
    let side = q.side(forward);
    let curr = min_item(side.heap);
    assert(below(q.fwd.labels, q.fwd.labels));
    assert(below(q.bwd.labels, q.bwd.labels));
    if side.heap.len() == 0 || !side.heap.contains(curr) {
    } else {
        crate::min_heap::lemma_min_exists(side.heap);
        let popped = Side { heap: side.heap.remove(curr), ..side };
        lemma_take(side, g, forward, curr);
        lemma_tidy_take(side, g, forward, q.best_weight, curr);
        let q1 = q.with_side(forward, popped);
        assert(q1.side(forward) == popped);
        assert(q1.side(!forward) == q.side(!forward));
        if label_settled(side.labels, curr.node_id as int) {
            assert(meets_known(q1));
            lemma_advance_order(q1, g, forward, starts, ends);
        } else if curr.weight > q.best_weight {
            assert(meets_known(q1));
        } else if stalls_from(
            side.labels,
            edges_of_side(g, !forward),
            begin_of(g, curr.node_id, !forward),
            end_of(g, curr.node_id, !forward),
            curr.weight,
        ) {
            assert(meets_known(q1));
            lemma_advance_order(q1, g, forward, starts, ends);
        } else {
            lemma_settle_order(q, g, forward, curr);
            if query_traced(q, g, starts, ends) {
                lemma_settle_step_traced(q, g, forward, curr, starts, ends);
            }
        }
    }
}

/// Running both searches to their end keeps the query in order, and makes no weight
/// larger. Where every label is not lighter than the way it stands for, this stays so.
pub proof fn lemma_run_order(
    q: Query,
    g: FastGraphView,
    starts: Seq<(NodeId, Weight)>,
    ends: Seq<(NodeId, Weight)>,
)
    requires
        q.fits(g),
        in_order(q, g),
    ensures
        in_order(q.run(g), g),
        lowered(q, q.run(g)),
        q.run(g).fwd.heap.len() == 0,
        q.run(g).bwd.heap.len() == 0,
        query_traced(q, g, starts, ends) ==> query_traced(q.run(g), g, starts, ends),
    decreases
            total_weight(q.fwd.labels) + total_weight(q.bwd.labels),
            q.fwd.heap.len() + q.bwd.heap.len(),
{
    assert(below(q.fwd.labels, q.fwd.labels));
    assert(below(q.bwd.labels, q.bwd.labels));
    if q.fwd.heap.len() == 0 && q.bwd.heap.len() == 0 {
    } else {
        lemma_advance(q, g, true);
        lemma_advance_order(q, g, true, starts, ends);
        let q1 = q.advance(g, true);
        lemma_advance(q1, g, false);
        lemma_advance_order(q1, g, false, starts, ends);
        let q2 = q1.advance(g, false);
        lemma_run_order(q2, g, starts, ends);
        let r = q2.run(g);
        assert(below(r.fwd.labels, q.fwd.labels)) by {
            assert forall|x: int| 0 <= x < q.fwd.labels.len() implies label_weight(r.fwd.labels, x)
                <= label_weight(q.fwd.labels, x) by {
                assert(label_weight(r.fwd.labels, x) <= label_weight(q2.fwd.labels, x));
                assert(label_weight(q2.fwd.labels, x) <= label_weight(q1.fwd.labels, x));
            }
        }
        assert(below(r.bwd.labels, q.bwd.labels)) by {
            assert forall|x: int| 0 <= x < q.bwd.labels.len() implies label_weight(r.bwd.labels, x)
                <= label_weight(q.bwd.labels, x) by {
                assert(label_weight(r.bwd.labels, x) <= label_weight(q2.bwd.labels, x));
                assert(label_weight(q2.bwd.labels, x) <= label_weight(q1.bwd.labels, x));
            }
        }
    }
}

/// No node comes again among the seeds with a weight that is not smaller than before.
pub open spec fn no_heavier_repeat(seeds: Seq<(NodeId, Weight)>) -> bool {
    forall|i: int, j: int|
        #![trigger seeds[i], seeds[j]]
        0 <= i < j < seeds.len() && seeds[i].0 == seeds[j].0 && seeds[i].1 < WEIGHT_MAX
            && seeds[j].1 < WEIGHT_MAX ==> seeds[j].1 < seeds[i].1
}

/// Every seed of finite weight is a node that the search holds to be not heavier than
/// the seed.
pub open spec fn seeded(labels: Seq<Option<Label>>, seeds: Seq<(NodeId, Weight)>, k: int) -> bool {
    forall|i: int|
        0 <= i < k && i < seeds.len() && (#[trigger] seeds[i]).1 < WEIGHT_MAX ==> seeds[i].0
            < labels.len() && label_weight(labels, seeds[i].0 as int) <= seeds[i].1
}

/// A search that has reached the first `k` seeds and has not begun: no node is
/// settled, every label is the label of one of these seeds, and has its entry in the
/// queue.
pub open spec fn sown(side: Side, seeds: Seq<(NodeId, Weight)>, k: int) -> bool {
    &&& entries_light(side)
    &&& seeded(side.labels, seeds, k)
    &&& forall|x: int|
        0 <= x < side.labels.len() && (#[trigger] side.labels[x]).is_some() ==> {
            &&& !label_settled(side.labels, x)
            &&& side.labels[x].unwrap().inc_edge == INVALID_EDGE
            &&& side.heap.contains(fresh_item(side, x as usize))
            &&& exists|i: int|
                0 <= i < k && i < seeds.len() && (#[trigger] seeds[i]).0 == x && seeds[i].1
                    == label_weight(side.labels, x) && seeds[i].1 < WEIGHT_MAX
        }
}

/// A search that has reached its seeds and has not begun is in order.
pub proof fn lemma_sown_tidy(side: Side, seeds: Seq<(NodeId, Weight)>, g: FastGraphView, forward: bool, best: Weight)
    requires
        side.fits(g, forward),
        sown(side, seeds, seeds.len() as int),
    ensures
        tidy(side, g, forward, best, -1),
{
    assert forall|item: HeapItem| #[trigger] side.heap.contains(item) implies {
        ||| item.node_id == -1
        ||| item == fresh_item(side, item.node_id)
        ||| label_settled(side.labels, item.node_id as int)
        ||| dismissed(side, g, forward, best, item.node_id, item.weight)
        ||| side.heap.contains(fresh_item(side, item.node_id))
    } by {
        assert(side.labels[item.node_id as int].is_some());
    }
}

/// In a search that has reached its seeds and has not begun, every label is the
/// weight of a seed.
pub proof fn lemma_sown_traced(side: Side, seeds: Seq<(NodeId, Weight)>, g: FastGraphView, forward: bool)
    requires
        sown(side, seeds, seeds.len() as int),
    ensures
        traced(side.labels, g, forward, seeds),
{
    assert forall|x: int| 0 <= x < side.labels.len() && (#[trigger] side.labels[x]).is_some() implies {
        let label = side.labels[x].unwrap();
        if label.inc_edge == INVALID_EDGE {
            exists|i: int|
                0 <= i < seeds.len() && (#[trigger] seeds[i]).0 == x && seeds[i].1 < WEIGHT_MAX
                    && seeds[i].1 <= label.weight
        } else {
            &&& label.parent < side.labels.len()
            &&& label.inc_edge < edges_of_side(g, forward).len()
            &&& label_weight(side.labels, label.parent as int) + edges_of_side(
                g,
                forward,
            )[label.inc_edge as int].weight <= label.weight
        }
    } by {
        let i = choose|i: int|
            0 <= i < seeds.len() && i < seeds.len() && (#[trigger] seeds[i]).0 == x && seeds[i].1
                == label_weight(side.labels, x) && seeds[i].1 < WEIGHT_MAX;
        assert(seeds[i].0 == x && seeds[i].1 <= side.labels[x].unwrap().weight);
    }
}

/// Reaching the seeds from position `k` on, one after the other, gives a search that
/// has reached all its seeds and has not begun.
pub proof fn lemma_seed_order(
    side: Side,
    seeds: Seq<(NodeId, Weight)>,
    k: int,
    least: bool,
    g: FastGraphView,
    forward: bool,
)
    requires
        side.fits(g, forward),
        sown(side, seeds, k),
        0 <= k <= seeds.len(),
        forall|i: int| 0 <= i < seeds.len() ==> (#[trigger] seeds[i]).0 < g.num_nodes,
        least || no_heavier_repeat(seeds),
    ensures
        sown(seed_from(side, seeds, k, least), seeds, seeds.len() as int),
        seed_from(side, seeds, k, least).fits(g, forward),
    decreases seeds.len() - k,
{
    broadcast use vstd::multiset::group_multiset_axioms;

    if k < seeds.len() {
        let node = seeds[k].0;
        let weight = seeds[k].1;
        let known = label_weight(side.labels, node as int);
        if weight < WEIGHT_MAX && (!least || weight < known) {
            if side.labels[node as int].is_some() {
                let i = choose|i: int|
                    0 <= i < k && i < seeds.len() && (#[trigger] seeds[i]).0 == node && seeds[i].1
                        == label_weight(side.labels, node as int) && seeds[i].1 < WEIGHT_MAX;
                if !least {
                    assert(seeds[i].0 == seeds[k].0);
                }
            }
            assert(weight < known);
            let next = side.reach(node, weight, INVALID_NODE, INVALID_EDGE);
            assert(reaches(side, next, node, weight, -1));
            lemma_reaches_below(side, next, node, weight, -1);
            lemma_reaches_entries_light(side, next, node, weight, -1);
            crate::path_calculator::lemma_seed(side, g, forward, node, weight);
            assert(seeded(next.labels, seeds, k + 1)) by {
                assert forall|i: int|
                    0 <= i < k + 1 && i < seeds.len() && (#[trigger] seeds[i]).1
                        < WEIGHT_MAX implies seeds[i].0 < next.labels.len() && label_weight(
                    next.labels,
                    seeds[i].0 as int,
                ) <= seeds[i].1 by {
                    if i < k {
                        assert(label_weight(next.labels, seeds[i].0 as int) <= label_weight(
                            side.labels,
                            seeds[i].0 as int,
                        ));
                    }
                }
            }
            assert forall|x: int|
                0 <= x < next.labels.len() && (#[trigger] next.labels[x]).is_some() implies {
                &&& !label_settled(next.labels, x)
                &&& next.labels[x].unwrap().inc_edge == INVALID_EDGE
                &&& next.heap.contains(fresh_item(next, x as usize))
                &&& exists|i: int|
                    0 <= i < k + 1 && i < seeds.len() && (#[trigger] seeds[i]).0 == x && seeds[i].1
                        == label_weight(next.labels, x) && seeds[i].1 < WEIGHT_MAX
            } by {
                if x == node {
                    assert(seeds[k].0 == x && seeds[k].1 == label_weight(next.labels, x));
                } else {
                    assert(next.labels[x] == side.labels[x]);
                    assert(side.labels[x].is_some());
                    assert(fresh_item(next, x as usize) == fresh_item(side, x as usize));
                    let i = choose|i: int|
                        0 <= i < k && i < seeds.len() && (#[trigger] seeds[i]).0 == x && seeds[i].1
                            == label_weight(side.labels, x) && seeds[i].1 < WEIGHT_MAX;
                    assert(seeds[i].0 == x && seeds[i].1 == label_weight(next.labels, x));
                }
            }
            assert(sown(next, seeds, k + 1));
            lemma_seed_order(next, seeds, k + 1, least, g, forward);
        } else {
            assert(seeded(side.labels, seeds, k + 1));
            assert forall|x: int|
                0 <= x < side.labels.len() && (#[trigger] side.labels[x]).is_some() implies {
                &&& !label_settled(side.labels, x)
                &&& side.labels[x].unwrap().inc_edge == INVALID_EDGE
                &&& side.heap.contains(fresh_item(side, x as usize))
                &&& exists|i: int|
                    0 <= i < k + 1 && i < seeds.len() && (#[trigger] seeds[i]).0 == x && seeds[i].1
                        == label_weight(side.labels, x) && seeds[i].1 < WEIGHT_MAX
            } by {
                let i = choose|i: int|
                    0 <= i < k && i < seeds.len() && (#[trigger] seeds[i]).0 == x && seeds[i].1
                        == label_weight(side.labels, x) && seeds[i].1 < WEIGHT_MAX;
                assert(seeds[i].0 == x && seeds[i].1 == label_weight(side.labels, x));
            }
            assert(sown(side, seeds, k + 1));
            lemma_seed_order(side, seeds, k + 1, least, g, forward);
        }
    } else {
        assert(sown(side, seeds, seeds.len() as int));
    }
}

/// The best way to meet without a step names a node where its weight is finite.
pub proof fn lemma_best_meet_node(starts: Seq<(NodeId, Weight)>, ends: Seq<(NodeId, Weight)>, k: int)
    requires
        0 <= k <= ends.len(),
        forall|i: int| 0 <= i < ends.len() ==> (#[trigger] ends[i]).0 != INVALID_NODE,
    ensures
        best_meet(starts, ends, k).0 < WEIGHT_MAX ==> best_meet(starts, ends, k).1 != INVALID_NODE,
    decreases k,
{
    if k > 0 {
        lemma_best_meet_node(starts, ends, k - 1);
    }
}

/// Before the searches begin, a query is in order, and both searches have reached
/// their seeds.
pub proof fn lemma_start_order(
    g: FastGraphView,
    starts: Seq<(NodeId, Weight)>,
    ends: Seq<(NodeId, Weight)>,
    least: bool,
)
    requires
        g.wf(),
        forall|i: int| 0 <= i < starts.len() ==> (#[trigger] starts[i]).0 < g.num_nodes,
        forall|i: int| 0 <= i < ends.len() ==> (#[trigger] ends[i]).0 < g.num_nodes,
        least || (no_heavier_repeat(starts) && no_heavier_repeat(ends)),
    ensures
        ({
            let q = start_pair_query(g.num_nodes as nat, starts, ends, least);
            &&& in_order(q, g)
            &&& seeded(q.fwd.labels, starts, starts.len() as int)
            &&& seeded(q.bwd.labels, ends, ends.len() as int)
            &&& q.fwd.fits(g, true)
            &&& q.bwd.fits(g, false)
            &&& query_traced(q, g, starts, ends)
        }),
{
    broadcast use vstd::multiset::group_multiset_axioms;

    let n = g.num_nodes as nat;
    let q = start_pair_query(n, starts, ends, least);
    let none = Side::empty(n);
    crate::path_calculator::lemma_empty_fits(g, true);
    crate::path_calculator::lemma_empty_fits(g, false);
    assert(sown(none, starts, 0));
    assert(sown(none, ends, 0));
    lemma_seed_order(none, starts, 0, least, g, true);
    lemma_seed_order(none, ends, 0, least, g, false);
    lemma_sown_tidy(q.fwd, starts, g, true, q.best_weight);
    lemma_sown_tidy(q.bwd, ends, g, false, q.best_weight);
    lemma_best_meet_node(starts, ends, ends.len() as int);
    lemma_sown_traced(q.fwd, starts, g, true);
    lemma_sown_traced(q.bwd, ends, g, false);
    assert(met(q)) by {
        if q.meeting_node != INVALID_NODE {
            let input = Seq::<crate::input_graph::Edge>::empty();
            crate::query_laws::lemma_best_meet(input, starts, ends, ends.len() as int);
            let (i, j) = choose|i: int, j: int|
                0 <= i < starts.len() && 0 <= j < ends.len() && (#[trigger] starts[i]).0
                    == q.meeting_node && (#[trigger] ends[j]).0 == starts[i].0 && starts[i].1
                    < WEIGHT_MAX && ends[j].1 < WEIGHT_MAX && starts[i].1 + ends[j].1
                    == q.best_weight;
            assert(label_weight(q.fwd.labels, starts[i].0 as int) <= starts[i].1);
            assert(label_weight(q.bwd.labels, ends[j].0 as int) <= ends[j].1);
        }
    }
    assert(meets_known(q)) by {
        assert forall|x: int|
            0 <= x < q.fwd.labels.len() && #[trigger] label_settled(q.fwd.labels, x)
                && label_settled(q.bwd.labels, x) implies q.best_weight <= label_weight(
            q.fwd.labels,
            x,
        ) + label_weight(q.bwd.labels, x) by {
            assert(q.fwd.labels[x].is_some());
        }
    }
}

} // verus!
