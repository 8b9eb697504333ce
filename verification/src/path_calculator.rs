use vstd::multiset::Multiset;
use vstd::prelude::*;

use crate::constants::EdgeId;
use crate::constants::NodeId;
use crate::constants::Weight;
use crate::constants::INVALID_EDGE;
use crate::constants::INVALID_NODE;
use crate::constants::WEIGHT_MAX;
use crate::fast_graph::FastGraph;
use crate::fast_graph::FastGraphEdge;
use crate::fast_graph::FastGraphView;
use crate::heap_item::HeapItem;
use crate::labels::label_settled;
use crate::labels::label_weight;
use crate::labels::lemma_total_weight_update;
use crate::labels::no_labels;
use crate::labels::total_weight;
use crate::labels::Label;
use crate::labels::Labels;
use crate::min_heap::lemma_remove_len;
use crate::min_heap::min_item;
use crate::min_heap::MinHeap;
use crate::shortest_path::ShortestPath;

use crate::found_laws::is_lightest;
use crate::found_laws::is_lightest_between;
use crate::found_laws::lemma_lightest;
use crate::found_laws::lemma_lightest_between;
use crate::found_laws::lemma_lightest_from;
use crate::hierarchy_laws::keeps_ways;
use crate::input_graph::Edge;
use crate::search_order::no_heavier_repeat;

verus! {

/// The edges of one direction: those that lead from their base node for the forward
/// search, those that lead to it for the backward search.
pub open spec fn edges_of_side(g: FastGraphView, forward: bool) -> Seq<FastGraphEdge> {
    if forward {
        g.edges_fwd
    } else {
        g.edges_bwd
    }
}

/// Where the edges of `node` begin in one direction.
pub open spec fn begin_of(g: FastGraphView, node: NodeId, forward: bool) -> int {
    if forward {
        g.first_edge_ids_fwd[g.ranks[node as int] as int] as int
    } else {
        g.first_edge_ids_bwd[g.ranks[node as int] as int] as int
    }
}

/// Where the edges of `node` end in one direction.
pub open spec fn end_of(g: FastGraphView, node: NodeId, forward: bool) -> int {
    if forward {
        g.first_edge_ids_fwd[g.ranks[node as int] + 1] as int
    } else {
        g.first_edge_ids_bwd[g.ranks[node as int] + 1] as int
    }
}

/// The nodes on the path that an edge stands for, without its last node, in the order
/// of the path, or the other way round for `reverse`. A leaving edge of the input
/// gives its base node, an entering edge the node it comes from; a shortcut gives the
/// nodes of the two edges it replaces.
pub open spec fn unpacked(g: FastGraphView, forward: bool, edge_id: int, reverse: bool) -> Seq<NodeId>
    decreases
            (if forward {
                g.heights().0[edge_id]
            } else {
                g.heights().1[edge_id]
            }),
    when g.unpackable() && 0 <= edge_id < edges_of_side(g, forward).len()
{
    let edge = edges_of_side(g, forward)[edge_id];
    if !edge.spec_is_shortcut() {
        if forward {
            seq![edge.base_node]
        } else {
            seq![edge.adj_node]
        }
    } else {
        proof {
            g.lemma_heights();
        }
        if reverse {
            unpacked(g, true, edge.replaced_out_edge as int, reverse) + unpacked(
                g,
                false,
                edge.replaced_in_edge as int,
                reverse,
            )
        } else {
            unpacked(g, false, edge.replaced_in_edge as int, reverse) + unpacked(
                g,
                true,
                edge.replaced_out_edge as int,
                reverse,
            )
        }
    }
}

/// One of the two searches of a query: the labels of the nodes it has reached, and the
/// queue of the nodes it has to visit.
pub struct Side {
    pub labels: Seq<Option<Label>>,
    pub heap: Multiset<HeapItem>,
}

impl Side {
    /// A search that has reached nothing in a graph of `n` nodes.
    pub open spec fn empty(n: nat) -> Side {
        Side { labels: no_labels(n), heap: Multiset::empty() }
    }

    /// The search with a new label for `node`, and `node` put into the queue.
    pub open spec fn reach(self, node: NodeId, weight: Weight, parent: NodeId, inc_edge: EdgeId) -> Side {
        Side {
            labels: self.labels.update(
                node as int,
                Some(Label { settled: false, weight, parent, inc_edge }),
            ),
            heap: self.heap.insert(HeapItem { weight, node_id: node }),
        }
    }

    /// Follows one edge from the node `curr`: its end gets a new label where this way
    /// to it is lighter than what is known so far.
    pub open spec fn relax_edge(self, edge: FastGraphEdge, edge_id: int, curr: HeapItem) -> Side {
        let reached = curr.weight + edge.weight;
        if reached < label_weight(self.labels, edge.adj_node as int) {
            self.reach(edge.adj_node, reached as usize, curr.node_id, edge_id as usize)
        } else {
            self
        }
    }

    /// Follows the edges from position `k` up to `end`.
    pub open spec fn relax_from(self, edges: Seq<FastGraphEdge>, k: int, end: int, curr: HeapItem) -> Side
        decreases end - k,
    {
        if 0 <= k < end {
            self.relax_edge(edges[k], k, curr).relax_from(edges, k + 1, end, curr)
        } else {
            self
        }
    }

    /// The search with `node` marked as settled.
    pub open spec fn settle(self, node: NodeId) -> Side {
        Side {
            labels: self.labels.update(
                node as int,
                Some(Label { settled: true, ..self.labels[node as int].unwrap() }),
            ),
            ..self
        }
    }

    /// Every node in the queue is a node of the graph with a label, and every label
    /// that names an edge names an edge of its parent that leads to its node.
    pub open spec fn fits(self, g: FastGraphView, forward: bool) -> bool {
        &&& self.labels.len() == g.num_nodes
        &&& forall|item: HeapItem| #[trigger]
            self.heap.contains(item) ==> item.node_id < self.labels.len()
                && self.labels[item.node_id as int].is_some()
        &&& forall|x: int|
            0 <= x < self.labels.len() && (#[trigger] self.labels[x]).is_some()
                && self.labels[x].unwrap().inc_edge != INVALID_EDGE ==> {
                let label = self.labels[x].unwrap();
                &&& label.parent < self.labels.len()
                &&& self.labels[label.parent as int].is_some()
                &&& begin_of(g, label.parent, forward) <= label.inc_edge < end_of(
                    g,
                    label.parent,
                    forward,
                )
                &&& edges_of_side(g, forward)[label.inc_edge as int].adj_node == x
            }
    }
}

/// Whether a node that was reached with `weight` can be reached with less over one of
/// the edges from position `k` up to `end`, which lead to it from nodes of higher rank.
pub open spec fn stalls_from(
    labels: Seq<Option<Label>>,
    edges: Seq<FastGraphEdge>,
    k: int,
    end: int,
    weight: Weight,
) -> bool
    decreases end - k,
{
    if 0 <= k < end {
        let adj_weight = label_weight(labels, edges[k].adj_node as int);
        (adj_weight != WEIGHT_MAX && adj_weight + edges[k].weight < weight) || stalls_from(
            labels,
            edges,
            k + 1,
            end,
            weight,
        )
    } else {
        false
    }
}

/// The state of a query: the search forward from the start nodes, the search backward
/// from the end node, and the best way to meet that was found so far.
pub struct Query {
    pub fwd: Side,
    pub bwd: Side,
    pub best_weight: Weight,
    pub meeting_node: NodeId,
}

impl Query {
    pub open spec fn side(self, forward: bool) -> Side {
        if forward {
            self.fwd
        } else {
            self.bwd
        }
    }

    pub open spec fn with_side(self, forward: bool, side: Side) -> Query {
        if forward {
            Query { fwd: side, ..self }
        } else {
            Query { bwd: side, ..self }
        }
    }

    /// Both searches fit the graph, and where there is a meeting node both searches
    /// have reached it with a finite weight in all.
    pub open spec fn fits(self, g: FastGraphView) -> bool {
        &&& g.wf()
        &&& self.fwd.fits(g, true)
        &&& self.bwd.fits(g, false)
        &&& self.meeting_node != INVALID_NODE ==> {
            &&& self.meeting_node < g.num_nodes
            &&& self.fwd.labels[self.meeting_node as int].is_some()
            &&& self.bwd.labels[self.meeting_node as int].is_some()
            &&& self.best_weight < WEIGHT_MAX
        }
    }

    /// One step of one search: takes nodes from its queue until one of them is settled
    /// or lies beyond the best weight. A node that is settled already is passed over,
    /// and so is a node that stalls. The node that is settled has its edges followed,
    /// and becomes the meeting node where the other search has reached it and both
    /// weights together are less than the best weight.
    pub open spec fn advance(self, g: FastGraphView, forward: bool) -> Query
        decreases self.side(forward).heap.len(),
    {
        let side = self.side(forward);
        let other = self.side(!forward);
        let curr = min_item(side.heap);
        if side.heap.len() == 0 || !side.heap.contains(curr) {
            self
        } else {
            let popped = Side { heap: side.heap.remove(curr), ..side };
            proof {
                lemma_remove_len(side.heap, curr);
            }
            if label_settled(side.labels, curr.node_id as int) {
                self.with_side(forward, popped).advance(g, forward)
            } else if curr.weight > self.best_weight {
                self.with_side(forward, popped)
            } else if stalls_from(
                side.labels,
                edges_of_side(g, !forward),
                begin_of(g, curr.node_id, !forward),
                end_of(g, curr.node_id, !forward),
                curr.weight,
            ) {
                self.with_side(forward, popped).advance(g, forward)
            } else {
                let settled = popped.relax_from(
                    edges_of_side(g, forward),
                    begin_of(g, curr.node_id, forward),
                    end_of(g, curr.node_id, forward),
                    curr,
                ).settle(curr.node_id);
                let together = curr.weight + label_weight(other.labels, curr.node_id as int);
                if other.labels[curr.node_id as int].is_some() && together < self.best_weight {
                    Query {
                        best_weight: together as usize,
                        meeting_node: curr.node_id,
                        ..self.with_side(forward, settled)
                    }
                } else {
                    self.with_side(forward, settled)
                }
            }
        }
    }

    /// Runs both searches in turn until both queues are empty.
    pub open spec fn run(self, g: FastGraphView) -> Query
        decreases
                total_weight(self.fwd.labels) + total_weight(self.bwd.labels),
                self.fwd.heap.len() + self.bwd.heap.len(),
        when self.fits(g)
    {
        if self.fwd.heap.len() == 0 && self.bwd.heap.len() == 0 {
            self
        } else {
            proof {
                lemma_advance(self, g, true);
                lemma_advance(self.advance(g, true), g, false);
            }
            self.advance(g, true).advance(g, false).run(g)
        }
    }
}

/// The edges of `node` in one direction lie within the edges of the graph, and lead to
/// nodes of the graph.
pub open spec fn slice_ok(g: FastGraphView, node: NodeId, forward: bool) -> bool {
    &&& 0 <= begin_of(g, node, forward) <= end_of(g, node, forward) <= edges_of_side(
        g,
        forward,
    ).len()
    &&& forall|k: int|
        begin_of(g, node, forward) <= k < end_of(g, node, forward) ==> (#[trigger] edges_of_side(
            g,
            forward,
        )[k]).adj_node < g.num_nodes
}

/// In a well-formed graph every node has its edges in order.
pub proof fn lemma_slice(g: FastGraphView, node: NodeId, forward: bool)
    requires
        g.wf(),
        node < g.num_nodes,
    ensures
        slice_ok(g, node, forward),
        g.ranks[node as int] < g.num_nodes,
{
    let rank = g.ranks[node as int] as int;
    let n = g.num_nodes as int;
    assert(rank < n);
    if forward {
        assert(g.first_edge_ids_fwd[0] <= g.first_edge_ids_fwd[rank]);
        assert(g.first_edge_ids_fwd[rank] <= g.first_edge_ids_fwd[rank + 1]);
        assert(g.first_edge_ids_fwd[rank + 1] <= g.first_edge_ids_fwd[n]);
        assert forall|k: int|
            begin_of(g, node, forward) <= k < end_of(g, node, forward) implies (
        #[trigger] edges_of_side(g, forward)[k]).adj_node < g.num_nodes by {
            assert(g.first_edge_ids_fwd[rank] <= k < g.first_edge_ids_fwd[rank + 1]);
            assert(g.edges_fwd[k].adj_node < g.ranks.len());
        }
    } else {
        assert(g.first_edge_ids_bwd[0] <= g.first_edge_ids_bwd[rank]);
        assert(g.first_edge_ids_bwd[rank] <= g.first_edge_ids_bwd[rank + 1]);
        assert(g.first_edge_ids_bwd[rank + 1] <= g.first_edge_ids_bwd[n]);
        assert forall|k: int|
            begin_of(g, node, forward) <= k < end_of(g, node, forward) implies (
        #[trigger] edges_of_side(g, forward)[k]).adj_node < g.num_nodes by {
            assert(g.first_edge_ids_bwd[rank] <= k < g.first_edge_ids_bwd[rank + 1]);
            assert(g.edges_bwd[k].adj_node < g.ranks.len());
        }
    }
}

/// Following one edge keeps a search fit, takes no label away, makes no weight
/// larger, and if it leaves the weights as they are it leaves the queue as it is.
pub proof fn lemma_relax_edge(side: Side, g: FastGraphView, forward: bool, k: int, curr: HeapItem)
    requires
        side.fits(g, forward),
        slice_ok(g, curr.node_id, forward),
        curr.node_id < g.num_nodes,
        side.labels[curr.node_id as int].is_some(),
        begin_of(g, curr.node_id, forward) <= k < end_of(g, curr.node_id, forward),
    ensures
        ({
            let next = side.relax_edge(edges_of_side(g, forward)[k], k, curr);
            &&& next.fits(g, forward)
            &&& total_weight(next.labels) <= total_weight(side.labels)
            &&& total_weight(next.labels) == total_weight(side.labels) ==> next.heap == side.heap
            &&& forall|x: int|
                0 <= x < side.labels.len() && side.labels[x].is_some()
                    ==> #[trigger] next.labels[x].is_some()
        }),
{
    broadcast use vstd::multiset::group_multiset_axioms;

    let edges = edges_of_side(g, forward);
    let edge = edges[k];
    assert(edge.adj_node < g.num_nodes);
    let next = side.relax_edge(edge, k, curr);
    if next != side {
        let label = Label {
            settled: false,
            weight: (curr.weight + edge.weight) as usize,
            parent: curr.node_id,
            inc_edge: k as usize,
        };
        lemma_total_weight_update(side.labels, edge.adj_node as int, label);
        assert forall|item: HeapItem| #[trigger] next.heap.contains(item) implies item.node_id
            < next.labels.len() && next.labels[item.node_id as int].is_some() by {
            if item != (HeapItem { weight: label.weight, node_id: edge.adj_node }) {
                assert(side.heap.contains(item));
            }
        }
        assert forall|x: int|
            0 <= x < next.labels.len() && (#[trigger] next.labels[x]).is_some()
                && next.labels[x].unwrap().inc_edge != INVALID_EDGE implies {
            let l = next.labels[x].unwrap();
            &&& l.parent < next.labels.len()
            &&& next.labels[l.parent as int].is_some()
            &&& begin_of(g, l.parent, forward) <= l.inc_edge < end_of(g, l.parent, forward)
            &&& edges_of_side(g, forward)[l.inc_edge as int].adj_node == x
        } by {
            if x != edge.adj_node {
                assert(side.labels[x].is_some());
            }
        }
    }
}

/// Following edges keeps a search fit, takes no label away, makes no weight larger,
/// and whenever it leaves the weights as they are it leaves the queue as it is.
pub proof fn lemma_relax(side: Side, g: FastGraphView, forward: bool, k: int, end: int, curr: HeapItem)
    requires
        side.fits(g, forward),
        slice_ok(g, curr.node_id, forward),
        curr.node_id < g.num_nodes,
        side.labels[curr.node_id as int].is_some(),
        begin_of(g, curr.node_id, forward) <= k <= end,
        end == end_of(g, curr.node_id, forward),
    ensures
        ({
            let last = side.relax_from(edges_of_side(g, forward), k, end, curr);
            &&& last.fits(g, forward)
            &&& total_weight(last.labels) <= total_weight(side.labels)
            &&& total_weight(last.labels) == total_weight(side.labels) ==> last.heap == side.heap
            &&& forall|x: int|
                0 <= x < side.labels.len() && side.labels[x].is_some()
                    ==> #[trigger] last.labels[x].is_some()
        }),
    decreases end - k,
{
    if k < end {
        lemma_relax_edge(side, g, forward, k, curr);
        let next = side.relax_edge(edges_of_side(g, forward)[k], k, curr);
        lemma_relax(next, g, forward, k + 1, end, curr);
    }
}

/// Taking an item out of the queue keeps a search fit.
pub proof fn lemma_take(side: Side, g: FastGraphView, forward: bool, item: HeapItem)
    requires
        side.fits(g, forward),
        side.heap.contains(item),
    ensures
        (Side { heap: side.heap.remove(item), ..side }).fits(g, forward),
        side.heap.remove(item).len() == side.heap.len() - 1,
        item.node_id < g.num_nodes,
        side.labels[item.node_id as int].is_some(),
{
    broadcast use vstd::multiset::group_multiset_axioms;

    let popped = Side { heap: side.heap.remove(item), ..side };
    lemma_remove_len(side.heap, item);
    assert forall|other: HeapItem| #[trigger] popped.heap.contains(other) implies other.node_id
        < popped.labels.len() && popped.labels[other.node_id as int].is_some() by {
        assert(side.heap.contains(other));
    }
}

/// Marking a node as settled keeps a search fit, and leaves all weights as they are.
pub proof fn lemma_settle(side: Side, g: FastGraphView, forward: bool, node: NodeId)
    requires
        side.fits(g, forward),
        node < g.num_nodes,
        side.labels[node as int].is_some(),
    ensures
        side.settle(node).fits(g, forward),
        total_weight(side.settle(node).labels) == total_weight(side.labels),
        side.settle(node).heap == side.heap,
        side.settle(node).labels[node as int].is_some(),
{
    let settled = side.settle(node);
    lemma_total_weight_update(
        side.labels,
        node as int,
        Label { settled: true, ..side.labels[node as int].unwrap() },
    );
    assert forall|x: int|
        0 <= x < settled.labels.len() && (#[trigger] settled.labels[x]).is_some()
            && settled.labels[x].unwrap().inc_edge != INVALID_EDGE implies {
        let l = settled.labels[x].unwrap();
        &&& l.parent < settled.labels.len()
        &&& settled.labels[l.parent as int].is_some()
        &&& begin_of(g, l.parent, forward) <= l.inc_edge < end_of(g, l.parent, forward)
        &&& edges_of_side(g, forward)[l.inc_edge as int].adj_node == x
    } by {
        assert(side.labels[x].is_some());
    }
}

/// What a step of a search keeps: the query fits the graph, the other search is as it
/// was, and the search itself has come closer to its end if its queue held a node.
pub open spec fn advanced(q: Query, r: Query, g: FastGraphView, forward: bool) -> bool {
    &&& r.fits(g)
    &&& r.side(!forward) == q.side(!forward)
    &&& total_weight(r.side(forward).labels) <= total_weight(q.side(forward).labels)
    &&& total_weight(r.side(forward).labels) == total_weight(q.side(forward).labels) ==> {
        &&& r.side(forward).heap.len() <= q.side(forward).heap.len()
        &&& q.side(forward).heap.len() > 0 ==> r.side(forward).heap.len() < q.side(
            forward,
        ).heap.len()
    }
}

/// The step that settles the node `curr` keeps what a step has to keep.
pub proof fn lemma_advance_settle(q: Query, g: FastGraphView, forward: bool, curr: HeapItem)
    requires
        q.fits(g),
        q.side(forward).heap.contains(curr),
        curr.weight <= q.best_weight,
    ensures
        ({
            let side = q.side(forward);
            let other = q.side(!forward);
            let popped = Side { heap: side.heap.remove(curr), ..side };
            let settled = popped.relax_from(
                edges_of_side(g, forward),
                begin_of(g, curr.node_id, forward),
                end_of(g, curr.node_id, forward),
                curr,
            ).settle(curr.node_id);
            let together = curr.weight + label_weight(other.labels, curr.node_id as int);
            let r = if other.labels[curr.node_id as int].is_some() && together < q.best_weight {
                Query {
                    best_weight: together as usize,
                    meeting_node: curr.node_id,
                    ..q.with_side(forward, settled)
                }
            } else {
                q.with_side(forward, settled)
            };
            advanced(q, r, g, forward)
        }),
{
    let side = q.side(forward);
    let popped = Side { heap: side.heap.remove(curr), ..side };
    lemma_take(side, g, forward, curr);
    lemma_slice(g, curr.node_id, forward);
    lemma_relax(
        popped,
        g,
        forward,
        begin_of(g, curr.node_id, forward),
        end_of(g, curr.node_id, forward),
        curr,
    );
    let relaxed = popped.relax_from(
        edges_of_side(g, forward),
        begin_of(g, curr.node_id, forward),
        end_of(g, curr.node_id, forward),
        curr,
    );
    assert(relaxed.labels[curr.node_id as int].is_some());
    lemma_settle(relaxed, g, forward, curr.node_id);
    let settled = relaxed.settle(curr.node_id);
    assert forall|x: int| 0 <= x < side.labels.len() && side.labels[x].is_some() implies (
    #[trigger] settled.labels[x]).is_some() by {
        assert(relaxed.labels[x].is_some());
    }
}

/// A step of a search keeps the query fit, leaves the other search as it is, and
/// brings the search closer to its end as long as its queue holds a node.
pub proof fn lemma_advance(q: Query, g: FastGraphView, forward: bool)
    requires
        q.fits(g),
    ensures
        advanced(q, q.advance(g, forward), g, forward),
    decreases q.side(forward).heap.len(),
{
    let side = q.side(forward);
    let curr = min_item(side.heap);
    if side.heap.len() == 0 || !side.heap.contains(curr) {
        if side.heap.len() > 0 {
            crate::min_heap::lemma_min_exists(side.heap);
        }
    } else {
        let popped = Side { heap: side.heap.remove(curr), ..side };
        lemma_take(side, g, forward, curr);
        let q1 = q.with_side(forward, popped);
        if label_settled(side.labels, curr.node_id as int) {
            lemma_advance(q1, g, forward);
        } else if curr.weight > q.best_weight {
        } else if stalls_from(
            side.labels,
            edges_of_side(g, !forward),
            begin_of(g, curr.node_id, !forward),
            end_of(g, curr.node_id, !forward),
            curr.weight,
        ) {
            lemma_advance(q1, g, forward);
        } else {
            lemma_advance_settle(q, g, forward, curr);
        }
    }
}

/// The search with the start nodes from position `k` on reached with their weights. A
/// start node with an infinite weight is left out. With `least`, a start node that was
/// reached already is reached anew with a smaller weight only.
pub open spec fn seed_from(side: Side, starts: Seq<(NodeId, Weight)>, k: int, least: bool) -> Side
    decreases starts.len() - k,
{
    if 0 <= k < starts.len() {
        let next = if starts[k].1 < WEIGHT_MAX && (!least || starts[k].1 < label_weight(
            side.labels,
            starts[k].0 as int,
        )) {
            side.reach(starts[k].0, starts[k].1, INVALID_NODE, INVALID_EDGE)
        } else {
            side
        };
        seed_from(next, starts, k + 1, least)
    } else {
        side
    }
}

/// The least weight with which `target` is among the first `k` start nodes, infinite
/// where it is not among them.
pub open spec fn best_start(starts: Seq<(NodeId, Weight)>, target: NodeId, k: int) -> Weight
    decreases k,
{
    if k <= 0 {
        WEIGHT_MAX
    } else {
        let rest = best_start(starts, target, k - 1);
        if starts[k - 1].0 == target && starts[k - 1].1 < rest {
            starts[k - 1].1
        } else {
            rest
        }
    }
}

/// The state of a query before the searches begin.
pub open spec fn start_query(n: nat, starts: Seq<(NodeId, Weight)>, end: NodeId) -> Query {
    let best = best_start(starts, end, starts.len() as int);
    Query {
        fwd: seed_from(Side::empty(n), starts, 0, false),
        bwd: Side::empty(n).reach(end, 0, INVALID_NODE, INVALID_EDGE),
        best_weight: best,
        meeting_node: if best < WEIGHT_MAX {
            end
        } else {
            INVALID_NODE
        },
    }
}

/// The best way to meet without a step: the least weight, and the node, of a start
/// node that is among the first `k` end nodes, the weights of both taken together.
pub open spec fn best_meet(starts: Seq<(NodeId, Weight)>, ends: Seq<(NodeId, Weight)>, k: int) -> (
    Weight,
    NodeId,
)
    decreases k,
{
    if k <= 0 {
        (WEIGHT_MAX, INVALID_NODE)
    } else {
        let rest = best_meet(starts, ends, k - 1);
        let from_start = best_start(starts, ends[k - 1].0, starts.len() as int);
        if ends[k - 1].1 < WEIGHT_MAX && from_start < WEIGHT_MAX && from_start + ends[k - 1].1
            < rest.0 {
            ((from_start + ends[k - 1].1) as usize, ends[k - 1].0)
        } else {
            rest
        }
    }
}

/// The state of a query with several end nodes before the searches begin.
pub open spec fn start_pair_query(
    n: nat,
    starts: Seq<(NodeId, Weight)>,
    ends: Seq<(NodeId, Weight)>,
    least: bool,
) -> Query {
    Query {
        fwd: seed_from(Side::empty(n), starts, 0, least),
        bwd: seed_from(Side::empty(n), ends, 0, least),
        best_weight: best_meet(starts, ends, ends.len() as int).0,
        meeting_node: best_meet(starts, ends, ends.len() as int).1,
    }
}

/// The node where the walk back from `node` ends: the node where its search began.
pub open spec fn root_of(labels: Seq<Option<Label>>, g: FastGraphView, node: NodeId) -> NodeId
    decreases g.ranks[node as int],
{
    if node < labels.len() && node < g.ranks.len() && labels[node as int].is_some()
        && labels[node as int].unwrap().inc_edge != INVALID_EDGE && labels[node as int].unwrap().parent
        < g.ranks.len() && g.ranks[labels[node as int].unwrap().parent as int]
        < g.ranks[node as int] {
        root_of(labels, g, labels[node as int].unwrap().parent)
    } else {
        node
    }
}

/// The nodes of the path that a query with several end nodes has found: from a start
/// node to the meeting node and on to an end node.
pub open spec fn found_nodes_between(q: Query, g: FastGraphView) -> Seq<NodeId> {
    walk(q.fwd.labels, g, true, q.meeting_node).reverse() + walk(
        q.bwd.labels,
        g,
        false,
        q.meeting_node,
    ) + seq![root_of(q.bwd.labels, g, q.meeting_node)]
}

/// The state in which a query with several end nodes ends.
pub open spec fn pair_query_result(
    g: FastGraphView,
    starts: Seq<(NodeId, Weight)>,
    ends: Seq<(NodeId, Weight)>,
) -> Query {
    start_pair_query(g.num_nodes as nat, starts, ends, true).run(g)
}

/// The nodes on the way from `node` back to where its search began, without that last
/// node: the path of each edge on the way, for the forward search each the other way
/// round.
pub open spec fn walk(labels: Seq<Option<Label>>, g: FastGraphView, forward: bool, node: NodeId) -> Seq<
    NodeId,
>
    decreases g.ranks[node as int],
{
    if node < labels.len() && node < g.ranks.len() && labels[node as int].is_some()
        && labels[node as int].unwrap().inc_edge != INVALID_EDGE && labels[node as int].unwrap().parent
        < g.ranks.len() && g.ranks[labels[node as int].unwrap().parent as int]
        < g.ranks[node as int] {
        unpacked(g, forward, labels[node as int].unwrap().inc_edge as int, forward) + walk(
            labels,
            g,
            forward,
            labels[node as int].unwrap().parent,
        )
    } else {
        Seq::empty()
    }
}

/// The labels allow to walk back from every node that has one: the graph is
/// well-formed, and every label that names an edge names an edge of its parent that
/// leads to its node.
#[verifier::opaque]
pub open spec fn walkable(labels: Seq<Option<Label>>, g: FastGraphView, forward: bool) -> bool {
    g.wf() && (Side { labels, heap: Multiset::empty() }).fits(g, forward)
}

/// A search that fits a well-formed graph has labels to walk back on.
pub proof fn lemma_walkable(side: Side, g: FastGraphView, forward: bool)
    requires
        g.wf(),
        side.fits(g, forward),
    ensures
        walkable(side.labels, g, forward),
        g.unpackable(),
{
    broadcast use vstd::multiset::group_multiset_axioms;

    reveal(walkable);
    g.lemma_wf_unpackable();
}

/// One step of the walk back from a node that has a label.
pub proof fn lemma_walk_step(labels: Seq<Option<Label>>, g: FastGraphView, forward: bool, node: NodeId)
    requires
        walkable(labels, g, forward),
        node < g.num_nodes,
        labels[node as int].is_some(),
    ensures
        labels[node as int].unwrap().inc_edge == INVALID_EDGE ==> walk(labels, g, forward, node)
            == Seq::<NodeId>::empty(),
        labels[node as int].unwrap().inc_edge != INVALID_EDGE ==> {
            let label = labels[node as int].unwrap();
            &&& label.parent < g.num_nodes
            &&& labels[label.parent as int].is_some()
            &&& label.inc_edge < edges_of_side(g, forward).len()
            &&& g.ranks[label.parent as int] < g.ranks[node as int]
            &&& walk(labels, g, forward, node) == unpacked(
                g,
                forward,
                label.inc_edge as int,
                forward,
            ) + walk(labels, g, forward, label.parent)
            &&& root_of(labels, g, node) == root_of(labels, g, label.parent)
        },
        labels[node as int].unwrap().inc_edge == INVALID_EDGE ==> root_of(labels, g, node) == node,
{
    reveal(walkable);
    let label = labels[node as int].unwrap();
    if label.inc_edge != INVALID_EDGE {
        lemma_leads_up(g, forward, label.parent, label.inc_edge as int);
    }
}

/// The nodes of the path that a query has found: from a start node to the meeting node
/// and on to the end node.
pub open spec fn found_nodes(q: Query, g: FastGraphView, end: NodeId) -> Seq<NodeId> {
    walk(q.fwd.labels, g, true, q.meeting_node).reverse() + walk(
        q.bwd.labels,
        g,
        false,
        q.meeting_node,
    ) + seq![end]
}

/// The state in which a query ends.
pub open spec fn query_result(g: FastGraphView, starts: Seq<(NodeId, Weight)>, end: NodeId) -> Query {
    start_query(g.num_nodes as nat, starts, end).run(g)
}

/// The query in which `mine` is the search of the given direction.
pub open spec fn query_of(mine: Side, other: Side, forward: bool, best_weight: Weight, meeting_node: NodeId) -> Query {
    if forward {
        Query { fwd: mine, bwd: other, best_weight, meeting_node }
    } else {
        Query { fwd: other, bwd: mine, best_weight, meeting_node }
    }
}

/// An edge of a node leads to a node of higher rank.
pub proof fn lemma_leads_up(g: FastGraphView, forward: bool, node: NodeId, e: int)
    requires
        g.wf(),
        node < g.num_nodes,
        begin_of(g, node, forward) <= e < end_of(g, node, forward),
    ensures
        0 <= e < edges_of_side(g, forward).len(),
        edges_of_side(g, forward)[e].adj_node < g.num_nodes,
        g.ranks[edges_of_side(g, forward)[e].adj_node as int] > g.ranks[node as int],
{
    lemma_slice(g, node, forward);
    let rank = g.ranks[node as int] as int;
    if forward {
        assert(g.first_edge_ids_fwd[rank] <= e < g.first_edge_ids_fwd[rank + 1]);
        assert(g.ranks[g.edges_fwd[e].adj_node as int] > rank);
    } else {
        assert(g.first_edge_ids_bwd[rank] <= e < g.first_edge_ids_bwd[rank + 1]);
        assert(g.ranks[g.edges_bwd[e].adj_node as int] > rank);
    }
}

/// The seeded search fits the graph.
pub proof fn lemma_seed(side: Side, g: FastGraphView, forward: bool, node: NodeId, weight: Weight)
    requires
        side.fits(g, forward),
        node < g.num_nodes,
    ensures
        side.reach(node, weight, INVALID_NODE, INVALID_EDGE).fits(g, forward),
{
    broadcast use vstd::multiset::group_multiset_axioms;

    let next = side.reach(node, weight, INVALID_NODE, INVALID_EDGE);
    assert forall|item: HeapItem| #[trigger] next.heap.contains(item) implies item.node_id
        < next.labels.len() && next.labels[item.node_id as int].is_some() by {
        if item != (HeapItem { weight, node_id: node }) {
            assert(side.heap.contains(item));
        }
    }
    assert forall|x: int|
        0 <= x < next.labels.len() && (#[trigger] next.labels[x]).is_some()
            && next.labels[x].unwrap().inc_edge != INVALID_EDGE implies {
        let l = next.labels[x].unwrap();
        &&& l.parent < next.labels.len()
        &&& next.labels[l.parent as int].is_some()
        &&& begin_of(g, l.parent, forward) <= l.inc_edge < end_of(g, l.parent, forward)
        &&& edges_of_side(g, forward)[l.inc_edge as int].adj_node == x
    } by {
        assert(side.labels[x].is_some());
    }
}

/// A search that has reached nothing fits every graph of its number of nodes.
pub proof fn lemma_empty_fits(g: FastGraphView, forward: bool)
    ensures
        Side::empty(g.num_nodes as nat).fits(g, forward),
{
    broadcast use vstd::multiset::group_multiset_axioms;

}

/// A query with the end node as its only end node begins as the query for that node.
pub proof fn lemma_single_end(n: nat, starts: Seq<(NodeId, Weight)>, end: NodeId)
    ensures
        start_pair_query(n, starts, seq![(end, 0usize)], false) == start_query(n, starts, end),
{
    let ends = seq![(end, 0usize)];
    assert(seed_from(Side::empty(n), ends, 0, false) == Side::empty(n).reach(
        end,
        0,
        INVALID_NODE,
        INVALID_EDGE,
    )) by {
        let first = Side::empty(n).reach(end, 0, INVALID_NODE, INVALID_EDGE);
        assert(seed_from(first, ends, 1, false) == first);
    }
    assert(best_meet(starts, ends, 0) == (WEIGHT_MAX, INVALID_NODE));
    let from_start = best_start(starts, end, starts.len() as int);
    assert(best_meet(starts, ends, 1) == (if from_start < WEIGHT_MAX {
        (from_start, end)
    } else {
        (WEIGHT_MAX, INVALID_NODE)
    }));
}

/// The least weight with which `target` is among the start nodes.
fn least_start(starts: &Vec<(NodeId, Weight)>, target: NodeId) -> (least: Weight)
    ensures
        least == best_start(starts@, target, starts@.len() as int),
        least < WEIGHT_MAX ==> exists|k: int|
            0 <= k < starts@.len() && (#[trigger] starts@[k]).0 == target && starts@[k].1
                < WEIGHT_MAX,
{
    let mut least = WEIGHT_MAX;
    let mut i: usize = 0;
    while i < starts.len()
        invariant
            i <= starts@.len(),
            least == best_start(starts@, target, i as int),
            least < WEIGHT_MAX ==> exists|k: int|
                0 <= k < i && (#[trigger] starts@[k]).0 == target && starts@[k].1 < WEIGHT_MAX,
        decreases starts@.len() - i,
    {
        let (id, weight) = starts[i];
        if id == target && weight < least {
            least = weight;
        }
        i += 1;
    }
    least
}

/// Has a search that has reached nothing reach the given nodes with their weights.
fn seed_side(
    labels: &mut Labels,
    heap: &mut MinHeap,
    graph: &FastGraph,
    seeds: &Vec<(NodeId, Weight)>,
    forward: bool,
    least: bool,
)
    requires
        old(labels).wf(),
        old(heap).wf(),
        old(labels)@ == no_labels(graph@.num_nodes as nat),
        old(heap)@ == Multiset::<HeapItem>::empty(),
        forall|i: int| 0 <= i < seeds@.len() ==> (#[trigger] seeds@[i]).0 < graph@.num_nodes,
    ensures
        final(labels).wf(),
        final(heap).wf(),
        final(labels)@.len() == graph@.num_nodes,
        (Side { labels: final(labels)@, heap: final(heap)@ }) == seed_from(
            Side::empty(graph@.num_nodes as nat),
            seeds@,
            0,
            least,
        ),
        (Side { labels: final(labels)@, heap: final(heap)@ }).fits(graph@, forward),
        forall|k: int|
            0 <= k < seeds@.len() && (#[trigger] seeds@[k]).1 < WEIGHT_MAX
                ==> final(labels)@[seeds@[k].0 as int].is_some(),
{
    let ghost g = graph@;
    let ghost n = g.num_nodes as nat;
    proof {
        lemma_empty_fits(g, forward);
    }
    let mut i: usize = 0;
    while i < seeds.len()
        invariant
            i <= seeds@.len(),
            labels.wf(),
            heap.wf(),
            g == graph@,
            n == g.num_nodes,
            labels@.len() == n,
            forall|k: int| 0 <= k < seeds@.len() ==> (#[trigger] seeds@[k]).0 < g.num_nodes,
            (Side { labels: labels@, heap: heap@ }).fits(g, forward),
            seed_from(Side { labels: labels@, heap: heap@ }, seeds@, i as int, least) == seed_from(
                Side::empty(n),
                seeds@,
                0,
                least,
            ),
            forall|k: int|
                0 <= k < i && (#[trigger] seeds@[k]).1 < WEIGHT_MAX ==> labels@[seeds@[k].0 as int].is_some(),
        decreases seeds@.len() - i,
    {
        let (id, weight) = seeds[i];
        let ghost labels_before = labels@;
        if weight < WEIGHT_MAX && (!least || weight < labels.weight(id)) {
            proof {
                lemma_seed(Side { labels: labels@, heap: heap@ }, g, forward, id, weight);
            }
            labels.update(id, weight, INVALID_NODE, INVALID_EDGE);
            heap.push(HeapItem::new(weight, id));
        }
        proof {
            assert forall|k: int| 0 <= k < i + 1 && (#[trigger] seeds@[k]).1
                < WEIGHT_MAX implies labels@[seeds@[k].0 as int].is_some() by {
                if k < i {
                    assert(labels_before[seeds@[k].0 as int].is_some());
                }
            }
        }
        i += 1;
    }
}

/// Appends the nodes on the way from `node` back to where its search began, without
/// that last node, which is returned.
fn walk_back(labels: &Labels, graph: &FastGraph, forward: bool, node: NodeId, nodes: &mut Vec<NodeId>) -> (root:
    NodeId)
    requires
        labels.wf(),
        labels@.len() == graph@.num_nodes,
        walkable(labels@, graph@, forward),
        graph@.unpackable(),
        node < graph@.num_nodes,
        labels@[node as int].is_some(),
    ensures
        final(nodes)@ == old(nodes)@ + walk(labels@, graph@, forward, node),
        root == root_of(labels@, graph@, node),
        root < graph@.num_nodes,
{
    let ghost g = graph@;
    let ghost start = node;
    let mut node = node;
    loop
        invariant_except_break
            nodes@ + walk(labels@, g, forward, node) == old(nodes)@ + walk(
                labels@,
                g,
                forward,
                start,
            ),
        invariant
            labels.wf(),
            labels@.len() == g.num_nodes,
            g == graph@,
            g.unpackable(),
            walkable(labels@, g, forward),
            node < g.num_nodes,
            labels@[node as int].is_some(),
            root_of(labels@, g, node) == root_of(labels@, g, start),
        ensures
            nodes@ == old(nodes)@ + walk(labels@, g, forward, start),
            node == root_of(labels@, g, start),
        decreases g.ranks[node as int],
    {
        let label = labels.get(node);
        proof {
            lemma_walk_step(labels@, g, forward, node);
        }
        if label.inc_edge == INVALID_EDGE {
            assert(nodes@ + Seq::<NodeId>::empty() =~= nodes@);
            break;
        }
        let ghost before = nodes@;
        if forward {
            PathCalculator::unpack_fwd(graph, nodes, label.inc_edge, true);
        } else {
            PathCalculator::unpack_bwd(graph, nodes, label.inc_edge, false);
        }
        proof {
            assert((nodes@ + walk(labels@, g, forward, label.parent)) =~= (before + (unpacked(
                g,
                forward,
                label.inc_edge as int,
                forward,
            ) + walk(labels@, g, forward, label.parent))));
        }
        node = label.parent;
    }
    node
}

/// The nodes in reverse order.
fn reversed(nodes: Vec<NodeId>) -> (result: Vec<NodeId>)
    ensures
        result@ == nodes@.reverse(),
{
    let mut result: Vec<NodeId> = Vec::new();
    let mut i: usize = nodes.len();
    while i > 0
        invariant
            i <= nodes@.len(),
            result@.len() == nodes@.len() - i,
            forall|k: int| 0 <= k < result@.len() ==> result@[k] == nodes@[nodes@.len() - 1 - k],
        decreases i,
    {
        i -= 1;
        result.push(nodes[i]);
    }
    assert(result@ =~= nodes@.reverse());
    result
}

/// Whether the node `curr` can be reached with less weight over an edge from a node of
/// higher rank that the search has reached. Such a node need not be settled.
fn is_stallable(labels: &Labels, graph: &FastGraph, curr: HeapItem, forward: bool) -> (stalls: bool)
    requires
        labels.wf(),
        graph@.wf(),
        labels@.len() == graph@.num_nodes,
        curr.node_id < graph@.num_nodes,
    ensures
        stalls == stalls_from(
            labels@,
            edges_of_side(graph@, !forward),
            begin_of(graph@, curr.node_id, !forward),
            end_of(graph@, curr.node_id, !forward),
            curr.weight,
        ),
{
    proof {
        lemma_slice(graph@, curr.node_id, !forward);
    }
    let begin = if forward {
        graph.begin_in_edges(curr.node_id)
    } else {
        graph.begin_out_edges(curr.node_id)
    };
    let end = if forward {
        graph.end_in_edges(curr.node_id)
    } else {
        graph.end_out_edges(curr.node_id)
    };
    let ghost edges = edges_of_side(graph@, !forward);
    let mut edge_id = begin;
    while edge_id < end
        invariant
            begin <= edge_id <= end,
            labels.wf(),
            labels@.len() == graph@.num_nodes,
            edges == edges_of_side(graph@, !forward),
            begin == begin_of(graph@, curr.node_id, !forward),
            end == end_of(graph@, curr.node_id, !forward),
            end <= edges.len(),
            forall|k: int| begin <= k < end ==> (#[trigger] edges[k]).adj_node < graph@.num_nodes,
            stalls_from(labels@, edges, begin as int, end as int, curr.weight) == stalls_from(
                labels@,
                edges,
                edge_id as int,
                end as int,
                curr.weight,
            ),
        decreases end - edge_id,
    {
        let edge = if forward {
            graph.edges_bwd[edge_id]
        } else {
            graph.edges_fwd[edge_id]
        };
        assert(edge == edges[edge_id as int]);
        let adj_weight = labels.weight(edge.adj_node);
        if adj_weight != WEIGHT_MAX && adj_weight < curr.weight && edge.weight < curr.weight
            - adj_weight {
            return true;
        }
        edge_id += 1;
    }
    false
}

/// A calculator of shortest paths on prepared graphs of a given number of nodes. It
/// keeps the memory that the searches need, so that it serves many queries in a row.
pub struct PathCalculator {
    num_nodes: usize,
    labels_fwd: Labels,
    labels_bwd: Labels,
    heap_fwd: MinHeap,
    heap_bwd: MinHeap,
}

impl PathCalculator {
    pub closed spec fn wf(&self) -> bool {
        &&& self.labels_fwd.wf()
        &&& self.labels_bwd.wf()
        &&& self.heap_fwd.wf()
        &&& self.heap_bwd.wf()
        &&& self.labels_fwd@.len() == self.num_nodes
        &&& self.labels_bwd@.len() == self.num_nodes
    }

    /// The number of nodes of the graphs that the calculator is for.
    pub closed spec fn spec_num_nodes(&self) -> usize {
        self.num_nodes
    }

    pub fn new(num_nodes: usize) -> (calculator: Self)
        ensures
            calculator.wf(),
            calculator.spec_num_nodes() == num_nodes,
    {
        PathCalculator {
            num_nodes,
            labels_fwd: Labels::new(num_nodes),
            labels_bwd: Labels::new(num_nodes),
            heap_fwd: MinHeap::new(),
            heap_bwd: MinHeap::new(),
        }
    }

    /// Calculates the shortest path from `start` to `end`.
    pub fn calc_path(&mut self, graph: &FastGraph, start: NodeId, end: NodeId) -> (path: Option<
        ShortestPath,
    >)
        requires
            old(self).wf(),
            graph@.wf(),
            graph@.num_nodes == old(self).spec_num_nodes(),
            start < graph@.num_nodes,
            end < graph@.num_nodes,
        ensures
            final(self).wf(),
            final(self).spec_num_nodes() == old(self).spec_num_nodes(),
            path is None <==> query_result(graph@, seq![(start, 0usize)], end).meeting_node
                == INVALID_NODE,
            path matches Some(p) ==> {
                let q = query_result(graph@, seq![(start, 0usize)], end);
                &&& p.spec_nodes() == found_nodes(q, graph@, end)
                &&& p.spec_source() == found_nodes(q, graph@, end)[0]
                &&& p.spec_target() == end
                &&& p.spec_weight() == q.best_weight
            },
            forall|input: Seq<Edge>|
                graph@.represents(input) && #[trigger] keeps_ways(graph@, input) ==> is_lightest(
                    input,
                    start,
                    end,
                    path,
                ),
    {
        let mut starts: Vec<(NodeId, Weight)> = Vec::new();
        starts.push((start, 0));
        assert(starts@ =~= seq![(start, 0usize)]);
        let path = self.search_from(graph, starts, end);
        proof {
            assert forall|input: Seq<Edge>|
                graph@.represents(input) && #[trigger] keeps_ways(graph@, input) implies is_lightest(
                input,
                start,
                end,
                path,
            ) by {
                lemma_lightest(graph@, input, start, end, path);
            }
        }
        path
    }

    /// Calculates the shortest path from any of the start nodes to `end`. Each start
    /// node comes with a weight that is added to the weight of the paths from it; a
    /// start node with an infinite weight is left out. On a graph that was prepared
    /// from an input graph the path is a lightest path through that graph, as long as
    /// no start node comes again with a weight that is not smaller than before.
    pub fn calc_path_multiple_endpoints(
        &mut self,
        graph: &FastGraph,
        starts: Vec<(NodeId, Weight)>,
        end: NodeId,
    ) -> (path: Option<ShortestPath>)
        requires
            old(self).wf(),
            graph@.wf(),
            graph@.num_nodes == old(self).spec_num_nodes(),
            forall|i: int| 0 <= i < starts@.len() ==> (#[trigger] starts@[i]).0 < graph@.num_nodes,
            end < graph@.num_nodes,
        ensures
            final(self).wf(),
            final(self).spec_num_nodes() == old(self).spec_num_nodes(),
            path is None <==> query_result(graph@, starts@, end).meeting_node == INVALID_NODE,
            path matches Some(p) ==> {
                let q = query_result(graph@, starts@, end);
                &&& p.spec_nodes() == found_nodes(q, graph@, end)
                &&& p.spec_source() == found_nodes(q, graph@, end)[0]
                &&& p.spec_target() == end
                &&& p.spec_weight() == q.best_weight
            },
            forall|input: Seq<Edge>|
                graph@.represents(input) && #[trigger] keeps_ways(graph@, input) && no_heavier_repeat(
                    starts@,
                ) ==> is_lightest_between(input, starts@, seq![(end, 0usize)], path),
    {
        let ghost seeds = starts@;
        let path = self.search_from(graph, starts, end);
        proof {
            assert forall|input: Seq<Edge>|
                graph@.represents(input) && #[trigger] keeps_ways(graph@, input) && no_heavier_repeat(
                    seeds,
                ) implies is_lightest_between(input, seeds, seq![(end, 0usize)], path) by {
                lemma_lightest_from(graph@, input, seeds, end, path);
            }
        }
        path
    }

    /// The search for the shortest path from any of the start nodes to `end`.
    fn search_from(&mut self, graph: &FastGraph, starts: Vec<(NodeId, Weight)>, end: NodeId) -> (path:
        Option<ShortestPath>)
        requires
            old(self).wf(),
            graph@.wf(),
            graph@.num_nodes == old(self).spec_num_nodes(),
            forall|i: int| 0 <= i < starts@.len() ==> (#[trigger] starts@[i]).0 < graph@.num_nodes,
            end < graph@.num_nodes,
        ensures
            final(self).wf(),
            final(self).spec_num_nodes() == old(self).spec_num_nodes(),
            path is None <==> query_result(graph@, starts@, end).meeting_node == INVALID_NODE,
            path matches Some(p) ==> {
                let q = query_result(graph@, starts@, end);
                &&& p.spec_nodes() == found_nodes(q, graph@, end)
                &&& p.spec_source() == found_nodes(q, graph@, end)[0]
                &&& p.spec_target() == end
                &&& p.spec_weight() == q.best_weight
            },
    {
        let mut ends: Vec<(NodeId, Weight)> = Vec::new();
        ends.push((end, 0));
        proof {
            assert(ends@ =~= seq![(end, 0usize)]);
            lemma_single_end(graph@.num_nodes as nat, starts@, end);
        }
        let (found_weight, found_node) = self.begin_query(graph, &starts, &ends, false);
        let (best_weight, meeting_node) = self.run_query(graph, found_weight, found_node);
        if meeting_node == INVALID_NODE {
            None
        } else {
            let node_ids = self.extract_nodes(graph, end, meeting_node);
            let chosen_start = node_ids[0];
            Some(ShortestPath::new(chosen_start, end, best_weight, node_ids))
        }
    }

    /// Forgets the last query, and has the searches of a new one reach the start nodes
    /// and the end nodes. Returns the best weight and the meeting node to begin with: a
    /// node that is among the start nodes and among the end nodes, with the least weight
    /// of both together.
    fn begin_query(
        &mut self,
        graph: &FastGraph,
        starts: &Vec<(NodeId, Weight)>,
        ends: &Vec<(NodeId, Weight)>,
        least: bool,
    ) -> (found: (Weight, NodeId))
        requires
            old(self).wf(),
            graph@.wf(),
            graph@.num_nodes == old(self).spec_num_nodes(),
            forall|i: int| 0 <= i < starts@.len() ==> (#[trigger] starts@[i]).0 < graph@.num_nodes,
            forall|i: int| 0 <= i < ends@.len() ==> (#[trigger] ends@[i]).0 < graph@.num_nodes,
        ensures
            final(self).wf(),
            final(self).spec_num_nodes() == old(self).spec_num_nodes(),
            (Query {
                fwd: Side { labels: final(self).labels_fwd@, heap: final(self).heap_fwd@ },
                bwd: Side { labels: final(self).labels_bwd@, heap: final(self).heap_bwd@ },
                best_weight: found.0,
                meeting_node: found.1,
            }) == start_pair_query(graph@.num_nodes as nat, starts@, ends@, least),
            start_pair_query(graph@.num_nodes as nat, starts@, ends@, least).fits(graph@),
    {
        let ghost g = graph@;
        self.heap_fwd.clear();
        self.heap_bwd.clear();
        self.labels_fwd.reset();
        self.labels_bwd.reset();
        seed_side(&mut self.labels_fwd, &mut self.heap_fwd, graph, starts, true, least);
        seed_side(&mut self.labels_bwd, &mut self.heap_bwd, graph, ends, false, least);
        let mut best_weight = WEIGHT_MAX;
        let mut meeting_node = INVALID_NODE;
        let mut i: usize = 0;
        while i < ends.len()
            invariant
                i <= ends@.len(),
                (best_weight, meeting_node) == best_meet(starts@, ends@, i as int),
                forall|k: int| 0 <= k < ends@.len() ==> (#[trigger] ends@[k]).0 < g.num_nodes,
                forall|k: int|
                    0 <= k < starts@.len() && (#[trigger] starts@[k]).1 < WEIGHT_MAX
                        ==> self.labels_fwd@[starts@[k].0 as int].is_some(),
                forall|k: int|
                    0 <= k < ends@.len() && (#[trigger] ends@[k]).1 < WEIGHT_MAX
                        ==> self.labels_bwd@[ends@[k].0 as int].is_some(),
                meeting_node != INVALID_NODE ==> {
                    &&& meeting_node < g.num_nodes
                    &&& self.labels_fwd@[meeting_node as int].is_some()
                    &&& self.labels_bwd@[meeting_node as int].is_some()
                    &&& best_weight < WEIGHT_MAX
                },
            decreases ends@.len() - i,
        {
            let (id, weight) = ends[i];
            if weight < WEIGHT_MAX {
                let from_start = least_start(starts, id);
                if from_start < best_weight && weight < best_weight - from_start {
                    proof {
                        let k = choose|k: int|
                            0 <= k < starts@.len() && (#[trigger] starts@[k]).0 == id && starts@[k].1
                                < WEIGHT_MAX;
                        assert(self.labels_fwd@[starts@[k].0 as int].is_some());
                        assert(self.labels_bwd@[ends@[i as int].0 as int].is_some());
                    }
                    best_weight = from_start + weight;
                    meeting_node = id;
                }
            }
            i += 1;
        }
        (best_weight, meeting_node)
    }

    /// Runs both searches in turn until both queues are empty. Returns the best weight
    /// and the meeting node found.
    fn run_query(&mut self, graph: &FastGraph, best_weight: Weight, meeting_node: NodeId) -> (found:
        (Weight, NodeId))
        requires
            old(self).wf(),
            graph@.num_nodes == old(self).spec_num_nodes(),
            (Query {
                fwd: Side { labels: old(self).labels_fwd@, heap: old(self).heap_fwd@ },
                bwd: Side { labels: old(self).labels_bwd@, heap: old(self).heap_bwd@ },
                best_weight,
                meeting_node,
            }).fits(graph@),
        ensures
            final(self).wf(),
            final(self).spec_num_nodes() == old(self).spec_num_nodes(),
            (Query {
                fwd: Side { labels: final(self).labels_fwd@, heap: final(self).heap_fwd@ },
                bwd: Side { labels: final(self).labels_bwd@, heap: final(self).heap_bwd@ },
                best_weight: found.0,
                meeting_node: found.1,
            }) == (Query {
                fwd: Side { labels: old(self).labels_fwd@, heap: old(self).heap_fwd@ },
                bwd: Side { labels: old(self).labels_bwd@, heap: old(self).heap_bwd@ },
                best_weight,
                meeting_node,
            }).run(graph@),
            (Query {
                fwd: Side { labels: final(self).labels_fwd@, heap: final(self).heap_fwd@ },
                bwd: Side { labels: final(self).labels_bwd@, heap: final(self).heap_bwd@ },
                best_weight: found.0,
                meeting_node: found.1,
            }).fits(graph@),
    {
        let ghost g = graph@;
        let ghost n = self.num_nodes as nat;
        let ghost begun = Query {
            fwd: Side { labels: self.labels_fwd@, heap: self.heap_fwd@ },
            bwd: Side { labels: self.labels_bwd@, heap: self.heap_bwd@ },
            best_weight,
            meeting_node,
        };
        let mut best_weight = best_weight;
        let mut meeting_node = meeting_node;
        loop
            invariant_except_break
                (Query {
                    fwd: Side { labels: self.labels_fwd@, heap: self.heap_fwd@ },
                    bwd: Side { labels: self.labels_bwd@, heap: self.heap_bwd@ },
                    best_weight,
                    meeting_node,
                }).run(g) == begun.run(g),
            invariant
                self.wf(),
                self.num_nodes == n,
                g == graph@,
                g.num_nodes == n,
                (Query {
                    fwd: Side { labels: self.labels_fwd@, heap: self.heap_fwd@ },
                    bwd: Side { labels: self.labels_bwd@, heap: self.heap_bwd@ },
                    best_weight,
                    meeting_node,
                }).fits(g),
            ensures
                (Query {
                    fwd: Side { labels: self.labels_fwd@, heap: self.heap_fwd@ },
                    bwd: Side { labels: self.labels_bwd@, heap: self.heap_bwd@ },
                    best_weight,
                    meeting_node,
                }) == begun.run(g),
            decreases
                    total_weight(self.labels_fwd@) + total_weight(self.labels_bwd@),
                    self.heap_fwd@.len() + self.heap_bwd@.len(),
        {
            if self.heap_fwd.is_empty() && self.heap_bwd.is_empty() {
                break;
            }
            let ghost q0 = Query {
                fwd: Side { labels: self.labels_fwd@, heap: self.heap_fwd@ },
                bwd: Side { labels: self.labels_bwd@, heap: self.heap_bwd@ },
                best_weight,
                meeting_node,
            };
            proof {
                lemma_advance(q0, g, true);
                lemma_advance(q0.advance(g, true), g, false);
            }
            advance(
                &mut self.labels_fwd,
                &mut self.heap_fwd,
                &self.labels_bwd,
                graph,
                true,
                &mut best_weight,
                &mut meeting_node,
                Ghost(self.heap_bwd@),
            );
            advance(
                &mut self.labels_bwd,
                &mut self.heap_bwd,
                &self.labels_fwd,
                graph,
                false,
                &mut best_weight,
                &mut meeting_node,
                Ghost(self.heap_fwd@),
            );
        }
        (best_weight, meeting_node)
    }

    /// Calculates the shortest path from any of the start nodes to any of the end
    /// nodes. Each node comes with a weight that is added to the weight of the paths
    /// from or to it; a node with an infinite weight is left out, and of a node that is
    /// given several times the least weight counts.
    pub fn calc_path_multiple_sources_and_targets(
        &mut self,
        graph: &FastGraph,
        starts: Vec<(NodeId, Weight)>,
        ends: Vec<(NodeId, Weight)>,
    ) -> (path: Option<ShortestPath>)
        requires
            old(self).wf(),
            graph@.wf(),
            graph@.num_nodes == old(self).spec_num_nodes(),
            forall|i: int| 0 <= i < starts@.len() ==> (#[trigger] starts@[i]).0 < graph@.num_nodes,
            forall|i: int| 0 <= i < ends@.len() ==> (#[trigger] ends@[i]).0 < graph@.num_nodes,
        ensures
            final(self).wf(),
            final(self).spec_num_nodes() == old(self).spec_num_nodes(),
            path is None <==> pair_query_result(graph@, starts@, ends@).meeting_node
                == INVALID_NODE,
            path matches Some(p) ==> {
                let q = pair_query_result(graph@, starts@, ends@);
                let nodes = found_nodes_between(q, graph@);
                &&& p.spec_nodes() == nodes
                &&& p.spec_source() == nodes[0]
                &&& p.spec_target() == nodes[nodes.len() - 1]
                &&& p.spec_weight() == q.best_weight
            },
            forall|input: Seq<Edge>|
                graph@.represents(input) && #[trigger] keeps_ways(graph@, input)
                    ==> is_lightest_between(input, starts@, ends@, path),
    {
        let ghost seeds = starts@;
        let ghost goals = ends@;
        let path = self.search_between(graph, starts, ends);
        proof {
            assert forall|input: Seq<Edge>|
                graph@.represents(input) && #[trigger] keeps_ways(
                    graph@,
                    input,
                ) implies is_lightest_between(input, seeds, goals, path) by {
                lemma_lightest_between(graph@, input, seeds, goals, path);
            }
        }
        path
    }

    /// The search for the shortest path from any of the start nodes to any of the end
    /// nodes.
    fn search_between(
        &mut self,
        graph: &FastGraph,
        starts: Vec<(NodeId, Weight)>,
        ends: Vec<(NodeId, Weight)>,
    ) -> (path: Option<ShortestPath>)
        requires
            old(self).wf(),
            graph@.wf(),
            graph@.num_nodes == old(self).spec_num_nodes(),
            forall|i: int| 0 <= i < starts@.len() ==> (#[trigger] starts@[i]).0 < graph@.num_nodes,
            forall|i: int| 0 <= i < ends@.len() ==> (#[trigger] ends@[i]).0 < graph@.num_nodes,
        ensures
            final(self).wf(),
            final(self).spec_num_nodes() == old(self).spec_num_nodes(),
            path is None <==> pair_query_result(graph@, starts@, ends@).meeting_node
                == INVALID_NODE,
            path matches Some(p) ==> {
                let q = pair_query_result(graph@, starts@, ends@);
                let nodes = found_nodes_between(q, graph@);
                &&& p.spec_nodes() == nodes
                &&& p.spec_source() == nodes[0]
                &&& p.spec_target() == nodes[nodes.len() - 1]
                &&& p.spec_weight() == q.best_weight
            },
    {
        let (found_weight, found_node) = self.begin_query(graph, &starts, &ends, true);
        let (best_weight, meeting_node) = self.run_query(graph, found_weight, found_node);
        if meeting_node == INVALID_NODE {
            None
        } else {
            proof {
                lemma_walkable(Side { labels: self.labels_fwd@, heap: self.heap_fwd@ }, graph@, true);
                lemma_walkable(
                    Side { labels: self.labels_bwd@, heap: self.heap_bwd@ },
                    graph@,
                    false,
                );
            }
            let mut nodes: Vec<NodeId> = Vec::new();
            let _ = walk_back(&self.labels_fwd, graph, true, meeting_node, &mut nodes);
            let mut nodes = reversed(nodes);
            let chosen_end = walk_back(&self.labels_bwd, graph, false, meeting_node, &mut nodes);
            nodes.push(chosen_end);
            let chosen_start = nodes[0];
            Some(ShortestPath::new(chosen_start, chosen_end, best_weight, nodes))
        }
    }

    /// The nodes of the path over the meeting node: from the start node that the
    /// forward search came from to the meeting node, and on to the end node.
    fn extract_nodes(&self, graph: &FastGraph, end: NodeId, meeting_node: NodeId) -> (nodes: Vec<
        NodeId,
    >)
        requires
            self.wf(),
            graph@.wf(),
            graph@.num_nodes == self.num_nodes,
            (Side { labels: self.labels_fwd@, heap: self.heap_fwd@ }).fits(graph@, true),
            (Side { labels: self.labels_bwd@, heap: self.heap_bwd@ }).fits(graph@, false),
            meeting_node < graph@.num_nodes,
            self.labels_fwd@[meeting_node as int].is_some(),
            self.labels_bwd@[meeting_node as int].is_some(),
        ensures
            nodes@ == walk(self.labels_fwd@, graph@, true, meeting_node).reverse() + walk(
                self.labels_bwd@,
                graph@,
                false,
                meeting_node,
            ) + seq![end],
            nodes@.len() > 0,
    {
        proof {
            lemma_walkable(Side { labels: self.labels_fwd@, heap: self.heap_fwd@ }, graph@, true);
            lemma_walkable(Side { labels: self.labels_bwd@, heap: self.heap_bwd@ }, graph@, false);
        }
        let mut result: Vec<NodeId> = Vec::new();
        let _ = walk_back(&self.labels_fwd, graph, true, meeting_node, &mut result);
        let mut result = reversed(result);
        let _ = walk_back(&self.labels_bwd, graph, false, meeting_node, &mut result);
        result.push(end);
        result
    }

    /// Appends the nodes of the path that a leaving edge stands for, without the last
    /// node of the path, in the order of the path, or the other way round for `reverse`.
    pub fn unpack_fwd(graph: &FastGraph, nodes: &mut Vec<NodeId>, edge_id: EdgeId, reverse: bool)
        requires
            graph@.unpackable(),
            edge_id < graph@.edges_fwd.len(),
        ensures
            final(nodes)@ == old(nodes)@ + unpacked(graph@, true, edge_id as int, reverse),
        decreases graph@.heights().0[edge_id as int],
    {
        proof {
            graph@.lemma_heights();
        }
        let edge = graph.edges_fwd[edge_id];
        if !edge.is_shortcut() {
            nodes.push(edge.base_node);
            proof {
                assert(nodes@ =~= old(nodes)@ + seq![edge.base_node]);
            }
            return ;
        }
        if reverse {
            PathCalculator::unpack_fwd(graph, nodes, edge.replaced_out_edge, reverse);
            PathCalculator::unpack_bwd(graph, nodes, edge.replaced_in_edge, reverse);
        } else {
            PathCalculator::unpack_bwd(graph, nodes, edge.replaced_in_edge, reverse);
            PathCalculator::unpack_fwd(graph, nodes, edge.replaced_out_edge, reverse);
        }
        proof {
            assert(nodes@ =~= old(nodes)@ + unpacked(graph@, true, edge_id as int, reverse));
        }
    }

    /// Appends the nodes of the path that an entering edge stands for, without the
    /// last node of the path, in the order of the path, or the other way round for
    /// `reverse`.
    pub fn unpack_bwd(graph: &FastGraph, nodes: &mut Vec<NodeId>, edge_id: EdgeId, reverse: bool)
        requires
            graph@.unpackable(),
            edge_id < graph@.edges_bwd.len(),
        ensures
            final(nodes)@ == old(nodes)@ + unpacked(graph@, false, edge_id as int, reverse),
        decreases graph@.heights().1[edge_id as int],
    {
        proof {
            graph@.lemma_heights();
        }
        let edge = graph.edges_bwd[edge_id];
        if !edge.is_shortcut() {
            nodes.push(edge.adj_node);
            proof {
                assert(nodes@ =~= old(nodes)@ + seq![edge.adj_node]);
            }
            return ;
        }
        if reverse {
            PathCalculator::unpack_fwd(graph, nodes, edge.replaced_out_edge, reverse);
            PathCalculator::unpack_bwd(graph, nodes, edge.replaced_in_edge, reverse);
        } else {
            PathCalculator::unpack_bwd(graph, nodes, edge.replaced_in_edge, reverse);
            PathCalculator::unpack_fwd(graph, nodes, edge.replaced_out_edge, reverse);
        }
        proof {
            assert(nodes@ =~= old(nodes)@ + unpacked(graph@, false, edge_id as int, reverse));
        }
    }
}

/// One step of the search of one direction.
fn advance(
    labels: &mut Labels,
    heap: &mut MinHeap,
    other: &Labels,
    graph: &FastGraph,
    forward: bool,
    best_weight: &mut Weight,
    meeting_node: &mut NodeId,
    Ghost(other_heap): Ghost<Multiset<HeapItem>>,
)
    requires
        old(labels).wf(),
        old(heap).wf(),
        other.wf(),
        query_of(
            Side { labels: old(labels)@, heap: old(heap)@ },
            Side { labels: other@, heap: other_heap },
            forward,
            *old(best_weight),
            *old(meeting_node),
        ).fits(graph@),
    ensures
        final(labels).wf(),
        final(heap).wf(),
        final(labels)@.len() == old(labels)@.len(),
        query_of(
            Side { labels: final(labels)@, heap: final(heap)@ },
            Side { labels: other@, heap: other_heap },
            forward,
            *final(best_weight),
            *final(meeting_node),
        ) == query_of(
            Side { labels: old(labels)@, heap: old(heap)@ },
            Side { labels: other@, heap: other_heap },
            forward,
            *old(best_weight),
            *old(meeting_node),
        ).advance(graph@, forward),
{
    let ghost g = graph@;
    let ghost theirs = Side { labels: other@, heap: other_heap };
    let ghost q0 = query_of(
        Side { labels: labels@, heap: heap@ },
        theirs,
        forward,
        *best_weight,
        *meeting_node,
    );
    loop
        invariant_except_break
            query_of(
                Side { labels: labels@, heap: heap@ },
                theirs,
                forward,
                *best_weight,
                *meeting_node,
            ).advance(g, forward) == q0.advance(g, forward),
        invariant
            labels.wf(),
            heap.wf(),
            other.wf(),
            g == graph@,
            theirs == (Side { labels: other@, heap: other_heap }),
            labels@.len() == old(labels)@.len(),
            query_of(
                Side { labels: labels@, heap: heap@ },
                theirs,
                forward,
                *best_weight,
                *meeting_node,
            ).fits(g),
        ensures
            labels.wf(),
            heap.wf(),
            labels@.len() == old(labels)@.len(),
            query_of(
                Side { labels: labels@, heap: heap@ },
                theirs,
                forward,
                *best_weight,
                *meeting_node,
            ) == q0.advance(g, forward),
        decreases heap@.len(),
    {
        let ghost q = query_of(
            Side { labels: labels@, heap: heap@ },
            theirs,
            forward,
            *best_weight,
            *meeting_node,
        );
        let ghost side = Side { labels: labels@, heap: heap@ };
        assert(q.side(forward) == side);
        assert(q.side(!forward) == theirs);
        if heap.is_empty() {
            break;
        }
        let curr = heap.pop().unwrap();
        let ghost popped = Side { labels: labels@, heap: heap@ };
        proof {
            lemma_take(side, g, forward, curr);
            assert(q.with_side(forward, popped) == query_of(
                popped,
                theirs,
                forward,
                *best_weight,
                *meeting_node,
            ));
        }
        if labels.is_settled(curr.node_id) {
            continue;
        }
        if curr.weight > *best_weight {
            break;
        }
        if is_stallable(labels, graph, curr, forward) {
            continue;
        }
        proof {
            lemma_slice(g, curr.node_id, forward);
        }
        let begin = if forward {
            graph.begin_out_edges(curr.node_id)
        } else {
            graph.begin_in_edges(curr.node_id)
        };
        let end = if forward {
            graph.end_out_edges(curr.node_id)
        } else {
            graph.end_in_edges(curr.node_id)
        };
        let ghost edges = edges_of_side(g, forward);
        let mut edge_id = begin;
        while edge_id < end
            invariant
                begin <= edge_id <= end,
                labels.wf(),
                heap.wf(),
                g == graph@,
                edges == edges_of_side(g, forward),
                begin == begin_of(g, curr.node_id, forward),
                end == end_of(g, curr.node_id, forward),
                slice_ok(g, curr.node_id, forward),
                curr.node_id < g.num_nodes,
                labels@.len() == old(labels)@.len(),
                labels@[curr.node_id as int].is_some(),
                (Side { labels: labels@, heap: heap@ }).fits(g, forward),
                (Side { labels: labels@, heap: heap@ }).relax_from(
                    edges,
                    edge_id as int,
                    end as int,
                    curr,
                ) == popped.relax_from(edges, begin as int, end as int, curr),
            decreases end - edge_id,
        {
            let edge = if forward {
                graph.edges_fwd[edge_id]
            } else {
                graph.edges_bwd[edge_id]
            };
            let ghost here = Side { labels: labels@, heap: heap@ };
            proof {
                assert(edge == edges[edge_id as int]);
                lemma_relax_edge(here, g, forward, edge_id as int, curr);
            }
            if edge.weight < WEIGHT_MAX - curr.weight {
                let weight = curr.weight + edge.weight;
                if weight < labels.weight(edge.adj_node) {
                    labels.update(edge.adj_node, weight, curr.node_id, edge_id);
                    heap.push(HeapItem::new(weight, edge.adj_node));
                }
            }
            proof {
                assert((Side { labels: labels@, heap: heap@ }) == here.relax_edge(
                    edge,
                    edge_id as int,
                    curr,
                ));
            }
            edge_id += 1;
        }
        let ghost relaxed = Side { labels: labels@, heap: heap@ };
        proof {
            lemma_settle(relaxed, g, forward, curr.node_id);
        }
        labels.settle(curr.node_id);
        let ghost settled = Side { labels: labels@, heap: heap@ };
        assert(settled == relaxed.settle(curr.node_id));
        if other.is_valid(curr.node_id) {
            let other_weight = other.weight(curr.node_id);
            if other_weight < *best_weight && curr.weight < *best_weight - other_weight {
                *best_weight = curr.weight + other_weight;
                *meeting_node = curr.node_id;
            }
        }
        proof {
            lemma_advance_settle(q, g, forward, curr);
        }
        break;
    }
}

} // verus!
