use vstd::multiset::Multiset;
use vstd::prelude::*;

use crate::constants::NodeId;
use crate::constants::Weight;
use crate::constants::INVALID_EDGE;
use crate::constants::INVALID_NODE;
use crate::constants::WEIGHT_MAX;
use crate::constants::WEIGHT_ZERO;
use crate::heap_item::HeapItem;
use crate::labels::label_settled;
use crate::labels::label_weight;
use crate::labels::lemma_total_weight_update;
use crate::labels::no_labels;
use crate::labels::total_weight;
use crate::labels::Label;
use crate::labels::Labels;
use crate::min_heap::lemma_remove_len;
use crate::min_heap::min_item;
use crate::min_heap::MinHeap;
use crate::preparation_graph::Arc;
use crate::preparation_graph::ArcLists;
use crate::preparation_graph::PreparationGraph;

verus! {

/// The state of a witness search: the labels of the nodes reached so far, the queue of
/// nodes to visit, the node the search starts at, the node it avoids, and the number of
/// nodes settled since it was started.
pub struct WitnessState {
    pub labels: Seq<Option<Label>>,
    pub heap: Multiset<HeapItem>,
    pub start: NodeId,
    pub avoid: NodeId,
    pub settled_nodes: usize,
}

impl WitnessState {
    /// Every node in the queue is a node of the graph and has a label.
    pub open spec fn wf(self) -> bool {
        forall|item: HeapItem| #[trigger]
            self.heap.contains(item) ==> item.node_id < self.labels.len()
                && self.labels[item.node_id as int].is_some()
    }

    /// The state of a search for graphs of `n` nodes that was not started yet.
    pub open spec fn fresh(n: nat) -> WitnessState {
        WitnessState {
            labels: no_labels(n),
            heap: Multiset::empty(),
            start: INVALID_NODE,
            avoid: INVALID_NODE,
            settled_nodes: 0,
        }
    }

    /// The state right after a search was started.
    pub open spec fn init(n: nat, start: NodeId, avoid: NodeId) -> WitnessState {
        WitnessState {
            labels: no_labels(n).update(
                start as int,
                Some(
                    Label {
                        settled: false,
                        weight: 0,
                        parent: INVALID_NODE,
                        inc_edge: INVALID_EDGE,
                    },
                ),
            ),
            heap: Multiset::singleton(HeapItem { weight: 0, node_id: start }),
            start,
            avoid,
            settled_nodes: 0,
        }
    }

    /// Follows one arc out of a node that was reached with `weight`. Where that leads to
    /// its end with less weight than known so far, the end gets a new label and enters
    /// the queue. The flag tells whether this was the target, reached within the limit.
    pub open spec fn relax_arc(self, arc: Arc, weight: Weight, target: NodeId, weight_limit: Weight) -> (
        WitnessState,
        bool,
    ) {
        let reached = weight + arc.weight;
        if arc.adj_node != self.avoid && reached < label_weight(self.labels, arc.adj_node as int) {
            (
                WitnessState {
                    labels: self.labels.update(
                        arc.adj_node as int,
                        Some(
                            Label {
                                settled: false,
                                weight: reached as usize,
                                parent: INVALID_NODE,
                                inc_edge: INVALID_EDGE,
                            },
                        ),
                    ),
                    heap: self.heap.insert(
                        HeapItem { weight: reached as usize, node_id: arc.adj_node },
                    ),
                    ..self
                },
                arc.adj_node == target && reached <= weight_limit,
            )
        } else {
            (self, false)
        }
    }

    /// Follows the arcs from position `k` on, one after the other. The flag tells
    /// whether one of them reached the target within the limit.
    pub open spec fn relax_from(
        self,
        arcs: Seq<Arc>,
        k: int,
        weight: Weight,
        target: NodeId,
        weight_limit: Weight,
    ) -> (WitnessState, bool)
        decreases arcs.len() - k,
    {
        if 0 <= k < arcs.len() {
            let (next, found) = self.relax_arc(arcs[k], weight, target, weight_limit);
            let (last, found_later) = next.relax_from(arcs, k + 1, weight, target, weight_limit);
            (last, found || found_later)
        } else {
            (self, false)
        }
    }

    /// The state with `node` marked as settled and counted.
    pub open spec fn settle(self, node: NodeId) -> WitnessState {
        WitnessState {
            labels: self.labels.update(
                node as int,
                Some(Label { settled: true, ..self.labels[node as int].unwrap() }),
            ),
            settled_nodes: (self.settled_nodes + 1) as usize,
            ..self
        }
    }

    /// Whether the search can go on in this state of the graph.
    pub open spec fn fits(self, graph: ArcLists) -> bool {
        &&& self.wf()
        &&& graph.wf()
        &&& graph.num_nodes() == self.labels.len()
    }

    /// Runs the search until the queue is empty, the number of settled nodes has
    /// reached its limit, the next node in the queue lies beyond the weight limit, the
    /// target was settled, or the target was reached within the weight limit.
    pub open spec fn run(
        self,
        graph: ArcLists,
        target: NodeId,
        weight_limit: Weight,
        settled_limit: usize,
    ) -> WitnessState
        decreases total_weight(self.labels), self.heap.len(),
        when self.fits(graph)
    {
        let curr = min_item(self.heap);
        if self.heap.len() == 0 || self.settled_nodes >= settled_limit || !self.heap.contains(
            curr,
        ) || curr.weight > weight_limit {
            self
        } else {
            let popped = WitnessState { heap: self.heap.remove(curr), ..self };
            proof {
                lemma_remove_len(self.heap, curr);
                lemma_pop(self, curr);
            }
            if label_settled(self.labels, curr.node_id as int) {
                popped.run(graph, target, weight_limit, settled_limit)
            } else {
                let (relaxed, found) = popped.relax_from(
                    graph.out_arcs[curr.node_id as int],
                    0,
                    curr.weight,
                    target,
                    weight_limit,
                );
                let settled = relaxed.settle(curr.node_id);
                proof {
                    lemma_relax_from(
                        popped,
                        graph.out_arcs[curr.node_id as int],
                        0,
                        curr.weight,
                        target,
                        weight_limit,
                    );
                    lemma_total_weight_update(
                        relaxed.labels,
                        curr.node_id as int,
                        Label { settled: true, ..relaxed.labels[curr.node_id as int].unwrap() },
                    );
                }
                if found || curr.node_id == target {
                    settled
                } else {
                    settled.run(graph, target, weight_limit, settled_limit)
                }
            }
        }
    }

    /// The upper bound for the weight of a path from the start to `target` that the
    /// search arrives at, and the state it is in then. No search is needed for the start
    /// node itself, nor for a target that is settled or already known to lie within the
    /// weight limit.
    pub open spec fn find(
        self,
        graph: ArcLists,
        target: NodeId,
        weight_limit: Weight,
        settled_limit: usize,
    ) -> (WitnessState, Weight) {
        if target == self.start {
            (self, WEIGHT_ZERO)
        } else if self.labels[target as int].is_some() && (self.labels[target as int].unwrap().settled
            || self.labels[target as int].unwrap().weight <= weight_limit) {
            (self, self.labels[target as int].unwrap().weight)
        } else {
            let end = self.run(graph, target, weight_limit, settled_limit);
            (end, label_weight(end.labels, target as int))
        }
    }
}

/// Taking an item out of the queue keeps the state in order.
pub proof fn lemma_pop(state: WitnessState, item: HeapItem)
    requires
        state.wf(),
    ensures
        (WitnessState { heap: state.heap.remove(item), ..state }).wf(),
{
    broadcast use vstd::multiset::group_multiset_axioms;

    let popped = WitnessState { heap: state.heap.remove(item), ..state };
    assert forall|other: HeapItem| #[trigger] popped.heap.contains(other) implies other.node_id
        < popped.labels.len() && popped.labels[other.node_id as int].is_some() by {
        assert(state.heap.contains(other));
    }
}

/// Following arcs keeps the state in order, takes no label away, makes no weight
/// larger, and whenever it leaves the weights as they are it leaves the queue as it is.
pub proof fn lemma_relax_from(
    state: WitnessState,
    arcs: Seq<Arc>,
    k: int,
    weight: Weight,
    target: NodeId,
    weight_limit: Weight,
)
    requires
        state.wf(),
        0 <= k <= arcs.len(),
        forall|i: int| 0 <= i < arcs.len() ==> (#[trigger] arcs[i]).adj_node < state.labels.len(),
    ensures
        ({
            let (last, found) = state.relax_from(arcs, k, weight, target, weight_limit);
            &&& last.wf()
            &&& last.labels.len() == state.labels.len()
            &&& last.start == state.start
            &&& last.avoid == state.avoid
            &&& last.settled_nodes == state.settled_nodes
            &&& total_weight(last.labels) <= total_weight(state.labels)
            &&& total_weight(last.labels) == total_weight(state.labels) ==> last.heap == state.heap
            &&& last.heap.len() >= state.heap.len()
            &&& forall|x: int|
                0 <= x < state.labels.len() ==> label_weight(last.labels, x) <= label_weight(
                    state.labels,
                    x,
                )
            &&& forall|x: int|
                0 <= x < state.labels.len() && state.labels[x].is_some()
                    ==> #[trigger] last.labels[x].is_some()
            &&& found ==> label_weight(last.labels, target as int) <= weight_limit && target
                < state.labels.len()
        }),
    decreases arcs.len() - k,
{
    broadcast use vstd::multiset::group_multiset_axioms;

    if k < arcs.len() {
        let arc = arcs[k];
        let (next, found) = state.relax_arc(arc, weight, target, weight_limit);
        if next != state {
            let label = Label {
                settled: false,
                weight: (weight + arc.weight) as usize,
                parent: INVALID_NODE,
                inc_edge: INVALID_EDGE,
            };
            lemma_total_weight_update(state.labels, arc.adj_node as int, label);
            assert forall|item: HeapItem| #[trigger] next.heap.contains(item) implies item.node_id
                < next.labels.len() && next.labels[item.node_id as int].is_some() by {
                if item != (HeapItem { weight: label.weight, node_id: arc.adj_node }) {
                    assert(state.heap.contains(item));
                }
            }
        }
        lemma_relax_from(next, arcs, k + 1, weight, target, weight_limit);
    }
}

/// Marking a node as settled keeps the state in order and all weights as they are.
pub proof fn lemma_settle(state: WitnessState, node: NodeId)
    requires
        state.wf(),
        node < state.labels.len(),
        state.labels[node as int].is_some(),
    ensures
        state.settle(node).wf(),
        state.settle(node).labels.len() == state.labels.len(),
        total_weight(state.settle(node).labels) == total_weight(state.labels),
        forall|x: int|
            0 <= x < state.labels.len() ==> label_weight(state.settle(node).labels, x)
                == label_weight(state.labels, x),
{
    let settled = state.settle(node);
    lemma_total_weight_update(
        state.labels,
        node as int,
        Label { settled: true, ..state.labels[node as int].unwrap() },
    );
    assert forall|item: HeapItem| #[trigger] settled.heap.contains(item) implies item.node_id
        < settled.labels.len() && settled.labels[item.node_id as int].is_some() by {
        assert(state.heap.contains(item));
    }
}

/// A search never makes the weight it holds for a node larger.
pub proof fn lemma_run_weights(
    state: WitnessState,
    graph: ArcLists,
    target: NodeId,
    weight_limit: Weight,
    settled_limit: usize,
)
    requires
        state.fits(graph),
    ensures
        state.run(graph, target, weight_limit, settled_limit).fits(graph),
        forall|x: int|
            0 <= x < state.labels.len() ==> label_weight(
                state.run(graph, target, weight_limit, settled_limit).labels,
                x,
            ) <= label_weight(state.labels, x),
    decreases total_weight(state.labels), state.heap.len(),
{
    let curr = min_item(state.heap);
    if state.heap.len() == 0 || state.settled_nodes >= settled_limit || !state.heap.contains(curr)
        || curr.weight > weight_limit {
    } else {
        let popped = WitnessState { heap: state.heap.remove(curr), ..state };
        lemma_remove_len(state.heap, curr);
        lemma_pop(state, curr);
        if label_settled(state.labels, curr.node_id as int) {
            lemma_run_weights(popped, graph, target, weight_limit, settled_limit);
        } else {
            let arcs = graph.out_arcs[curr.node_id as int];
            lemma_relax_from(popped, arcs, 0, curr.weight, target, weight_limit);
            let (relaxed, found) = popped.relax_from(arcs, 0, curr.weight, target, weight_limit);
            lemma_settle(relaxed, curr.node_id);
            let settled = relaxed.settle(curr.node_id);
            if found || curr.node_id == target {
            } else {
                lemma_run_weights(settled, graph, target, weight_limit, settled_limit);
            }
        }
    }
}

/// A search that may settle more nodes arrives at a weight for the target that is not
/// larger.
pub proof fn lemma_run_more_settled(
    state: WitnessState,
    graph: ArcLists,
    target: NodeId,
    weight_limit: Weight,
    fewer: usize,
    more: usize,
)
    requires
        state.fits(graph),
        target < state.labels.len(),
        fewer <= more,
    ensures
        label_weight(state.run(graph, target, weight_limit, more).labels, target as int)
            <= label_weight(state.run(graph, target, weight_limit, fewer).labels, target as int),
    decreases total_weight(state.labels), state.heap.len(),
{
    let curr = min_item(state.heap);
    if state.heap.len() == 0 || !state.heap.contains(curr) || curr.weight > weight_limit {
    } else if state.settled_nodes >= fewer {
        lemma_run_weights(state, graph, target, weight_limit, more);
    } else {
        let popped = WitnessState { heap: state.heap.remove(curr), ..state };
        lemma_remove_len(state.heap, curr);
        lemma_pop(state, curr);
        if label_settled(state.labels, curr.node_id as int) {
            lemma_run_more_settled(popped, graph, target, weight_limit, fewer, more);
        } else {
            let arcs = graph.out_arcs[curr.node_id as int];
            lemma_relax_from(popped, arcs, 0, curr.weight, target, weight_limit);
            let (relaxed, found) = popped.relax_from(arcs, 0, curr.weight, target, weight_limit);
            lemma_settle(relaxed, curr.node_id);
            let settled = relaxed.settle(curr.node_id);
            if found || curr.node_id == target {
            } else {
                lemma_run_more_settled(settled, graph, target, weight_limit, fewer, more);
            }
        }
    }
}

/// The weight limit has no part in what following arcs does to the state. It only
/// decides whether the target counts as reached: what counts within a limit counts
/// within every larger limit.
pub proof fn lemma_relax_limits(
    state: WitnessState,
    arcs: Seq<Arc>,
    k: int,
    weight: Weight,
    target: NodeId,
    smaller: Weight,
    larger: Weight,
)
    requires
        smaller <= larger,
    ensures
        state.relax_from(arcs, k, weight, target, smaller).0 == state.relax_from(
            arcs,
            k,
            weight,
            target,
            larger,
        ).0,
        state.relax_from(arcs, k, weight, target, smaller).1 ==> state.relax_from(
            arcs,
            k,
            weight,
            target,
            larger,
        ).1,
    decreases arcs.len() - k,
{
    if 0 <= k < arcs.len() {
        let next = state.relax_arc(arcs[k], weight, target, smaller).0;
        assert(next == state.relax_arc(arcs[k], weight, target, larger).0);
        lemma_relax_limits(next, arcs, k + 1, weight, target, smaller, larger);
    }
}

/// A search with a larger weight limit arrives at a weight for the target that is not
/// larger, or that lies within its own limit.
pub proof fn lemma_run_wider(
    state: WitnessState,
    graph: ArcLists,
    target: NodeId,
    smaller: Weight,
    larger: Weight,
    settled_limit: usize,
)
    requires
        state.fits(graph),
        target < state.labels.len(),
        smaller <= larger,
    ensures
        ({
            let with_smaller = label_weight(
                state.run(graph, target, smaller, settled_limit).labels,
                target as int,
            );
            let with_larger = label_weight(
                state.run(graph, target, larger, settled_limit).labels,
                target as int,
            );
            with_larger <= with_smaller || with_larger <= larger
        }),
    decreases total_weight(state.labels), state.heap.len(),
{
    let curr = min_item(state.heap);
    if state.heap.len() == 0 || state.settled_nodes >= settled_limit || !state.heap.contains(curr)
        || curr.weight > larger {
    } else if curr.weight > smaller {
        lemma_run_weights(state, graph, target, larger, settled_limit);
    } else {
        let popped = WitnessState { heap: state.heap.remove(curr), ..state };
        lemma_remove_len(state.heap, curr);
        lemma_pop(state, curr);
        if label_settled(state.labels, curr.node_id as int) {
            lemma_run_wider(popped, graph, target, smaller, larger, settled_limit);
        } else {
            let arcs = graph.out_arcs[curr.node_id as int];
            lemma_relax_limits(popped, arcs, 0, curr.weight, target, smaller, larger);
            lemma_relax_from(popped, arcs, 0, curr.weight, target, larger);
            let (relaxed, found_larger) = popped.relax_from(arcs, 0, curr.weight, target, larger);
            let found_smaller = popped.relax_from(arcs, 0, curr.weight, target, smaller).1;
            lemma_settle(relaxed, curr.node_id);
            let settled = relaxed.settle(curr.node_id);
            if curr.node_id == target || found_smaller {
            } else if found_larger {
                lemma_run_weights(settled, graph, target, smaller, settled_limit);
            } else {
                lemma_run_wider(settled, graph, target, smaller, larger, settled_limit);
            }
        }
    }
}

/// The bound that a witness search returns does not grow when the search may settle
/// more nodes.
pub proof fn lemma_find_more_settled(
    state: WitnessState,
    graph: ArcLists,
    target: NodeId,
    weight_limit: Weight,
    fewer: usize,
    more: usize,
)
    requires
        state.fits(graph),
        target < state.labels.len(),
        fewer <= more,
    ensures
        state.find(graph, target, weight_limit, more).1 <= state.find(
            graph,
            target,
            weight_limit,
            fewer,
        ).1,
{
    lemma_run_more_settled(state, graph, target, weight_limit, fewer, more);
}

/// The bound that a witness search returns for a larger weight limit is not larger
/// than the bound for a smaller one, or it lies within the larger limit. It can be
/// larger only where the search with the larger limit has stopped early, at a path
/// that is good enough for that limit.
pub proof fn lemma_find_wider(
    state: WitnessState,
    graph: ArcLists,
    target: NodeId,
    smaller: Weight,
    larger: Weight,
    settled_limit: usize,
)
    requires
        state.fits(graph),
        target < state.labels.len(),
        smaller <= larger,
    ensures
        state.find(graph, target, larger, settled_limit).1 <= state.find(
            graph,
            target,
            smaller,
            settled_limit,
        ).1 || state.find(graph, target, larger, settled_limit).1 <= larger,
{
    lemma_run_wider(state, graph, target, smaller, larger, settled_limit);
    if target != state.start && state.labels[target as int].is_some() {
        let label = state.labels[target as int].unwrap();
        if !label.settled && label.weight > smaller && label.weight <= larger {
        } else if !label.settled && label.weight > larger {
        }
    }
}

/// A bounded search for the lightest path from a start node to other nodes that avoids
/// one node. It is used to find out whether the path through a node that is about to be
/// contracted can be replaced by another path, a witness.
pub struct WitnessSearch {
    num_nodes: usize,
    labels: Labels,
    heap: MinHeap,
    start_node: NodeId,
    avoid_node: NodeId,
    settled_nodes: usize,
}

impl View for WitnessSearch {
    type V = WitnessState;

    closed spec fn view(&self) -> WitnessState {
        WitnessState {
            labels: self.labels@,
            heap: self.heap@,
            start: self.start_node,
            avoid: self.avoid_node,
            settled_nodes: self.settled_nodes,
        }
    }
}

impl WitnessSearch {
    pub closed spec fn wf(&self) -> bool {
        &&& self.labels.wf()
        &&& self.heap.wf()
        &&& self.labels@.len() == self.num_nodes
        &&& self@.wf()
    }

    /// A search for graphs of `num_nodes` nodes. It has to be started with `init`.
    pub fn new(num_nodes: usize) -> (search: Self)
        ensures
            search.wf(),
            search@ == WitnessState::fresh(num_nodes as nat),
    {
        broadcast use vstd::multiset::group_multiset_axioms;

        WitnessSearch {
            num_nodes,
            labels: Labels::new(num_nodes),
            heap: MinHeap::new(),
            start_node: INVALID_NODE,
            avoid_node: INVALID_NODE,
            settled_nodes: 0,
        }
    }

    /// Starts a new search at `start` that avoids `avoid_node`. What was found before is
    /// forgotten.
    pub fn init(&mut self, start: NodeId, avoid_node: NodeId)
        requires
            old(self).wf(),
            start < old(self)@.labels.len(),
            start != avoid_node,
        ensures
            final(self).wf(),
            final(self)@ == WitnessState::init(old(self)@.labels.len(), start, avoid_node),
    {
        broadcast use vstd::multiset::group_multiset_axioms;

        self.start_node = start;
        self.avoid_node = avoid_node;
        self.heap.clear();
        self.labels.reset();
        self.update_node(start, 0);
        self.heap.push(HeapItem::new(0, start));
        self.settled_nodes = 0;
        assert(self@.heap =~= Multiset::singleton(HeapItem { weight: 0, node_id: start }));
    }

    /// The number of nodes settled since the search was started.
    pub fn get_settled_nodes(&self) -> (n: usize)
        ensures
            n == self@.settled_nodes,
    {
        self.settled_nodes
    }

    /// Returns an upper bound for the weight of the lightest path from the start node to
    /// `target` that avoids the avoided node, `WEIGHT_MAX` where the target was not
    /// reached. The search goes on from where the last call left it.
    pub fn find_max_weight(
        &mut self,
        graph: &PreparationGraph,
        target: NodeId,
        weight_limit: Weight,
        settled_nodes_limit: usize,
    ) -> (weight: Weight)
        requires
            old(self).wf(),
            graph.wf(),
            graph@.wf(),
            graph@.num_nodes() == old(self)@.labels.len(),
            old(self)@.start != INVALID_NODE,
            old(self)@.start != old(self)@.avoid,
            target != old(self)@.avoid,
            target < old(self)@.labels.len(),
        ensures
            final(self).wf(),
            (final(self)@, weight) == old(self)@.find(
                graph@,
                target,
                weight_limit,
                settled_nodes_limit,
            ),
            final(self)@.labels.len() == old(self)@.labels.len(),
            final(self)@.start == old(self)@.start,
            final(self)@.avoid == old(self)@.avoid,
    {
        if target == self.start_node {
            return WEIGHT_ZERO;
        }
        if self.labels.is_valid(target) {
            let label = self.labels.get(target);
            if label.settled || label.weight <= weight_limit {
                return label.weight;
            }
        }
        loop
            invariant_except_break
                self@.run(graph@, target, weight_limit, settled_nodes_limit) == old(self)@.run(
                    graph@,
                    target,
                    weight_limit,
                    settled_nodes_limit,
                ),
            invariant
                self.wf(),
                graph.wf(),
                graph@.wf(),
                graph@.num_nodes() == self@.labels.len(),
                self@.labels.len() == old(self)@.labels.len(),
                self@.start == old(self)@.start,
                self@.avoid == old(self)@.avoid,
                target < self@.labels.len(),
            ensures
                self@ == old(self)@.run(graph@, target, weight_limit, settled_nodes_limit),
            decreases total_weight(self@.labels), self@.heap.len(),
        {
            if self.heap.is_empty() {
                break;
            }
            if self.settled_nodes >= settled_nodes_limit {
                break;
            }
            let curr = self.heap.peek().unwrap();
            if curr.weight > weight_limit {
                break;
            }
            let ghost before = self@;
            self.heap.pop();
            let ghost popped = self@;
            proof {
                lemma_remove_len(before.heap, curr);
                lemma_pop(before, curr);
                assert(before.heap.contains(curr));
            }
            if self.is_settled(curr.node_id) {
                continue;
            }
            let arcs = graph.get_out_edges(curr.node_id);
            let mut found_target = false;
            let mut i: usize = 0;
            while i < arcs.len()
                invariant
                    i <= arcs@.len(),
                    self.wf(),
                    graph@.wf(),
                    graph@.num_nodes() == self@.labels.len(),
                    curr.node_id < graph@.num_nodes(),
                    arcs@ == graph@.out_arcs[curr.node_id as int],
                    self@.start == popped.start,
                    self@.avoid == popped.avoid,
                    self@.settled_nodes == popped.settled_nodes,
                    ({
                        let (last, found_later) = self@.relax_from(
                            arcs@,
                            i as int,
                            curr.weight,
                            target,
                            weight_limit,
                        );
                        (last, found_target || found_later)
                    }) == popped.relax_from(arcs@, 0, curr.weight, target, weight_limit),
                decreases arcs@.len() - i,
            {
                let arc = arcs[i];
                let ghost here = self@;
                if arc.adj_node != self.avoid_node && arc.weight < WEIGHT_MAX - curr.weight {
                    let weight = curr.weight + arc.weight;
                    if weight < self.get_current_weight(arc.adj_node) {
                        self.update_node(arc.adj_node, weight);
                        self.heap.push(HeapItem::new(weight, arc.adj_node));
                        if arc.adj_node == target && weight <= weight_limit {
                            found_target = true;
                        }
                    }
                }
                proof {
                    assert(self@ == here.relax_arc(arc, curr.weight, target, weight_limit).0);
                    lemma_relax_from(here, arcs@, i as int, curr.weight, target, weight_limit);
                    lemma_relax_from(here, arcs@, i + 1, curr.weight, target, weight_limit);
                    assert(self@.wf()) by {
                        broadcast use vstd::multiset::group_multiset_axioms;

                        assert forall|item: HeapItem| #[trigger] self@.heap.contains(item) implies item.node_id
                            < self@.labels.len() && self@.labels[item.node_id as int].is_some() by {
                            if !here.heap.contains(item) {
                            }
                        }
                    }
                }
                i += 1;
            }
            proof {
                lemma_relax_from(popped, arcs@, 0, curr.weight, target, weight_limit);
                let relaxed = self@;
                lemma_total_weight_update(
                    relaxed.labels,
                    curr.node_id as int,
                    Label { settled: true, ..relaxed.labels[curr.node_id as int].unwrap() },
                );
            }
            let ghost relaxed = self@;
            self.labels.settle(curr.node_id);
            self.settled_nodes += 1;
            proof {
                assert(self@ == relaxed.settle(curr.node_id));
                assert(self@.wf());
            }
            if found_target || curr.node_id == target {
                break;
            }
        }
        self.get_current_weight(target)
    }

    fn update_node(&mut self, node: NodeId, weight: Weight)
        requires
            old(self).labels.wf(),
            node < old(self).labels@.len(),
        ensures
            final(self).labels.wf(),
            final(self).labels@ == old(self).labels@.update(
                node as int,
                Some(
                    Label { settled: false, weight, parent: INVALID_NODE, inc_edge: INVALID_EDGE },
                ),
            ),
            final(self).heap == old(self).heap,
            final(self).num_nodes == old(self).num_nodes,
            final(self).start_node == old(self).start_node,
            final(self).avoid_node == old(self).avoid_node,
            final(self).settled_nodes == old(self).settled_nodes,
    {
        self.labels.update(node, weight, INVALID_NODE, INVALID_EDGE);
    }

    fn is_settled(&self, node: NodeId) -> (settled: bool)
        requires
            self.labels.wf(),
            node < self.labels@.len(),
        ensures
            settled == label_settled(self.labels@, node as int),
    {
        self.labels.is_settled(node)
    }

    fn get_current_weight(&self, node: NodeId) -> (weight: Weight)
        requires
            self.labels.wf(),
            node < self.labels@.len(),
        ensures
            weight == label_weight(self.labels@, node as int),
    {
        self.labels.weight(node)
    }
}

} // verus!
