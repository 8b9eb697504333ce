use vstd::multiset::Multiset;
use vstd::prelude::*;

use crate::constants::NodeId;
use crate::constants::Weight;
use crate::constants::INVALID_EDGE;
use crate::constants::INVALID_NODE;
use crate::constants::WEIGHT_MAX;
use crate::constants::WEIGHT_ZERO;
use crate::heap_item::HeapItem;
use crate::labels::label_settled;
use crate::labels::label_weight;
use crate::labels::lemma_total_weight_update;
use crate::labels::no_labels;
use crate::labels::total_weight;
use crate::labels::Label;
use crate::labels::Labels;
use crate::min_heap::lemma_remove_len;
use crate::min_heap::min_item;
use crate::min_heap::MinHeap;
use crate::preparation_graph::Arc;
use crate::preparation_graph::ArcLists;
use crate::preparation_graph::PreparationGraph;
use crate::shortest_path::ShortestPath;

verus! {

/// Every arc has a weight of at least one.
pub open spec fn positive(graph: ArcLists) -> bool {
    forall|u: int, i: int|
        0 <= u < graph.out_arcs.len() && 0 <= i < graph.out_arcs[u].len() ==> (
        #[trigger] graph.out_arcs[u][i]).weight >= 1
}

/// The state of a search: the labels of the nodes reached so far, the queue of the
/// nodes to visit, the node that is avoided, the weight and the number of nodes beyond
/// which the search does not go, and the node that the labels belong to.
pub struct SearchState {
    pub labels: Seq<Option<Label>>,
    pub heap: Multiset<HeapItem>,
    pub avoid: NodeId,
    pub max_weight: Weight,
    pub max_nodes: usize,
    pub start: NodeId,
}

impl SearchState {
    /// Every node in the queue has a label that is not heavier than its entry in the
    /// queue, and every label that has a parent is heavier than the label of its parent.
    pub open spec fn wf(self) -> bool {
        &&& forall|item: HeapItem| #[trigger]
            self.heap.contains(item) ==> item.node_id < self.labels.len()
                && self.labels[item.node_id as int].is_some() && label_weight(
                self.labels,
                item.node_id as int,
            ) <= item.weight
        &&& forall|x: int|
            0 <= x < self.labels.len() && (#[trigger] self.labels[x]).is_some()
                && self.labels[x].unwrap().parent != INVALID_NODE ==> {
                let label = self.labels[x].unwrap();
                &&& label.parent < self.labels.len()
                &&& self.labels[label.parent as int].is_some()
                &&& label_weight(self.labels, label.parent as int) < label.weight
            }
    }

    /// The state with a search begun at `start`.
    pub open spec fn begin(self, start: NodeId) -> SearchState {
        SearchState {
            labels: no_labels(self.labels.len()).update(
                start as int,
                Some(
                    Label {
                        settled: false,
                        weight: 0,
                        parent: INVALID_NODE,
                        inc_edge: INVALID_EDGE,
                    },
                ),
            ),
            heap: Multiset::singleton(HeapItem { weight: 0, node_id: start }),
            ..self
        }
    }

    /// Follows one arc out of the node `curr`.
    pub open spec fn relax_arc(self, arc: Arc, curr: HeapItem) -> SearchState {
        let reached = curr.weight + arc.weight;
        if arc.adj_node != self.avoid && reached < label_weight(self.labels, arc.adj_node as int) {
            SearchState {
                labels: self.labels.update(
                    arc.adj_node as int,
                    Some(
                        Label {
                            settled: false,
                            weight: reached as usize,
                            parent: curr.node_id,
                            inc_edge: INVALID_EDGE,
                        },
                    ),
                ),
                heap: self.heap.insert(HeapItem { weight: reached as usize, node_id: arc.adj_node }),
                ..self
            }
        } else {
            self
        }
    }

    /// Follows the arcs from position `k` on.
    pub open spec fn relax_from(self, arcs: Seq<Arc>, k: int, curr: HeapItem) -> SearchState
        decreases arcs.len() - k,
    {
        if 0 <= k < arcs.len() {
            self.relax_arc(arcs[k], curr).relax_from(arcs, k + 1, curr)
        } else {
            self
        }
    }

    /// The state with `node` marked as settled.
    pub open spec fn settle(self, node: NodeId) -> SearchState {
        SearchState {
            labels: self.labels.update(
                node as int,
                Some(Label { settled: true, ..self.labels[node as int].unwrap() }),
            ),
            ..self
        }
    }

    /// Whether the search can go on in this graph.
    pub open spec fn fits(self, graph: ArcLists) -> bool {
        &&& self.wf()
        &&& graph.wf()
        &&& positive(graph)
        &&& graph.num_nodes() == self.labels.len()
    }

    /// Runs the search until the queue is empty, more nodes were taken from the queue
    /// than allowed, `end` was settled, or a node at or beyond the weight limit was
    /// settled. `popped` counts the nodes taken from the queue.
    pub open spec fn run(self, graph: ArcLists, end: NodeId, popped: usize) -> SearchState
        decreases total_weight(self.labels), self.heap.len(),
        when self.fits(graph)
    {
        let curr = min_item(self.heap);
        if self.heap.len() == 0 || !self.heap.contains(curr) {
            self
        } else {
            let taken = SearchState { heap: self.heap.remove(curr), ..self };
            proof {
                lemma_remove_len(self.heap, curr);
                lemma_take(self, curr);
            }
            if popped >= self.max_nodes {
                taken
            } else if label_settled(self.labels, curr.node_id as int) {
                taken.run(graph, end, (popped + 1) as usize)
            } else {
                let relaxed = taken.relax_from(graph.out_arcs[curr.node_id as int], 0, curr);
                let settled = relaxed.settle(curr.node_id);
                proof {
                    lemma_relax_from(taken, graph.out_arcs[curr.node_id as int], 0, curr);
                    lemma_total_weight_update(
                        relaxed.labels,
                        curr.node_id as int,
                        Label { settled: true, ..relaxed.labels[curr.node_id as int].unwrap() },
                    );
                }
                if curr.node_id == end || curr.weight >= self.max_weight {
                    settled
                } else {
                    settled.run(graph, end, (popped + 1) as usize)
                }
            }
        }
    }

    /// The state after the search for the path from `start` to `end`. Nothing is done
    /// for a path from a node to itself. The labels of the last search are used again
    /// where it began at the same node, and nothing is done where it has settled `end`.
    pub open spec fn search(self, graph: ArcLists, start: NodeId, end: NodeId) -> SearchState {
        if start == end {
            self
        } else {
            let begun = if start != self.start {
                self.begin(start)
            } else {
                self
            };
            if label_settled(begun.labels, end as int) {
                begun
            } else {
                (SearchState { start, ..begun }).run(graph, end, 0)
            }
        }
    }

    /// The weight that the search has found for `end`: infinite where `end` was not
    /// reached, or was reached beyond the weight limit.
    pub open spec fn final_weight(self, end: NodeId) -> Weight {
        if self.labels[end as int].is_none() || self.labels[end as int].unwrap().weight
            > self.max_weight {
            WEIGHT_MAX
        } else {
            self.labels[end as int].unwrap().weight
        }
    }

    /// The nodes from `node` back to the node whose label has no parent, that node left
    /// out.
    pub open spec fn way_back(self, node: NodeId) -> Seq<NodeId>
        decreases label_weight(self.labels, node as int),
    {
        if node < self.labels.len() && self.labels[node as int].is_some()
            && self.labels[node as int].unwrap().parent != INVALID_NODE && label_weight(
            self.labels,
            self.labels[node as int].unwrap().parent as int,
        ) < label_weight(self.labels, node as int) {
            seq![node] + self.way_back(self.labels[node as int].unwrap().parent)
        } else {
            Seq::empty()
        }
    }

    /// The path that the search has found from `start` to `end`, where it has found one:
    /// weight and nodes.
    pub open spec fn found_path(self, start: NodeId, end: NodeId) -> Option<(Weight, Seq<NodeId>)> {
        if start == end {
            Some((WEIGHT_ZERO, seq![start]))
        } else if self.final_weight(end) == WEIGHT_MAX {
            None
        } else {
            Some((self.final_weight(end), self.way_back(end).push(start).reverse()))
        }
    }
}

/// Taking an item out of the queue keeps the state in order.
pub proof fn lemma_take(state: SearchState, item: HeapItem)
    requires
        state.wf(),
    ensures
        (SearchState { heap: state.heap.remove(item), ..state }).wf(),
{
    broadcast use vstd::multiset::group_multiset_axioms;

    let taken = SearchState { heap: state.heap.remove(item), ..state };
    assert forall|other: HeapItem| #[trigger] taken.heap.contains(other) implies other.node_id
        < taken.labels.len() && taken.labels[other.node_id as int].is_some() && label_weight(
        taken.labels,
        other.node_id as int,
    ) <= other.weight by {
        assert(state.heap.contains(other));
    }
}

/// Following an arc of positive weight keeps the state in order, takes no label away,
/// makes no weight larger, and if it leaves the weights as they are it leaves the
/// queue as it is.
pub proof fn lemma_relax_arc(state: SearchState, arc: Arc, curr: HeapItem)
    requires
        state.wf(),
        arc.adj_node < state.labels.len(),
        arc.weight >= 1,
        curr.node_id < state.labels.len(),
        state.labels[curr.node_id as int].is_some(),
        label_weight(state.labels, curr.node_id as int) <= curr.weight,
    ensures
        ({
            let next = state.relax_arc(arc, curr);
            &&& next.wf()
            &&& next.labels.len() == state.labels.len()
            &&& next.avoid == state.avoid
            &&& next.max_weight == state.max_weight
            &&& next.max_nodes == state.max_nodes
            &&& next.start == state.start
            &&& total_weight(next.labels) <= total_weight(state.labels)
            &&& total_weight(next.labels) == total_weight(state.labels) ==> next.heap == state.heap
            &&& forall|x: int|
                0 <= x < state.labels.len() ==> label_weight(next.labels, x) <= label_weight(
                    state.labels,
                    x,
                )
            &&& forall|x: int|
                0 <= x < state.labels.len() && state.labels[x].is_some()
                    ==> #[trigger] next.labels[x].is_some()
        }),
{
    broadcast use vstd::multiset::group_multiset_axioms;

    let next = state.relax_arc(arc, curr);
    if next != state {
        let label = Label {
            settled: false,
            weight: (curr.weight + arc.weight) as usize,
            parent: curr.node_id,
            inc_edge: INVALID_EDGE,
        };
        lemma_total_weight_update(state.labels, arc.adj_node as int, label);
        assert forall|item: HeapItem| #[trigger] next.heap.contains(item) implies item.node_id
            < next.labels.len() && next.labels[item.node_id as int].is_some() && label_weight(
            next.labels,
            item.node_id as int,
        ) <= item.weight by {
            if item != (HeapItem { weight: label.weight, node_id: arc.adj_node }) {
                assert(state.heap.contains(item));
            }
        }
        assert forall|x: int|
            0 <= x < next.labels.len() && (#[trigger] next.labels[x]).is_some()
                && next.labels[x].unwrap().parent != INVALID_NODE implies {
            let l = next.labels[x].unwrap();
            &&& l.parent < next.labels.len()
            &&& next.labels[l.parent as int].is_some()
            &&& label_weight(next.labels, l.parent as int) < l.weight
        } by {
            if x != arc.adj_node {
                assert(state.labels[x].is_some());
            }
        }
    }
}

/// Following arcs of positive weight keeps the state in order.
pub proof fn lemma_relax_from(state: SearchState, arcs: Seq<Arc>, k: int, curr: HeapItem)
    requires
        state.wf(),
        0 <= k <= arcs.len(),
        forall|i: int|
            0 <= i < arcs.len() ==> (#[trigger] arcs[i]).adj_node < state.labels.len() && arcs[i].weight
                >= 1,
        curr.node_id < state.labels.len(),
        state.labels[curr.node_id as int].is_some(),
        label_weight(state.labels, curr.node_id as int) <= curr.weight,
    ensures
        ({
            let last = state.relax_from(arcs, k, curr);
            &&& last.wf()
            &&& last.labels.len() == state.labels.len()
            &&& last.avoid == state.avoid
            &&& last.max_weight == state.max_weight
            &&& last.max_nodes == state.max_nodes
            &&& last.start == state.start
            &&& total_weight(last.labels) <= total_weight(state.labels)
            &&& total_weight(last.labels) == total_weight(state.labels) ==> last.heap == state.heap
            &&& forall|x: int|
                0 <= x < state.labels.len() ==> label_weight(last.labels, x) <= label_weight(
                    state.labels,
                    x,
                )
            &&& forall|x: int|
                0 <= x < state.labels.len() && state.labels[x].is_some()
                    ==> #[trigger] last.labels[x].is_some()
        }),
    decreases arcs.len() - k,
{
    if k < arcs.len() {
        lemma_relax_arc(state, arcs[k], curr);
        let next = state.relax_arc(arcs[k], curr);
        lemma_relax_from(next, arcs, k + 1, curr);
    }
}

/// Marking a node as settled keeps the state in order.
pub proof fn lemma_settle(state: SearchState, node: NodeId)
    requires
        state.wf(),
        node < state.labels.len(),
        state.labels[node as int].is_some(),
    ensures
        state.settle(node).wf(),
        total_weight(state.settle(node).labels) == total_weight(state.labels),
{
    let settled = state.settle(node);
    lemma_total_weight_update(
        state.labels,
        node as int,
        Label { settled: true, ..state.labels[node as int].unwrap() },
    );
    assert forall|x: int|
        0 <= x < settled.labels.len() && (#[trigger] settled.labels[x]).is_some()
            && settled.labels[x].unwrap().parent != INVALID_NODE implies {
        let l = settled.labels[x].unwrap();
        &&& l.parent < settled.labels.len()
        &&& settled.labels[l.parent as int].is_some()
        &&& label_weight(settled.labels, l.parent as int) < l.weight
    } by {
        assert(state.labels[x].is_some());
    }
    assert forall|item: HeapItem| #[trigger] settled.heap.contains(item) implies item.node_id
        < settled.labels.len() && settled.labels[item.node_id as int].is_some() && label_weight(
        settled.labels,
        item.node_id as int,
    ) <= item.weight by {
        assert(state.heap.contains(item));
    }
}

/// The search of Dijkstra on a preparation graph: finds the lightest path between two
/// nodes. It can avoid a node, and can be told to give up beyond a weight or a number
/// of nodes.
pub struct Dijkstra {
    num_nodes: usize,
    labels: Labels,
    heap: MinHeap,
    avoid_node: NodeId,
    max_weight: Weight,
    max_nodes: usize,
    start_node: NodeId,
}

impl View for Dijkstra {
    type V = SearchState;

    closed spec fn view(&self) -> SearchState {
        SearchState {
            labels: self.labels@,
            heap: self.heap@,
            avoid: self.avoid_node,
            max_weight: self.max_weight,
            max_nodes: self.max_nodes,
            start: self.start_node,
        }
    }
}

impl Dijkstra {
    pub closed spec fn wf(&self) -> bool {
        &&& self.labels.wf()
        &&& self.heap.wf()
        &&& self.labels@.len() == self.num_nodes
        &&& self@.wf()
    }

    pub fn new(num_nodes: usize) -> (dijkstra: Self)
        ensures
            dijkstra.wf(),
            dijkstra@ == (SearchState {
                labels: no_labels(num_nodes as nat),
                heap: Multiset::empty(),
                avoid: INVALID_NODE,
                max_weight: WEIGHT_MAX,
                max_nodes: usize::MAX,
                start: INVALID_NODE,
            }),
    {
        broadcast use vstd::multiset::group_multiset_axioms;

        Dijkstra {
            num_nodes,
            labels: Labels::new(num_nodes),
            heap: MinHeap::new(),
            avoid_node: INVALID_NODE,
            max_weight: WEIGHT_MAX,
            max_nodes: usize::MAX,
            start_node: INVALID_NODE,
        }
    }

    /// Has the searches that follow avoid `node`. The labels of the last search are
    /// not used again.
    pub fn avoid_node(&mut self, node: NodeId)
        requires
            old(self).wf(),
        ensures
            final(self).wf(),
            final(self)@ == (SearchState { avoid: node, start: INVALID_NODE, ..old(self)@ }),
    {
        self.avoid_node = node;
        self.start_node = INVALID_NODE;
    }

    /// Has the searches that follow give up beyond `weight`.
    pub fn set_max_weight(&mut self, weight: Weight)
        requires
            old(self).wf(),
        ensures
            final(self).wf(),
            final(self)@ == (SearchState { max_weight: weight, ..old(self)@ }),
    {
        self.max_weight = weight;
    }

    /// Has the searches that follow take at most `nodes` nodes from the queue.
    pub fn set_max_nodes(&mut self, nodes: usize)
        requires
            old(self).wf(),
        ensures
            final(self).wf(),
            final(self)@ == (SearchState { max_nodes: nodes, ..old(self)@ }),
    {
        self.max_nodes = nodes;
    }

    /// Calculates the lightest path from `start` to `end`.
    pub fn calc_path(&mut self, graph: &PreparationGraph, start: NodeId, end: NodeId) -> (path:
        Option<ShortestPath>)
        requires
            old(self).wf(),
            graph.wf(),
            graph@.wf(),
            positive(graph@),
            graph@.num_nodes() == old(self)@.labels.len(),
            start < graph@.num_nodes(),
            end < graph@.num_nodes(),
            start != old(self)@.avoid,
            end != old(self)@.avoid,
        ensures
            final(self).wf(),
            final(self)@ == old(self)@.search(graph@, start, end),
            final(self)@.labels.len() == old(self)@.labels.len(),
            path is None <==> final(self)@.found_path(start, end) is None,
            path matches Some(p) ==> {
                &&& p.spec_source() == start
                &&& p.spec_target() == end
                &&& p.spec_weight() == final(self)@.found_path(start, end).unwrap().0
                &&& p.spec_nodes() == final(self)@.found_path(start, end).unwrap().1
            },
    {
        self.do_calc_path(graph, start, end);
        self.build_path(start, end)
    }

    /// Calculates the weight of the lightest path from `start` to `end`.
    pub fn calc_weight(&mut self, graph: &PreparationGraph, start: NodeId, end: NodeId) -> (weight:
        Option<Weight>)
        requires
            old(self).wf(),
            graph.wf(),
            graph@.wf(),
            positive(graph@),
            graph@.num_nodes() == old(self)@.labels.len(),
            start < graph@.num_nodes(),
            end < graph@.num_nodes(),
            start != old(self)@.avoid,
            end != old(self)@.avoid,
        ensures
            final(self).wf(),
            final(self)@ == old(self)@.search(graph@, start, end),
            final(self)@.labels.len() == old(self)@.labels.len(),
            weight is None <==> final(self)@.found_path(start, end) is None,
            weight matches Some(w) ==> w == final(self)@.found_path(start, end).unwrap().0,
    {
        self.do_calc_path(graph, start, end);
        if start == end {
            return Some(WEIGHT_ZERO);
        }
        let weight = self.get_final_weight(end);
        if weight == WEIGHT_MAX {
            None
        } else {
            Some(weight)
        }
    }

    fn do_calc_path(&mut self, graph: &PreparationGraph, start: NodeId, end: NodeId)
        requires
            old(self).wf(),
            graph.wf(),
            graph@.wf(),
            positive(graph@),
            graph@.num_nodes() == old(self)@.labels.len(),
            start < graph@.num_nodes(),
            end < graph@.num_nodes(),
            start != old(self)@.avoid,
            end != old(self)@.avoid,
        ensures
            final(self).wf(),
            final(self)@ == old(self)@.search(graph@, start, end),
            final(self)@.labels.len() == old(self)@.labels.len(),
    {
        if start == end {
            return ;
        }
        if start != self.start_node {
            self.heap.clear();
            self.labels.reset();
            self.update_node(start, 0, INVALID_NODE);
            self.heap.push(HeapItem::new(0, start));
            proof {
                broadcast use vstd::multiset::group_multiset_axioms;

                assert(self@.heap =~= Multiset::singleton(HeapItem { weight: 0, node_id: start }));
                assert(self@ == old(self)@.begin(start));
                assert(self@.wf());
            }
        }
        if self.is_settled(end) {
            return ;
        }
        self.start_node = start;
        let ghost begun = self@;
        let mut popped: usize = 0;
        loop
            invariant_except_break
                self@.run(graph@, end, popped) == begun.run(graph@, end, 0),
            invariant
                self.wf(),
                graph.wf(),
                graph@.wf(),
                positive(graph@),
                graph@.num_nodes() == self@.labels.len(),
                self@.labels.len() == old(self)@.labels.len(),
                self@.avoid == begun.avoid,
                self@.max_weight == begun.max_weight,
                self@.max_nodes == begun.max_nodes,
                self@.start == begun.start,
            ensures
                self.wf(),
                self@ == begun.run(graph@, end, 0),
                self@.labels.len() == old(self)@.labels.len(),
            decreases total_weight(self@.labels), self@.heap.len(),
        {
            if self.heap.is_empty() {
                break;
            }
            let ghost before = self@;
            let curr = self.heap.pop().unwrap();
            let ghost taken = self@;
            proof {
                lemma_remove_len(before.heap, curr);
                lemma_take(before, curr);
                assert(before.heap.contains(curr));
            }
            if popped >= self.max_nodes {
                break;
            }
            popped += 1;
            if self.is_settled(curr.node_id) {
                continue;
            }
            let arcs = graph.get_out_edges(curr.node_id);
            let mut i: usize = 0;
            while i < arcs.len()
                invariant
                    i <= arcs@.len(),
                    self.wf(),
                    graph@.wf(),
                    positive(graph@),
                    graph@.num_nodes() == self@.labels.len(),
                    curr.node_id < graph@.num_nodes(),
                    arcs@ == graph@.out_arcs[curr.node_id as int],
                    self@.labels[curr.node_id as int].is_some(),
                    label_weight(self@.labels, curr.node_id as int) <= curr.weight,
                    self@.labels.len() == old(self)@.labels.len(),
                    self@.avoid == begun.avoid,
                    self@.max_weight == begun.max_weight,
                    self@.max_nodes == begun.max_nodes,
                    self@.start == begun.start,
                    self@.relax_from(arcs@, i as int, curr) == taken.relax_from(arcs@, 0, curr),
                decreases arcs@.len() - i,
            {
                let arc = arcs[i];
                let ghost here = self@;
                proof {
                    assert(graph@.out_arcs[curr.node_id as int][i as int].adj_node
                        < graph@.num_nodes());
                    assert(graph@.out_arcs[curr.node_id as int][i as int].weight >= 1);
                    lemma_relax_arc(here, arc, curr);
                }
                if arc.adj_node != self.avoid_node && arc.weight < WEIGHT_MAX - curr.weight {
                    let weight = curr.weight + arc.weight;
                    if weight < self.get_weight(arc.adj_node) {
                        self.update_node(arc.adj_node, weight, curr.node_id);
                        self.heap.push(HeapItem::new(weight, arc.adj_node));
                    }
                }
                proof {
                    assert(self@ == here.relax_arc(arc, curr));
                }
                i += 1;
            }
            proof {
                lemma_settle(self@, curr.node_id);
            }
            let ghost relaxed = self@;
            self.labels.settle(curr.node_id);
            proof {
                assert(self@ == relaxed.settle(curr.node_id));
                assert forall|k: int| 0 <= k < arcs@.len() implies (#[trigger] arcs@[k]).adj_node
                    < taken.labels.len() && arcs@[k].weight >= 1 by {
                    assert(graph@.out_arcs[curr.node_id as int][k].adj_node < graph@.num_nodes());
                    assert(graph@.out_arcs[curr.node_id as int][k].weight >= 1);
                }
                lemma_relax_from(taken, arcs@, 0, curr);
                lemma_total_weight_update(
                    relaxed.labels,
                    curr.node_id as int,
                    Label { settled: true, ..relaxed.labels[curr.node_id as int].unwrap() },
                );
            }
            if curr.node_id == end {
                break;
            }
            if curr.weight >= self.max_weight {
                break;
            }
        }
    }

    fn build_path(&self, start: NodeId, end: NodeId) -> (path: Option<ShortestPath>)
        requires
            self.wf(),
            start < self@.labels.len(),
            end < self@.labels.len(),
        ensures
            path is None <==> self@.found_path(start, end) is None,
            path matches Some(p) ==> {
                &&& p.spec_source() == start
                &&& p.spec_target() == end
                &&& p.spec_weight() == self@.found_path(start, end).unwrap().0
                &&& p.spec_nodes() == self@.found_path(start, end).unwrap().1
            },
    {
        if start == end {
            return Some(ShortestPath::singular(start));
        }
        let weight = self.get_final_weight(end);
        if weight == WEIGHT_MAX {
            return None;
        }
        let mut path: Vec<NodeId> = Vec::new();
        let mut node = end;
        loop
            invariant_except_break
                path@ + self@.way_back(node) == self@.way_back(end),
            invariant
                self.wf(),
                node < self@.labels.len(),
                self@.labels[node as int].is_some(),
            ensures
                path@ == self@.way_back(end),
            decreases label_weight(self@.labels, node as int),
        {
            let label = self.labels.get(node);
            if label.parent == INVALID_NODE {
                assert(path@ + Seq::<NodeId>::empty() =~= path@);
                break;
            }
            let ghost before = path@;
            path.push(node);
            proof {
                assert(self@.labels[node as int].unwrap().parent != INVALID_NODE);
                assert((path@ + self@.way_back(label.parent)) =~= (before + (seq![node]
                    + self@.way_back(label.parent))));
            }
            node = label.parent;
        }
        path.push(start);
        let path = reversed(path);
        Some(ShortestPath::new(start, end, weight, path))
    }

    fn get_final_weight(&self, end: NodeId) -> (weight: Weight)
        requires
            self.wf(),
            end < self@.labels.len(),
        ensures
            weight == self@.final_weight(end),
    {
        if !self.labels.is_valid(end) || self.labels.get(end).weight > self.max_weight {
            WEIGHT_MAX
        } else {
            self.labels.get(end).weight
        }
    }

    fn update_node(&mut self, node: NodeId, weight: Weight, parent: NodeId)
        requires
            old(self).labels.wf(),
            node < old(self).labels@.len(),
        ensures
            final(self).labels.wf(),
            final(self).labels@ == old(self).labels@.update(
                node as int,
                Some(Label { settled: false, weight, parent, inc_edge: INVALID_EDGE }),
            ),
            final(self).heap == old(self).heap,
            final(self).num_nodes == old(self).num_nodes,
            final(self).avoid_node == old(self).avoid_node,
            final(self).max_weight == old(self).max_weight,
            final(self).max_nodes == old(self).max_nodes,
            final(self).start_node == old(self).start_node,
    {
        self.labels.update(node, weight, parent, INVALID_EDGE);
    }

    fn is_settled(&self, node: NodeId) -> (settled: bool)
        requires
            self.labels.wf(),
            node < self.labels@.len(),
        ensures
            settled == label_settled(self.labels@, node as int),
    {
        self.labels.is_settled(node)
    }

    fn get_weight(&self, node: NodeId) -> (weight: Weight)
        requires
            self.labels.wf(),
            node < self.labels@.len(),
        ensures
            weight == label_weight(self.labels@, node as int),
    {
        self.labels.weight(node)
    }
}

/// The nodes in reverse order.
fn reversed(nodes: Vec<NodeId>) -> (result: Vec<NodeId>)
    ensures
        result@ == nodes@.reverse(),
{
    let mut result: Vec<NodeId> = Vec::new();
    let mut i: usize = nodes.len();
    while i > 0
        invariant
            i <= nodes@.len(),
            result@.len() == nodes@.len() - i,
            forall|k: int| 0 <= k < result@.len() ==> result@[k] == nodes@[nodes@.len() - 1 - k],
        decreases i,
    {
        i -= 1;
        result.push(nodes[i]);
    }
    assert(result@ =~= nodes@.reverse());
    result
}

} // verus!
