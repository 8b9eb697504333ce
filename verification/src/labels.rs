use vstd::prelude::*;

use crate::constants::EdgeId;
use crate::constants::NodeId;
use crate::constants::Weight;
use crate::constants::WEIGHT_MAX;
use crate::valid_flags::ValidFlags;

verus! {

/// What a search knows of a node it has reached.
#[derive(Clone, Copy, Debug)]
pub struct Label {
    /// Whether the node was taken from the queue and its edges were relaxed.
    pub settled: bool,
    /// The weight of the best path to the node found so far.
    pub weight: Weight,
    /// The node before this one on that path.
    pub parent: NodeId,
    /// The edge that leads from the parent to this node.
    pub inc_edge: EdgeId,
}

/// The weight a search holds for `node`: the weight of its label, infinite without one.
pub open spec fn label_weight(labels: Seq<Option<Label>>, node: int) -> Weight {
    match labels[node] {
        Some(label) => label.weight,
        None => WEIGHT_MAX,
    }
}

/// Whether `node` has a label that is marked as settled.
pub open spec fn label_settled(labels: Seq<Option<Label>>, node: int) -> bool {
    match labels[node] {
        Some(label) => label.settled,
        None => false,
    }
}

/// The sum of the weights that a search holds for all nodes. Every improvement of a
/// label makes it smaller, which is why searches terminate.
pub open spec fn total_weight(labels: Seq<Option<Label>>) -> nat
    decreases labels.len(),
{
    if labels.len() == 0 {
        0
    } else {
        total_weight(labels.drop_last()) + label_weight(labels, labels.len() - 1) as nat
    }
}

/// Replacing the label of `node` changes the total by the difference of the weights.
pub proof fn lemma_total_weight_update(labels: Seq<Option<Label>>, node: int, label: Label)
    requires
        0 <= node < labels.len(),
    ensures
        total_weight(labels.update(node, Some(label))) == total_weight(labels) - label_weight(
            labels,
            node,
        ) + label.weight,
    decreases labels.len(),
{
    let updated = labels.update(node, Some(label));
    if node == labels.len() - 1 {
        assert(updated.drop_last() =~= labels.drop_last());
    } else {
        lemma_total_weight_update(labels.drop_last(), node, label);
        assert(updated.drop_last() =~= labels.drop_last().update(node, Some(label)));
    }
}

/// No labels at all, for `n` nodes.
pub open spec fn no_labels(n: nat) -> Seq<Option<Label>> {
    Seq::new(n, |i: int| None)
}

/// The labels of one search, one slot per node, with a reset in constant time.
pub struct Labels {
    data: Vec<Label>,
    valid_flags: ValidFlags,
}

impl View for Labels {
    type V = Seq<Option<Label>>;

    /// The label of each node, `None` where the node was not reached since the last reset.
    closed spec fn view(&self) -> Seq<Option<Label>> {
        Seq::new(
            self.data@.len(),
            |i: int|
                if self.valid_flags@[i] {
                    Some(self.data@[i])
                } else {
                    None
                },
        )
    }
}

impl Labels {
    pub closed spec fn wf(&self) -> bool {
        &&& self.valid_flags.wf()
        &&& self.valid_flags@.len() == self.data@.len()
    }

    pub fn new(num_nodes: usize) -> (labels: Self)
        ensures
            labels.wf(),
            labels@ == no_labels(num_nodes as nat),
    {
        let blank = Label { settled: false, weight: WEIGHT_MAX, parent: usize::MAX, inc_edge: usize::MAX };
        let labels = Labels { data: vec![blank; num_nodes], valid_flags: ValidFlags::new(num_nodes) };
        assert(labels@ =~= no_labels(num_nodes as nat));
        labels
    }

    pub fn len(&self) -> (n: usize)
        ensures
            n == self@.len(),
    {
        self.data.len()
    }

    /// Forgets all labels.
    pub fn reset(&mut self)
        requires
            old(self).wf(),
        ensures
            final(self).wf(),
            final(self)@ == no_labels(old(self)@.len()),
    {
        self.valid_flags.invalidate_all();
        assert(self@ =~= no_labels(old(self)@.len()));
    }

    pub fn is_valid(&self, node: NodeId) -> (valid: bool)
        requires
            self.wf(),
            node < self@.len(),
        ensures
            valid == self@[node as int].is_some(),
    {
        self.valid_flags.is_valid(node)
    }

    /// Gives `node` a new, unsettled label.
    pub fn update(&mut self, node: NodeId, weight: Weight, parent: NodeId, inc_edge: EdgeId)
        requires
            old(self).wf(),
            node < old(self)@.len(),
        ensures
            final(self).wf(),
            final(self)@ == old(self)@.update(
                node as int,
                Some(Label { settled: false, weight, parent, inc_edge }),
            ),
    {
        self.valid_flags.set_valid(node);
        self.data[node] = Label { settled: false, weight, parent, inc_edge };
        assert(self@ =~= old(self)@.update(
            node as int,
            Some(Label { settled: false, weight, parent, inc_edge }),
        ));
    }

    /// Marks the label of `node` as settled.
    pub fn settle(&mut self, node: NodeId)
        requires
            old(self).wf(),
            node < old(self)@.len(),
            old(self)@[node as int].is_some(),
        ensures
            final(self).wf(),
            final(self)@ == old(self)@.update(
                node as int,
                Some(Label { settled: true, ..old(self)@[node as int].unwrap() }),
            ),
    {
        let label = self.data[node];
        self.data[node] = Label { settled: true, ..label };
        assert(self@ =~= old(self)@.update(
            node as int,
            Some(Label { settled: true, ..old(self)@[node as int].unwrap() }),
        ));
    }

    pub fn is_settled(&self, node: NodeId) -> (settled: bool)
        requires
            self.wf(),
            node < self@.len(),
        ensures
            settled == label_settled(self@, node as int),
    {
        self.valid_flags.is_valid(node) && self.data[node].settled
    }

    /// The weight held for `node`, infinite where it has no label.
    pub fn weight(&self, node: NodeId) -> (weight: Weight)
        requires
            self.wf(),
            node < self@.len(),
        ensures
            weight == label_weight(self@, node as int),
    {
        if self.valid_flags.is_valid(node) {
            self.data[node].weight
        } else {
            WEIGHT_MAX
        }
    }

    /// The label of a node that has one.
    pub fn get(&self, node: NodeId) -> (label: Label)
        requires
            self.wf(),
            node < self@.len(),
            self@[node as int].is_some(),
        ensures
            label == self@[node as int].unwrap(),
    {
        self.data[node]
    }
}

} // verus!
