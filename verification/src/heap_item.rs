use std::cmp::Ordering;
use vstd::prelude::*;

use crate::constants::NodeId;
use crate::constants::Weight;

verus! {

/// An entry of a search queue: a node and the weight it was reached with.
#[derive(Eq, Copy, Clone, Debug)]
pub struct HeapItem {
    pub weight: Weight,
    pub node_id: NodeId,
}

impl HeapItem {
    pub fn new(weight: Weight, node_id: NodeId) -> (item: HeapItem)
        ensures
            item.weight == weight,
            item.node_id == node_id,
    {
        HeapItem { weight, node_id }
    }

    /// The order in which a queue hands items out: by weight, and by node id among
    /// items of equal weight.
    pub open spec fn precedes(self, other: HeapItem) -> bool {
        self.weight < other.weight || (self.weight == other.weight && self.node_id
            <= other.node_id)
    }

    /// Decides `precedes`.
    pub fn comes_before(&self, other: &HeapItem) -> (r: bool)
        ensures
            r == self.precedes(*other),
    {
        self.weight < other.weight || (self.weight == other.weight && self.node_id
            <= other.node_id)
    }
}

/// Two items are equal when their weights are.
impl PartialEq for HeapItem {
    fn eq(&self, other: &HeapItem) -> (r: bool) {
        self.weight == other.weight
    }
}

impl vstd::std_specs::cmp::PartialEqSpecImpl for HeapItem {
    open spec fn obeys_eq_spec() -> bool {
        true
    }

    open spec fn eq_spec(&self, other: &HeapItem) -> bool {
        self.weight == other.weight
    }
}

/// The smaller weight is the greater item, so that a max-heap hands out the
/// smallest weight first.
impl PartialOrd for HeapItem {
    fn partial_cmp(&self, other: &HeapItem) -> (r: Option<Ordering>) {
        if self.weight < other.weight {
            Some(Ordering::Greater)
        } else if self.weight == other.weight {
            Some(Ordering::Equal)
        } else {
            Some(Ordering::Less)
        }
    }
}

impl vstd::std_specs::cmp::PartialOrdSpecImpl for HeapItem {
    open spec fn obeys_partial_cmp_spec() -> bool {
        true
    }

    open spec fn partial_cmp_spec(&self, other: &HeapItem) -> Option<Ordering> {
        if self.weight < other.weight {
            Some(Ordering::Greater)
        } else if self.weight == other.weight {
            Some(Ordering::Equal)
        } else {
            Some(Ordering::Less)
        }
    }
}

} // verus!
