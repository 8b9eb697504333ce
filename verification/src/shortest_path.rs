use vstd::prelude::*;

use crate::constants::NodeId;
use crate::constants::Weight;
use crate::constants::WEIGHT_MAX;
use crate::constants::WEIGHT_ZERO;

verus! {

/// A path between two nodes: its end points, its weight and the nodes it visits.
#[derive(Debug)]
pub struct ShortestPath {
    source: NodeId,
    target: NodeId,
    weight: Weight,
    nodes: Vec<NodeId>,
}

/// Two paths are equal when their end points and weights are. The nodes are left out:
/// there can be several shortest paths between two nodes.
impl PartialEq for ShortestPath {
    fn eq(&self, other: &ShortestPath) -> (r: bool) {
        self.source == other.source && self.target == other.target && self.weight
            == other.weight
    }
}

impl vstd::std_specs::cmp::PartialEqSpecImpl for ShortestPath {
    open spec fn obeys_eq_spec() -> bool {
        true
    }

    open spec fn eq_spec(&self, other: &ShortestPath) -> bool {
        self.spec_source() == other.spec_source() && self.spec_target() == other.spec_target()
            && self.spec_weight() == other.spec_weight()
    }
}

impl ShortestPath {
    pub closed spec fn spec_source(&self) -> NodeId {
        self.source
    }

    pub closed spec fn spec_target(&self) -> NodeId {
        self.target
    }

    pub closed spec fn spec_weight(&self) -> Weight {
        self.weight
    }

    pub closed spec fn spec_nodes(&self) -> Seq<NodeId> {
        self.nodes@
    }

    pub fn new(source: NodeId, target: NodeId, weight: Weight, nodes: Vec<NodeId>) -> (path: Self)
        ensures
            path.spec_source() == source,
            path.spec_target() == target,
            path.spec_weight() == weight,
            path.spec_nodes() == nodes@,
    {
        ShortestPath { source, target, weight, nodes }
    }

    /// The path from a node to itself.
    pub fn singular(node: NodeId) -> (path: Self)
        ensures
            path.spec_source() == node,
            path.spec_target() == node,
            path.spec_weight() == WEIGHT_ZERO,
            path.spec_nodes() == seq![node],
    {
        ShortestPath { source: node, target: node, weight: WEIGHT_ZERO, nodes: vec![node] }
    }

    /// The value that stands for "there is no path".
    pub fn none(source: NodeId, target: NodeId) -> (path: Self)
        ensures
            path.spec_source() == source,
            path.spec_target() == target,
            path.spec_weight() == WEIGHT_MAX,
            path.spec_nodes() == Seq::<NodeId>::empty(),
    {
        ShortestPath { source, target, weight: WEIGHT_MAX, nodes: vec![] }
    }

    pub fn get_source(&self) -> (source: NodeId)
        ensures
            source == self.spec_source(),
    {
        self.source
    }

    pub fn get_target(&self) -> (target: NodeId)
        ensures
            target == self.spec_target(),
    {
        self.target
    }

    pub fn get_weight(&self) -> (weight: Weight)
        ensures
            weight == self.spec_weight(),
    {
        self.weight
    }

    pub fn get_nodes(&self) -> (nodes: &Vec<NodeId>)
        ensures
            nodes@ == self.spec_nodes(),
    {
        &self.nodes
    }

    pub fn is_found(&self) -> (found: bool)
        ensures
            found == (self.spec_weight() != WEIGHT_MAX),
    {
        self.weight != WEIGHT_MAX
    }
}

} // verus!
