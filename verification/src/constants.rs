use vstd::prelude::*;

verus! {

/// Index of a node.
pub type NodeId = usize;

/// Index of an edge of a prepared graph.
pub type EdgeId = usize;

/// Weight of an edge or of a path.
pub type Weight = usize;

/// Stands for "no node".
pub const INVALID_NODE: NodeId = usize::MAX;

/// Stands for "no edge".
pub const INVALID_EDGE: EdgeId = usize::MAX;

/// Stands for an infinite weight: "not reached" or "not found".
pub const WEIGHT_MAX: Weight = usize::MAX;

pub const WEIGHT_ZERO: Weight = 0;

} // verus!
