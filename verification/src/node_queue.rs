use priority_queue::PriorityQueue;
use std::collections::hash_map::RandomState;
use std::hash::Hash;
use vstd::prelude::*;

use crate::constants::NodeId;

verus! {

/// The queue of the crate `priority_queue`: items with priorities, each item at most
/// once, handed out from the greatest priority down.
#[verifier::external_type_specification]
#[verifier::external_body]
#[verifier::reject_recursive_types(I)]
#[verifier::reject_recursive_types(P)]
#[verifier::reject_recursive_types(H)]
pub struct ExPriorityQueue<I: Hash + Eq, P: Ord, H>(PriorityQueue<I, P, H>);

/// The priority of a node in the queue: a pair of numbers.
pub type Priority = (usize, usize);

/// A queue of nodes.
pub type NodeQueue = PriorityQueue<NodeId, Priority, RandomState>;

/// The nodes that a queue holds, each with its priority.
pub uninterp spec fn queue_contents(queue: NodeQueue) -> Map<NodeId, Priority>;

/// The contents of a queue that holds nothing.
pub open spec fn no_nodes() -> Map<NodeId, Priority> {
    Map::empty()
}

/// The order of pairs: by the first number, and by the second where the first are equal.
pub open spec fn pair_le(a: Priority, b: Priority) -> bool {
    a.0 < b.0 || (a.0 == b.0 && a.1 <= b.1)
}

/// `node` is in the queue, and no node in the queue has a greater priority.
pub open spec fn is_top(queue: Map<NodeId, Priority>, node: NodeId) -> bool {
    &&& queue.contains_key(node)
    &&& forall|other: NodeId| queue.contains_key(other) ==> pair_le(#[trigger] queue[other], queue[node])
}

/// `PriorityQueue::new`. Claimed of it: the new queue holds nothing.
#[verifier::external_body]
pub(crate) fn queue_new() -> (queue: NodeQueue)
    ensures
        queue_contents(queue) == no_nodes(),
{
    PriorityQueue::new()
}

/// `PriorityQueue::is_empty`. Claimed of it: it tells whether the queue holds nothing.
#[verifier::external_body]
pub(crate) fn queue_is_empty(queue: &NodeQueue) -> (empty:
    bool)
    ensures
        empty == (queue_contents(*queue) == no_nodes()),
{
    queue.is_empty()
}

/// `PriorityQueue::push`. Claimed of it: afterwards the queue holds the node with the
/// given priority, whether or not it held the node before, and all else as before.
#[verifier::external_body]
pub(crate) fn queue_push(
    queue: &mut NodeQueue,
    node: NodeId,
    priority: Priority,
)
    ensures
        queue_contents(*final(queue)) == queue_contents(*old(queue)).insert(node, priority),
{
    queue.push(node, priority);
}

/// `PriorityQueue::change_priority`. Claimed of it: a node that the queue holds gets
/// the given priority; for a node that it does not hold nothing changes.
#[verifier::external_body]
pub(crate) fn queue_change_priority(
    queue: &mut NodeQueue,
    node: NodeId,
    priority: Priority,
)
    ensures
        queue_contents(*old(queue)).contains_key(node) ==> queue_contents(*final(queue))
            == queue_contents(*old(queue)).insert(node, priority),
        !queue_contents(*old(queue)).contains_key(node) ==> queue_contents(*final(queue))
            == queue_contents(*old(queue)),
{
    queue.change_priority(&node, priority);
}

/// `PriorityQueue::pop`. Claimed of it: from a queue that holds nothing it returns
/// nothing; else it takes out and returns a node with its priority, such that no node
/// in the queue had a greater priority.
#[verifier::external_body]
pub(crate) fn queue_pop(queue: &mut NodeQueue) -> (popped:
    Option<(NodeId, Priority)>)
    ensures
        popped is None ==> queue_contents(*old(queue)) == no_nodes()
            && queue_contents(*final(queue)) == queue_contents(*old(queue)),
        popped matches Some((node, priority)) ==> is_top(queue_contents(*old(queue)), node)
            && queue_contents(*old(queue))[node] == priority && queue_contents(*final(queue))
            == queue_contents(*old(queue)).remove(node),
{
    queue.pop()
}

} // verus!
