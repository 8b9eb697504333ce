//! Contraction hierarchies: preprocessing of a directed, weighted graph into a
//! layered graph on which shortest path queries run fast.

pub mod constants;
pub mod contraction_laws;
pub mod dijkstra;
pub mod dijkstra_laws;
pub mod edge_laws;
pub mod fast_graph;
pub mod fast_graph32;
pub mod fast_graph_builder;
pub mod found_laws;
pub mod graph_text;
pub mod heap_item;
pub mod hierarchy_laws;
pub mod input_graph;
pub mod labels;
pub mod least_laws;
pub mod min_heap;
pub mod node_contractor;
pub mod node_queue;
pub mod params;
pub mod path_calculator;
pub mod paths;
pub mod preparation_graph;
pub mod query_laws;
pub mod search_order;
pub mod shortest_path;
pub mod valid_flags;
pub mod witness_search;

pub use crate::constants::EdgeId;
pub use crate::constants::NodeId;
pub use crate::constants::Weight;
pub use crate::constants::INVALID_EDGE;
pub use crate::constants::INVALID_NODE;
pub use crate::constants::WEIGHT_MAX;
pub use crate::constants::WEIGHT_ZERO;
pub use crate::shortest_path::ShortestPath;
pub use crate::fast_graph::FastGraph;
pub use crate::fast_graph32::FastGraph32;
pub use crate::fast_graph_builder::FastGraphBuilder;
pub use crate::input_graph::Edge;
pub use crate::input_graph::InputGraph;
pub use crate::params::Params;
pub use crate::params::ParamsWithOrder;
pub use crate::path_calculator::PathCalculator;

use crate::fast_graph::is_permutation;
use crate::fast_graph::orders;
use crate::fast_graph_builder::prepared;
use crate::edge_laws::holds_edges;
use crate::found_laws::is_lightest;
use crate::found_laws::is_lightest_between;
use crate::hierarchy_laws::keeps_ways;
use crate::search_order::no_heavier_repeat;
use crate::fast_graph_builder::prepared_with_order;
use crate::path_calculator::found_nodes;
use crate::path_calculator::query_result;
use vstd::prelude::*;

verus! {

/// Prepares the given input graph for fast shortest path calculations.
pub fn prepare(input_graph: &InputGraph) -> (fast_graph: FastGraph)
    requires
        input_graph.wf(),
        input_graph.is_frozen(),
    ensures
        fast_graph@.wf(),
        fast_graph@.represents(input_graph.spec_edges()),
        keeps_ways(fast_graph@, input_graph.spec_edges()),
        holds_edges(fast_graph@, input_graph.spec_edges()),
        fast_graph@.num_nodes == input_graph.spec_num_nodes(),
        fast_graph@ == prepared(
            input_graph.spec_edges(),
            input_graph.spec_num_nodes(),
            Params {
                hierarchy_depth_permille: 100,
                edge_quotient_permille: 1000,
                max_settled_nodes_initial_relevance: 100,
                max_settled_nodes_neighbor_relevance: 3,
                max_settled_nodes_contraction: 100,
            },
        ),
{
    FastGraphBuilder::build(input_graph)
}

/// Like `prepare`, with the parameters of the preparation given.
pub fn prepare_with_params(input_graph: &InputGraph, params: &Params) -> (fast_graph: FastGraph)
    requires
        input_graph.wf(),
        input_graph.is_frozen(),
    ensures
        fast_graph@.wf(),
        fast_graph@.represents(input_graph.spec_edges()),
        keeps_ways(fast_graph@, input_graph.spec_edges()),
        holds_edges(fast_graph@, input_graph.spec_edges()),
        fast_graph@.num_nodes == input_graph.spec_num_nodes(),
        fast_graph@ == prepared(input_graph.spec_edges(), input_graph.spec_num_nodes(), *params),
{
    FastGraphBuilder::build_with_params(input_graph, params)
}

/// Prepares the given input graph with the nodes contracted in the given order, which
/// has to hold every node once. This can be used to speed up the preparation for a
/// graph that is like one that was prepared before, with the node ordering of that one.
/// The ranks of the prepared graph are the positions of the nodes in the order.
pub fn prepare_with_order(input_graph: &InputGraph, order: &Vec<NodeId>) -> (result: Result<
    FastGraph,
    String,
>)
    requires
        input_graph.wf(),
        input_graph.is_frozen(),
        order@.len() == input_graph.spec_num_nodes() ==> is_permutation(order@),
    ensures
        result is Ok <==> order@.len() == input_graph.spec_num_nodes(),
        result matches Ok(fast_graph) ==> {
            &&& fast_graph@.wf()
            &&& fast_graph@.represents(input_graph.spec_edges())
            &&& fast_graph@ == prepared_with_order(
                input_graph.spec_edges(),
                input_graph.spec_num_nodes(),
                order@,
                100,
            )
            &&& orders(order@, fast_graph@.ranks)
            &&& keeps_ways(fast_graph@, input_graph.spec_edges())
            &&& holds_edges(fast_graph@, input_graph.spec_edges())
            &&& fast_graph@.num_nodes == input_graph.spec_num_nodes()
        },
        result matches Err(message) ==> message@ == crate::fast_graph_builder::ORDER_MISMATCH@,
{
    let nodes = order.as_slice();
    assert(nodes@ == order@);
    FastGraphBuilder::build_with_order(input_graph, nodes)
}

/// Calculates the shortest path from `source` to `target`. On a graph that was prepared
/// from an input graph this is a lightest path through that graph, and there is none
/// only where no way leads from `source` to `target`.
pub fn calc_path(fast_graph: &FastGraph, source: NodeId, target: NodeId) -> (path: Option<
    ShortestPath,
>)
    requires
        fast_graph@.wf(),
        source < fast_graph@.num_nodes,
        target < fast_graph@.num_nodes,
    ensures
        path is None <==> query_result(fast_graph@, seq![(source, 0usize)], target).meeting_node
            == INVALID_NODE,
        path matches Some(p) ==> {
            let q = query_result(fast_graph@, seq![(source, 0usize)], target);
            &&& p.spec_nodes() == found_nodes(q, fast_graph@, target)
            &&& p.spec_source() == found_nodes(q, fast_graph@, target)[0]
            &&& p.spec_target() == target
            &&& p.spec_weight() == q.best_weight
        },
        forall|input: Seq<Edge>|
            fast_graph@.represents(input) && #[trigger] keeps_ways(fast_graph@, input) ==> is_lightest(
                input,
                source,
                target,
                path,
            ),
{
    let mut calc = PathCalculator::new(fast_graph.get_num_nodes());
    calc.calc_path(fast_graph, source, target)
}

/// Calculates the shortest path from any of the `sources` to `target`. The path
/// begins at the source that is closest to the target, where the weight that comes with
/// each source counts as part of the path. On a graph that was prepared from an input
/// graph this is a lightest path through that graph, as long as no source comes again
/// with a weight that is not smaller than before.
pub fn calc_path_multiple_endpoints(
    fast_graph: &FastGraph,
    sources: Vec<(NodeId, Weight)>,
    target: NodeId,
) -> (path: Option<ShortestPath>)
    requires
        fast_graph@.wf(),
        forall|i: int| 0 <= i < sources@.len() ==> (#[trigger] sources@[i]).0 < fast_graph@.num_nodes,
        target < fast_graph@.num_nodes,
    ensures
        path is None <==> query_result(fast_graph@, sources@, target).meeting_node == INVALID_NODE,
        path matches Some(p) ==> {
            let q = query_result(fast_graph@, sources@, target);
            &&& p.spec_nodes() == found_nodes(q, fast_graph@, target)
            &&& p.spec_source() == found_nodes(q, fast_graph@, target)[0]
            &&& p.spec_target() == target
            &&& p.spec_weight() == q.best_weight
        },
        forall|input: Seq<Edge>|
            fast_graph@.represents(input) && #[trigger] keeps_ways(fast_graph@, input)
                && no_heavier_repeat(sources@) ==> is_lightest_between(
                input,
                sources@,
                seq![(target, 0usize)],
                path,
            ),
{
    let mut calc = PathCalculator::new(fast_graph.get_num_nodes());
    calc.calc_path_multiple_endpoints(fast_graph, sources, target)
}

/// Creates a calculator for many shortest path calculations in a row on the given
/// graph, or on graphs with as many nodes.
pub fn create_calculator(fast_graph: &FastGraph) -> (calculator: PathCalculator)
    ensures
        calculator.wf(),
        calculator.spec_num_nodes() == fast_graph@.num_nodes,
{
    PathCalculator::new(fast_graph.get_num_nodes())
}

/// Returns the nodes of a prepared graph in the order of their ranks. This is the order
/// to prepare a graph with `prepare_with_order`.
pub fn get_node_ordering(fast_graph: &FastGraph) -> (order: Vec<NodeId>)
    requires
        fast_graph@.wf(),
    ensures
        orders(order@, fast_graph@.ranks),
        is_permutation(order@),
{
    let order = fast_graph.get_node_ordering();
    proof {
        crate::fast_graph::lemma_order_is_permutation(order@, fast_graph@.ranks);
    }
    order
}

} // verus!
