use vstd::prelude::*;

verus! {

/// What steers the preparation when it chooses the order of the nodes itself. The two
/// factors are given in thousandths: 100 stands for 0.1.
pub struct Params {
    /// How much the depth of a node in the hierarchy counts towards its relevance.
    pub hierarchy_depth_permille: usize,
    /// How much the number of shortcuts per edge of a node counts towards its relevance.
    pub edge_quotient_permille: usize,
    /// The most nodes a witness search settles when the relevance of all nodes is
    /// calculated at the beginning.
    pub max_settled_nodes_initial_relevance: usize,
    /// The most nodes a witness search settles when the relevance of the neighbors of a
    /// contracted node is calculated anew.
    pub max_settled_nodes_neighbor_relevance: usize,
    /// The most nodes a witness search settles when a node is contracted.
    pub max_settled_nodes_contraction: usize,
}

impl Params {
    pub fn new(
        hierarchy_depth_permille: usize,
        max_settled_nodes_initial_relevance: usize,
        max_settled_nodes_neighbor_relevance: usize,
        max_settled_nodes_contraction: usize,
    ) -> (params: Self)
        ensures
            params.hierarchy_depth_permille == hierarchy_depth_permille,
            params.edge_quotient_permille == 1000,
            params.max_settled_nodes_initial_relevance == max_settled_nodes_initial_relevance,
            params.max_settled_nodes_neighbor_relevance == max_settled_nodes_neighbor_relevance,
            params.max_settled_nodes_contraction == max_settled_nodes_contraction,
    {
        Params {
            hierarchy_depth_permille,
            edge_quotient_permille: 1000,
            max_settled_nodes_initial_relevance,
            max_settled_nodes_neighbor_relevance,
            max_settled_nodes_contraction,
        }
    }

    pub fn default() -> (params: Self)
        ensures
            params.hierarchy_depth_permille == 100,
            params.edge_quotient_permille == 1000,
            params.max_settled_nodes_initial_relevance == 100,
            params.max_settled_nodes_neighbor_relevance == 3,
            params.max_settled_nodes_contraction == 100,
    {
        Params {
            hierarchy_depth_permille: 100,
            edge_quotient_permille: 1000,
            max_settled_nodes_initial_relevance: 100,
            max_settled_nodes_neighbor_relevance: 3,
            max_settled_nodes_contraction: 100,
        }
    }
}

/// What steers the preparation when the order of the nodes is given.
pub struct ParamsWithOrder {
    /// The most nodes a witness search settles when a node is contracted.
    pub max_settled_nodes_contraction_with_order: usize,
}

impl ParamsWithOrder {
    pub fn new(max_settled_nodes_contraction_with_order: usize) -> (params: Self)
        ensures
            params.max_settled_nodes_contraction_with_order
                == max_settled_nodes_contraction_with_order,
    {
        ParamsWithOrder { max_settled_nodes_contraction_with_order }
    }

    pub fn default() -> (params: Self)
        ensures
            params.max_settled_nodes_contraction_with_order == 100,
    {
        ParamsWithOrder::new(100)
    }
}

} // verus!
