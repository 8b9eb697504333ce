use vstd::prelude::*;

use crate::fast_graph::FastGraph;
use crate::fast_graph::FastGraphEdge;
use crate::fast_graph::FastGraphView;

verus! {

/// An edge of a prepared graph in 32 bits. See `FastGraph32`.
#[derive(Debug, Clone, Copy)]
pub struct FastGraphEdge32 {
    pub base_node: u32,
    pub adj_node: u32,
    pub weight: u32,
    pub replaced_in_edge: u32,
    pub replaced_out_edge: u32,
}

/// A prepared graph with all numbers in 32 bits, to store a graph that was prepared
/// on a machine of 64 bits and to load it on a machine of 32 bits. The largest number
/// of 32 bits stands for the largest number of the machine.
#[derive(Debug, Clone)]
pub struct FastGraph32 {
    pub num_nodes: u32,
    pub ranks: Vec<u32>,
    pub edges_fwd: Vec<FastGraphEdge32>,
    pub first_edge_ids_fwd: Vec<u32>,
    pub edges_bwd: Vec<FastGraphEdge32>,
    pub first_edge_ids_bwd: Vec<u32>,
}

/// The contents of a prepared graph in 32 bits.
pub struct FastGraphView32 {
    pub num_nodes: u32,
    pub ranks: Seq<u32>,
    pub edges_fwd: Seq<FastGraphEdge32>,
    pub first_edge_ids_fwd: Seq<u32>,
    pub edges_bwd: Seq<FastGraphEdge32>,
    pub first_edge_ids_bwd: Seq<u32>,
}

impl View for FastGraph32 {
    type V = FastGraphView32;

    open spec fn view(&self) -> FastGraphView32 {
        FastGraphView32 {
            num_nodes: self.num_nodes,
            ranks: self.ranks@,
            edges_fwd: self.edges_fwd@,
            first_edge_ids_fwd: self.first_edge_ids_fwd@,
            edges_bwd: self.edges_bwd@,
            first_edge_ids_bwd: self.first_edge_ids_bwd@,
        }
    }
}

/// The number can be written in 32 bits: it is small enough, or it is the largest
/// number of the machine.
pub open spec fn fits_u32(value: usize) -> bool {
    value <= u32::MAX || value == usize::MAX
}

/// The number comes back unchanged from 32 bits: it fits, and it is not the largest
/// number of 32 bits on a machine with larger numbers.
pub open spec fn survives_u32(value: usize) -> bool {
    value < u32::MAX || value == usize::MAX
}

pub open spec fn to_u32(value: usize) -> u32 {
    if value == usize::MAX {
        u32::MAX
    } else {
        value as u32
    }
}

pub open spec fn to_usize(value: u32) -> usize {
    if value == u32::MAX {
        usize::MAX
    } else {
        value as usize
    }
}

pub open spec fn edge_fits_u32(edge: FastGraphEdge) -> bool {
    &&& fits_u32(edge.base_node)
    &&& fits_u32(edge.adj_node)
    &&& fits_u32(edge.weight)
    &&& fits_u32(edge.replaced_in_edge)
    &&& fits_u32(edge.replaced_out_edge)
}

pub open spec fn edge_survives_u32(edge: FastGraphEdge) -> bool {
    &&& survives_u32(edge.base_node)
    &&& survives_u32(edge.adj_node)
    &&& survives_u32(edge.weight)
    &&& survives_u32(edge.replaced_in_edge)
    &&& survives_u32(edge.replaced_out_edge)
}

pub open spec fn edge_to_u32(edge: FastGraphEdge) -> FastGraphEdge32 {
    FastGraphEdge32 {
        base_node: to_u32(edge.base_node),
        adj_node: to_u32(edge.adj_node),
        weight: to_u32(edge.weight),
        replaced_in_edge: to_u32(edge.replaced_in_edge),
        replaced_out_edge: to_u32(edge.replaced_out_edge),
    }
}

pub open spec fn edge_to_usize(edge: FastGraphEdge32) -> FastGraphEdge {
    FastGraphEdge {
        base_node: to_usize(edge.base_node),
        adj_node: to_usize(edge.adj_node),
        weight: to_usize(edge.weight),
        replaced_in_edge: to_usize(edge.replaced_in_edge),
        replaced_out_edge: to_usize(edge.replaced_out_edge),
    }
}

/// Every number of the graph can be written in 32 bits.
pub open spec fn graph_fits_u32(g: FastGraphView) -> bool {
    &&& fits_u32(g.num_nodes)
    &&& forall|i: int| 0 <= i < g.ranks.len() ==> fits_u32(#[trigger] g.ranks[i])
    &&& forall|i: int| 0 <= i < g.edges_fwd.len() ==> edge_fits_u32(#[trigger] g.edges_fwd[i])
    &&& forall|i: int|
        0 <= i < g.first_edge_ids_fwd.len() ==> fits_u32(#[trigger] g.first_edge_ids_fwd[i])
    &&& forall|i: int| 0 <= i < g.edges_bwd.len() ==> edge_fits_u32(#[trigger] g.edges_bwd[i])
    &&& forall|i: int|
        0 <= i < g.first_edge_ids_bwd.len() ==> fits_u32(#[trigger] g.first_edge_ids_bwd[i])
}

/// Every number of the graph comes back unchanged from 32 bits.
pub open spec fn graph_survives_u32(g: FastGraphView) -> bool {
    &&& g.num_nodes <= u32::MAX
    &&& forall|i: int| 0 <= i < g.ranks.len() ==> survives_u32(#[trigger] g.ranks[i])
    &&& forall|i: int| 0 <= i < g.edges_fwd.len() ==> edge_survives_u32(#[trigger] g.edges_fwd[i])
    &&& forall|i: int|
        0 <= i < g.first_edge_ids_fwd.len() ==> survives_u32(#[trigger] g.first_edge_ids_fwd[i])
    &&& forall|i: int| 0 <= i < g.edges_bwd.len() ==> edge_survives_u32(#[trigger] g.edges_bwd[i])
    &&& forall|i: int|
        0 <= i < g.first_edge_ids_bwd.len() ==> survives_u32(#[trigger] g.first_edge_ids_bwd[i])
}

/// The graph in 32 bits.
pub open spec fn graph_to_u32(g: FastGraphView) -> FastGraphView32 {
    FastGraphView32 {
        num_nodes: to_u32(g.num_nodes),
        ranks: g.ranks.map_values(|value: usize| to_u32(value)),
        edges_fwd: g.edges_fwd.map_values(|edge: FastGraphEdge| edge_to_u32(edge)),
        first_edge_ids_fwd: g.first_edge_ids_fwd.map_values(|value: usize| to_u32(value)),
        edges_bwd: g.edges_bwd.map_values(|edge: FastGraphEdge| edge_to_u32(edge)),
        first_edge_ids_bwd: g.first_edge_ids_bwd.map_values(|value: usize| to_u32(value)),
    }
}

/// The graph in the numbers of the machine. The number of nodes is taken as it is.
pub open spec fn graph_to_usize(g: FastGraphView32) -> FastGraphView {
    FastGraphView {
        num_nodes: g.num_nodes as usize,
        ranks: g.ranks.map_values(|value: u32| to_usize(value)),
        edges_fwd: g.edges_fwd.map_values(|edge: FastGraphEdge32| edge_to_usize(edge)),
        first_edge_ids_fwd: g.first_edge_ids_fwd.map_values(|value: u32| to_usize(value)),
        edges_bwd: g.edges_bwd.map_values(|edge: FastGraphEdge32| edge_to_usize(edge)),
        first_edge_ids_bwd: g.first_edge_ids_bwd.map_values(|value: u32| to_usize(value)),
    }
}

/// A graph whose numbers all survive 32 bits comes back unchanged when it is written
/// in 32 bits and read again.
pub proof fn lemma_round_trip(g: FastGraphView)
    requires
        graph_survives_u32(g),
    ensures
        graph_fits_u32(g),
        graph_to_usize(graph_to_u32(g)) == g,
{
    let back = graph_to_usize(graph_to_u32(g));
    assert(back.ranks =~= g.ranks);
    assert(back.first_edge_ids_fwd =~= g.first_edge_ids_fwd);
    assert(back.first_edge_ids_bwd =~= g.first_edge_ids_bwd);
    assert forall|i: int| 0 <= i < g.edges_fwd.len() implies back.edges_fwd[i]
        == g.edges_fwd[i] by {
        assert(edge_survives_u32(g.edges_fwd[i]));
    }
    assert forall|i: int| 0 <= i < g.edges_bwd.len() implies back.edges_bwd[i]
        == g.edges_bwd[i] by {
        assert(edge_survives_u32(g.edges_bwd[i]));
    }
    assert(back.edges_fwd =~= g.edges_fwd);
    assert(back.edges_bwd =~= g.edges_bwd);
}

impl FastGraph32 {
    /// Whether every number of the graph can be written in 32 bits.
    pub fn can_hold(fast_graph: &FastGraph) -> (fits: bool)
        ensures
            fits == graph_fits_u32(fast_graph@),
    {
        proof {
            assert(fast_graph@.ranks == fast_graph.ranks@);
            assert(fast_graph@.edges_fwd == fast_graph.edges_fwd@);
            assert(fast_graph@.first_edge_ids_fwd == fast_graph.first_edge_ids_fwd@);
            assert(fast_graph@.edges_bwd == fast_graph.edges_bwd@);
            assert(fast_graph@.first_edge_ids_bwd == fast_graph.first_edge_ids_bwd@);
        }
        usize_fits_u32(fast_graph.get_num_nodes()) && vec_fits_u32(&fast_graph.ranks)
            && edges_fit_u32(&fast_graph.edges_fwd) && vec_fits_u32(
            &fast_graph.first_edge_ids_fwd,
        ) && edges_fit_u32(&fast_graph.edges_bwd) && vec_fits_u32(&fast_graph.first_edge_ids_bwd)
    }

    /// The graph in 32 bits.
    pub fn new(fast_graph: &FastGraph) -> (graph: Self)
        requires
            graph_fits_u32(fast_graph@),
        ensures
            graph@ == graph_to_u32(fast_graph@),
    {
        proof {
            assert(fast_graph@.ranks == fast_graph.ranks@);
            assert(fast_graph@.edges_fwd == fast_graph.edges_fwd@);
            assert(fast_graph@.first_edge_ids_fwd == fast_graph.first_edge_ids_fwd@);
            assert(fast_graph@.edges_bwd == fast_graph.edges_bwd@);
            assert(fast_graph@.first_edge_ids_bwd == fast_graph.first_edge_ids_bwd@);
        }
        FastGraph32 {
            num_nodes: usize_to_u32(fast_graph.get_num_nodes()),
            ranks: usize_to_u32_vec(&fast_graph.ranks),
            edges_fwd: usize_to_u32_edges(&fast_graph.edges_fwd),
            first_edge_ids_fwd: usize_to_u32_vec(&fast_graph.first_edge_ids_fwd),
            edges_bwd: usize_to_u32_edges(&fast_graph.edges_bwd),
            first_edge_ids_bwd: usize_to_u32_vec(&fast_graph.first_edge_ids_bwd),
        }
    }

    /// The graph in the numbers of the machine.
    pub fn convert_to_usize(self) -> (graph: FastGraph)
        ensures
            graph@ == graph_to_usize(self@),
    {
        FastGraph::from_parts(
            self.num_nodes as usize,
            u32_to_usize_vec(&self.ranks),
            u32_to_usize_edges(&self.edges_fwd),
            u32_to_usize_vec(&self.first_edge_ids_fwd),
            u32_to_usize_edges(&self.edges_bwd),
            u32_to_usize_vec(&self.first_edge_ids_bwd),
        )
    }

    pub fn get_num_nodes(&self) -> (n: u32)
        ensures
            n == self@.num_nodes,
    {
        self.num_nodes
    }
}

fn usize_fits_u32(value: usize) -> (fits: bool)
    ensures
        fits == fits_u32(value),
{
    value == usize::MAX || value <= u32::MAX as usize
}

fn vec_fits_u32(vec: &Vec<usize>) -> (fits: bool)
    ensures
        fits == (forall|i: int| 0 <= i < vec@.len() ==> fits_u32(#[trigger] vec@[i])),
{
    let mut i: usize = 0;
    while i < vec.len()
        invariant
            i <= vec@.len(),
            forall|k: int| 0 <= k < i ==> fits_u32(#[trigger] vec@[k]),
        decreases vec@.len() - i,
    {
        if !usize_fits_u32(vec[i]) {
            return false;
        }
        i += 1;
    }
    true
}

fn edges_fit_u32(vec: &Vec<FastGraphEdge>) -> (fits: bool)
    ensures
        fits == (forall|i: int| 0 <= i < vec@.len() ==> edge_fits_u32(#[trigger] vec@[i])),
{
    let mut i: usize = 0;
    while i < vec.len()
        invariant
            i <= vec@.len(),
            forall|k: int| 0 <= k < i ==> edge_fits_u32(#[trigger] vec@[k]),
        decreases vec@.len() - i,
    {
        let edge = vec[i];
        if !(usize_fits_u32(edge.base_node) && usize_fits_u32(edge.adj_node) && usize_fits_u32(
            edge.weight,
        ) && usize_fits_u32(edge.replaced_in_edge) && usize_fits_u32(edge.replaced_out_edge)) {
            return false;
        }
        i += 1;
    }
    true
}

fn usize_to_u32(value: usize) -> (small: u32)
    requires
        fits_u32(value),
    ensures
        small == to_u32(value),
{
    if value == usize::MAX {
        u32::MAX
    } else {
        value as u32
    }
}

fn usize_to_u32_vec(vec: &Vec<usize>) -> (small: Vec<u32>)
    requires
        forall|i: int| 0 <= i < vec@.len() ==> fits_u32(#[trigger] vec@[i]),
    ensures
        small@ == vec@.map_values(|value: usize| to_u32(value)),
{
    let mut small: Vec<u32> = Vec::new();
    let mut i: usize = 0;
    while i < vec.len()
        invariant
            i <= vec@.len(),
            forall|k: int| 0 <= k < vec@.len() ==> fits_u32(#[trigger] vec@[k]),
            small@ == vec@.take(i as int).map_values(|value: usize| to_u32(value)),
        decreases vec@.len() - i,
    {
        small.push(usize_to_u32(vec[i]));
        i += 1;
        assert(small@ =~= vec@.take(i as int).map_values(|value: usize| to_u32(value)));
    }
    assert(vec@.take(i as int) =~= vec@);
    small
}

fn usize_to_u32_edges(vec: &Vec<FastGraphEdge>) -> (small: Vec<FastGraphEdge32>)
    requires
        forall|i: int| 0 <= i < vec@.len() ==> edge_fits_u32(#[trigger] vec@[i]),
    ensures
        small@ == vec@.map_values(|edge: FastGraphEdge| edge_to_u32(edge)),
{
    let mut small: Vec<FastGraphEdge32> = Vec::new();
    let mut i: usize = 0;
    while i < vec.len()
        invariant
            i <= vec@.len(),
            forall|k: int| 0 <= k < vec@.len() ==> edge_fits_u32(#[trigger] vec@[k]),
            small@ == vec@.take(i as int).map_values(|edge: FastGraphEdge| edge_to_u32(edge)),
        decreases vec@.len() - i,
    {
        small.push(usize_to_u32_edge(&vec[i]));
        i += 1;
        assert(small@ =~= vec@.take(i as int).map_values(|edge: FastGraphEdge| edge_to_u32(edge)));
    }
    assert(vec@.take(i as int) =~= vec@);
    small
}

fn usize_to_u32_edge(edge: &FastGraphEdge) -> (small: FastGraphEdge32)
    requires
        edge_fits_u32(*edge),
    ensures
        small == edge_to_u32(*edge),
{
    FastGraphEdge32 {
        base_node: usize_to_u32(edge.base_node),
        adj_node: usize_to_u32(edge.adj_node),
        weight: usize_to_u32(edge.weight),
        replaced_in_edge: usize_to_u32(edge.replaced_in_edge),
        replaced_out_edge: usize_to_u32(edge.replaced_out_edge),
    }
}

fn u32_to_usize(value: u32) -> (large: usize)
    ensures
        large == to_usize(value),
{
    if value == u32::MAX {
        usize::MAX
    } else {
        value as usize
    }
}

fn u32_to_usize_vec(vec: &Vec<u32>) -> (large: Vec<usize>)
    ensures
        large@ == vec@.map_values(|value: u32| to_usize(value)),
{
    let mut large: Vec<usize> = Vec::new();
    let mut i: usize = 0;
    while i < vec.len()
        invariant
            i <= vec@.len(),
            large@ == vec@.take(i as int).map_values(|value: u32| to_usize(value)),
        decreases vec@.len() - i,
    {
        large.push(u32_to_usize(vec[i]));
        i += 1;
        assert(large@ =~= vec@.take(i as int).map_values(|value: u32| to_usize(value)));
    }
    assert(vec@.take(i as int) =~= vec@);
    large
}

fn u32_to_usize_edges(vec: &Vec<FastGraphEdge32>) -> (large: Vec<FastGraphEdge>)
    ensures
        large@ == vec@.map_values(|edge: FastGraphEdge32| edge_to_usize(edge)),
{
    let mut large: Vec<FastGraphEdge> = Vec::new();
    let mut i: usize = 0;
    while i < vec.len()
        invariant
            i <= vec@.len(),
            large@ == vec@.take(i as int).map_values(|edge: FastGraphEdge32| edge_to_usize(edge)),
        decreases vec@.len() - i,
    {
        large.push(u32_to_usize_edge(&vec[i]));
        i += 1;
        assert(large@ =~= vec@.take(i as int).map_values(
            |edge: FastGraphEdge32| edge_to_usize(edge),
        ));
    }
    assert(vec@.take(i as int) =~= vec@);
    large
}

fn u32_to_usize_edge(edge: &FastGraphEdge32) -> (large: FastGraphEdge)
    ensures
        large == edge_to_usize(*edge),
{
    FastGraphEdge {
        base_node: u32_to_usize(edge.base_node),
        adj_node: u32_to_usize(edge.adj_node),
        weight: u32_to_usize(edge.weight),
        replaced_in_edge: u32_to_usize(edge.replaced_in_edge),
        replaced_out_edge: u32_to_usize(edge.replaced_out_edge),
    }
}

} // verus!
