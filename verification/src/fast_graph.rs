use vstd::prelude::*;

use crate::constants::EdgeId;
use crate::constants::NodeId;
use crate::constants::Weight;
use crate::constants::INVALID_EDGE;

verus! {

/// An edge of a prepared graph. It is stored with the node of lower rank, its base
/// node, and leads to or comes from the node of higher rank. A shortcut names the two
/// edges it replaces, an edge of the input names none.
#[derive(Debug, Clone, Copy)]
pub struct FastGraphEdge {
    pub base_node: NodeId,
    pub adj_node: NodeId,
    pub weight: Weight,
    pub replaced_in_edge: EdgeId,
    pub replaced_out_edge: EdgeId,
}

impl FastGraphEdge {
    pub fn new(
        base_node: NodeId,
        adj_node: NodeId,
        weight: Weight,
        replaced_edge1: EdgeId,
        replaced_edge2: EdgeId,
    ) -> (edge: Self)
        ensures
            edge == (FastGraphEdge {
                base_node,
                adj_node,
                weight,
                replaced_in_edge: replaced_edge1,
                replaced_out_edge: replaced_edge2,
            }),
    {
        FastGraphEdge {
            base_node,
            adj_node,
            weight,
            replaced_in_edge: replaced_edge1,
            replaced_out_edge: replaced_edge2,
        }
    }

    /// The edge names either both of the edges it replaces or none.
    pub open spec fn wf(&self) -> bool {
        (self.replaced_in_edge == INVALID_EDGE) == (self.replaced_out_edge == INVALID_EDGE)
    }

    pub open spec fn spec_is_shortcut(&self) -> bool {
        self.replaced_in_edge != INVALID_EDGE
    }

    pub fn is_shortcut(&self) -> (shortcut: bool)
        requires
            self.wf(),
        ensures
            shortcut == self.spec_is_shortcut(),
    {
        self.replaced_in_edge != INVALID_EDGE
    }
}

/// The contents of a prepared graph.
pub struct FastGraphView {
    pub num_nodes: usize,
    pub ranks: Seq<usize>,
    pub edges_fwd: Seq<FastGraphEdge>,
    pub first_edge_ids_fwd: Seq<EdgeId>,
    pub edges_bwd: Seq<FastGraphEdge>,
    pub first_edge_ids_bwd: Seq<EdgeId>,
}

/// Every number below `ranks.len()` is the rank of exactly one node.
pub open spec fn is_permutation(ranks: Seq<usize>) -> bool {
    &&& forall|i: int| 0 <= i < ranks.len() ==> #[trigger] ranks[i] < ranks.len()
    &&& forall|i: int, j: int|
        0 <= i < ranks.len() && 0 <= j < ranks.len() && i != j ==> #[trigger] ranks[i]
            != #[trigger] ranks[j]
}

/// `first` cuts a list of `num_edges` edges into one slice per rank: slice `r` goes
/// from `first[r]` up to `first[r + 1]`.
pub open spec fn cuts_slices(first: Seq<EdgeId>, num_edges: nat) -> bool {
    &&& first.len() >= 1
    &&& first[0] == 0
    &&& first[first.len() - 1] == num_edges
    &&& forall|r: int, s: int| 0 <= r <= s < first.len() ==> #[trigger] first[r] <= #[trigger] first[s]
}

/// The edge belongs to the node of rank `r`, and leads to a node of higher rank.
pub open spec fn leads_up(ranks: Seq<usize>, edge: FastGraphEdge, r: int) -> bool {
    &&& edge.base_node < ranks.len()
    &&& ranks[edge.base_node as int] == r
    &&& edge.adj_node < ranks.len()
    &&& ranks[edge.adj_node as int] > r
}

impl FastGraphView {
    /// The edges of slice `r` are stored with the node of rank `r` and lead to nodes of
    /// higher rank.
    pub open spec fn slices_lead_up(self, edges: Seq<FastGraphEdge>, first: Seq<EdgeId>) -> bool {
        forall|r: int, e: int|
            #![trigger first[r], edges[e]]
            0 <= r < self.ranks.len() && first[r] <= e < first[r + 1] ==> leads_up(
                self.ranks,
                edges[e],
                r,
            )
    }

    /// The two edges that a shortcut replaces are stored with a node of lower rank than
    /// the shortcut itself: an edge that enters that node and an edge that leaves it.
    pub open spec fn replaces_lower(self, edge: FastGraphEdge) -> bool {
        &&& edge.wf()
        &&& edge.spec_is_shortcut() ==> {
            &&& edge.replaced_in_edge < self.edges_bwd.len()
            &&& edge.replaced_out_edge < self.edges_fwd.len()
            &&& edge.base_node < self.ranks.len()
            &&& self.edges_bwd[edge.replaced_in_edge as int].base_node < self.ranks.len()
            &&& self.edges_fwd[edge.replaced_out_edge as int].base_node < self.ranks.len()
            &&& self.ranks[self.edges_bwd[edge.replaced_in_edge as int].base_node as int]
                < self.ranks[edge.base_node as int]
            &&& self.ranks[self.edges_fwd[edge.replaced_out_edge as int].base_node as int]
                < self.ranks[edge.base_node as int]
        }
    }

    /// What holds of every graph that a preparation hands out.
    pub open spec fn wf(self) -> bool {
        &&& self.ranks.len() == self.num_nodes
        &&& self.first_edge_ids_fwd.len() == self.num_nodes + 1
        &&& self.first_edge_ids_bwd.len() == self.num_nodes + 1
        &&& is_permutation(self.ranks)
        &&& cuts_slices(self.first_edge_ids_fwd, self.edges_fwd.len())
        &&& cuts_slices(self.first_edge_ids_bwd, self.edges_bwd.len())
        &&& self.slices_lead_up(self.edges_fwd, self.first_edge_ids_fwd)
        &&& self.slices_lead_up(self.edges_bwd, self.first_edge_ids_bwd)
        &&& forall|e: int|
            0 <= e < self.edges_fwd.len() ==> self.replaces_lower(#[trigger] self.edges_fwd[e])
        &&& forall|e: int|
            0 <= e < self.edges_bwd.len() ==> self.replaces_lower(#[trigger] self.edges_bwd[e])
    }

    /// The shortcut `edge` stands for the path from `from` to `to` that is made of the
    /// two edges it replaces: they belong to the same node, the first comes from `from`,
    /// the second leads to `to`, and their weights add up to the weight of the shortcut.
    pub open spec fn joined(self, edge: FastGraphEdge, from: NodeId, to: NodeId) -> bool {
        let first = self.edges_bwd[edge.replaced_in_edge as int];
        let second = self.edges_fwd[edge.replaced_out_edge as int];
        &&& first.base_node == second.base_node
        &&& first.adj_node == from
        &&& second.adj_node == to
        &&& edge.weight == first.weight + second.weight
    }

    /// Every edge that is no shortcut is an edge of `input`, and every shortcut stands
    /// for the path made of the two edges it replaces.
    pub open spec fn represents(self, input: Seq<crate::input_graph::Edge>) -> bool {
        &&& forall|e: int|
            0 <= e < self.edges_fwd.len() ==> {
                let edge = #[trigger] self.edges_fwd[e];
                if edge.spec_is_shortcut() {
                    self.joined(edge, edge.base_node, edge.adj_node)
                } else {
                    input.contains(
                        crate::input_graph::Edge {
                            from: edge.base_node,
                            to: edge.adj_node,
                            weight: edge.weight,
                        },
                    )
                }
            }
        &&& forall|e: int|
            0 <= e < self.edges_bwd.len() ==> {
                let edge = #[trigger] self.edges_bwd[e];
                if edge.spec_is_shortcut() {
                    self.joined(edge, edge.adj_node, edge.base_node)
                } else {
                    input.contains(
                        crate::input_graph::Edge {
                            from: edge.adj_node,
                            to: edge.base_node,
                            weight: edge.weight,
                        },
                    )
                }
            }
    }

    /// `below_fwd` and `below_bwd` give every edge a height, such that the two edges a
    /// shortcut replaces are lower than the shortcut.
    pub open spec fn has_heights(self, below_fwd: Seq<nat>, below_bwd: Seq<nat>) -> bool {
        &&& below_fwd.len() == self.edges_fwd.len()
        &&& below_bwd.len() == self.edges_bwd.len()
        &&& forall|e: int|
            0 <= e < self.edges_fwd.len() ==> {
                let edge = #[trigger] self.edges_fwd[e];
                &&& edge.wf()
                &&& edge.spec_is_shortcut() ==> {
                    &&& edge.replaced_in_edge < self.edges_bwd.len()
                    &&& edge.replaced_out_edge < self.edges_fwd.len()
                    &&& below_bwd[edge.replaced_in_edge as int] < below_fwd[e]
                    &&& below_fwd[edge.replaced_out_edge as int] < below_fwd[e]
                }
            }
        &&& forall|e: int|
            0 <= e < self.edges_bwd.len() ==> {
                let edge = #[trigger] self.edges_bwd[e];
                &&& edge.wf()
                &&& edge.spec_is_shortcut() ==> {
                    &&& edge.replaced_in_edge < self.edges_bwd.len()
                    &&& edge.replaced_out_edge < self.edges_fwd.len()
                    &&& below_bwd[edge.replaced_in_edge as int] < below_bwd[e]
                    &&& below_fwd[edge.replaced_out_edge as int] < below_bwd[e]
                }
            }
    }

    /// Every shortcut can be taken apart into edges of the input: no shortcut replaces,
    /// directly or through other shortcuts, itself.
    pub open spec fn unpackable(self) -> bool {
        exists|below_fwd: Seq<nat>, below_bwd: Seq<nat>| self.has_heights(below_fwd, below_bwd)
    }

    /// Heights as in `has_heights`, where there are any.
    pub open spec fn heights(self) -> (Seq<nat>, Seq<nat>) {
        choose|h: (Seq<nat>, Seq<nat>)| self.has_heights(h.0, h.1)
    }

    pub proof fn lemma_heights(self)
        requires
            self.unpackable(),
        ensures
            self.has_heights(self.heights().0, self.heights().1),
    {
        let (f, b) = choose|below_fwd: Seq<nat>, below_bwd: Seq<nat>|
            self.has_heights(below_fwd, below_bwd);
        assert(self.has_heights((f, b).0, (f, b).1));
    }

    /// In a well-formed graph the rank of the base node is a height for every edge.
    pub proof fn lemma_wf_unpackable(self)
        requires
            self.wf(),
        ensures
            self.unpackable(),
    {
        let f = Seq::new(
            self.edges_fwd.len(),
            |e: int| self.ranks[self.edges_fwd[e].base_node as int] as nat,
        );
        let b = Seq::new(
            self.edges_bwd.len(),
            |e: int| self.ranks[self.edges_bwd[e].base_node as int] as nat,
        );
        assert forall|e: int| 0 <= e < self.edges_fwd.len() implies {
            let edge = #[trigger] self.edges_fwd[e];
            &&& edge.wf()
            &&& edge.spec_is_shortcut() ==> {
                &&& edge.replaced_in_edge < self.edges_bwd.len()
                &&& edge.replaced_out_edge < self.edges_fwd.len()
                &&& b[edge.replaced_in_edge as int] < f[e]
                &&& f[edge.replaced_out_edge as int] < f[e]
            }
        } by {
            assert(self.replaces_lower(self.edges_fwd[e]));
        }
        assert forall|e: int| 0 <= e < self.edges_bwd.len() implies {
            let edge = #[trigger] self.edges_bwd[e];
            &&& edge.wf()
            &&& edge.spec_is_shortcut() ==> {
                &&& edge.replaced_in_edge < self.edges_bwd.len()
                &&& edge.replaced_out_edge < self.edges_fwd.len()
                &&& b[edge.replaced_in_edge as int] < b[e]
                &&& f[edge.replaced_out_edge as int] < b[e]
            }
        } by {
            assert(self.replaces_lower(self.edges_bwd[e]));
        }
        assert(self.has_heights(f, b));
    }

}

/// Ranks that are a permutation hold every rank.
pub proof fn lemma_every_rank(ranks: Seq<usize>)
    requires
        is_permutation(ranks),
    ensures
        forall|r: usize| r < ranks.len() ==> #[trigger] ranks.contains(r),
{
    let n = ranks.len() as int;
    let ints = ranks.map_values(|v: usize| v as int);
    assert(ints.no_duplicates()) by {
        assert forall|i: int, j: int| 0 <= i < ints.len() && 0 <= j < ints.len() && i != j implies ints[i]
            != ints[j] by {
            assert(ranks[i] != ranks[j]);
        }
    }
    ints.unique_seq_to_set();
    vstd::set_lib::lemma_int_range(0, n);
    let all = vstd::set_lib::set_int_range(0, n);
    assert(ints.to_set().subset_of(all)) by {
        assert forall|v: int| ints.to_set().contains(v) implies all.contains(v) by {
            let j = choose|j: int| 0 <= j < ints.len() && ints[j] == v;
            assert(ranks[j] < n);
        }
    }
    vstd::set_lib::lemma_set_subset_finite(all, ints.to_set());
    vstd::set_lib::lemma_subset_equality(ints.to_set(), all);
    assert forall|r: usize| r < ranks.len() implies #[trigger] ranks.contains(r) by {
        assert(all.contains(r as int));
        assert(ints.to_set().contains(r as int));
        assert(ints.contains(r as int));
        let j = choose|j: int| 0 <= j < ints.len() && ints[j] == r as int;
        assert(ranks[j] == r);
    }
}

/// Whether the ranks are a permutation.
fn ranks_are_permutation(ranks: &Vec<usize>) -> (result: bool)
    ensures
        result == is_permutation(ranks@),
{
    let n = ranks.len();
    let mut seen: Vec<bool> = vec![false; n];
    let ghost mut holder: Seq<int> = Seq::new(n as nat, |r: int| -1);
    let mut i: usize = 0;
    while i < n
        invariant
            i <= n,
            n == ranks@.len(),
            seen@.len() == n,
            holder.len() == n,
            forall|k: int| 0 <= k < i ==> #[trigger] ranks@[k] < n,
            forall|k: int, m: int| 0 <= k < m < i ==> #[trigger] ranks@[k] != #[trigger] ranks@[m],
            forall|r: int|
                0 <= r < n && #[trigger] seen@[r] ==> 0 <= holder[r] < i && ranks@[holder[r]] == r,
            forall|k: int| 0 <= k < i ==> seen@[(#[trigger] ranks@[k]) as int],
        decreases n - i,
    {
        let rank = ranks[i];
        if rank >= n {
            return false;
        }
        if seen[rank] {
            proof {
                assert(ranks@[holder[rank as int]] == ranks@[i as int]);
            }
            return false;
        }
        let ghost seen_before = seen@;
        seen[rank] = true;
        proof {
            holder = holder.update(rank as int, i as int);
            assert forall|k: int, m: int| 0 <= k < m < i + 1 implies #[trigger] ranks@[k]
                != #[trigger] ranks@[m] by {
                if m == i {
                    assert(seen_before[ranks@[k] as int]);
                }
            }
        }
        i += 1;
    }
    proof {
        assert forall|k: int, m: int| 0 <= k < n && 0 <= m < n && k != m implies #[trigger] ranks@[k]
            != #[trigger] ranks@[m] by {
            if k < m {
                assert(ranks@[k] != ranks@[m]);
            } else {
                assert(ranks@[m] != ranks@[k]);
            }
        }
    }
    true
}

/// Whether the edges from `begin` up to `end` belong to the node of rank `r` and lead
/// to nodes of higher rank.
fn slice_does_lead_up(ranks: &Vec<usize>, edges: &Vec<FastGraphEdge>, begin: usize, end: usize, r: usize) -> (result:
    bool)
    requires
        begin <= end <= edges@.len(),
    ensures
        result == (forall|e: int| begin <= e < end ==> leads_up(ranks@, #[trigger] edges@[e], r as int)),
{
    let n = ranks.len();
    let mut e = begin;
    while e < end
        invariant
            begin <= e <= end,
            end <= edges@.len(),
            n == ranks@.len(),
            forall|x: int| begin <= x < e ==> leads_up(ranks@, #[trigger] edges@[x], r as int),
        decreases end - e,
    {
        let edge = edges[e];
        if !(edge.base_node < n && ranks[edge.base_node] == r && edge.adj_node < n
            && ranks[edge.adj_node] > r) {
            return false;
        }
        e += 1;
    }
    true
}

/// Whether the edges of every slice belong to the node of its rank and lead to nodes
/// of higher rank.
fn slices_do_lead_up(ranks: &Vec<usize>, edges: &Vec<FastGraphEdge>, first: &Vec<EdgeId>) -> (result:
    bool)
    requires
        first@.len() == ranks@.len() + 1,
        cuts_slices(first@, edges@.len()),
    ensures
        result == (forall|r: int, e: int|
            #![trigger first@[r], edges@[e]]
            0 <= r < ranks@.len() && first@[r] <= e < first@[r + 1] ==> leads_up(
                ranks@,
                edges@[e],
                r,
            )),
{
    let n = ranks.len();
    let mut r: usize = 0;
    while r < n
        invariant
            r <= n,
            n == ranks@.len(),
            first@.len() == n + 1,
            cuts_slices(first@, edges@.len()),
            forall|q: int, e: int|
                #![trigger first@[q], edges@[e]]
                0 <= q < r && first@[q] <= e < first@[q + 1] ==> leads_up(ranks@, edges@[e], q),
        decreases n - r,
    {
        let begin = first[r];
        let end = first[r + 1];
        proof {
            assert(first@[r as int] <= first@[r + 1]);
            assert(first@[r + 1] <= first@[n as int]);
        }
        if !slice_does_lead_up(ranks, edges, begin, end, r) {
            proof {
                let e = choose|e: int|
                    begin <= e < end && !leads_up(ranks@, #[trigger] edges@[e], r as int);
                assert(first@[r as int] <= e < first@[r + 1]);
            }
            return false;
        }
        r += 1;
    }
    true
}

/// Whether `first` cuts `num_edges` edges into slices.
fn slices_are_cut(first: &Vec<EdgeId>, num_edges: usize) -> (result: bool)
    ensures
        result == cuts_slices(first@, num_edges as nat),
{
    let n = first.len();
    if n == 0 || first[0] != 0 || first[n - 1] != num_edges {
        return false;
    }
    let mut r: usize = 0;
    while r + 1 < n
        invariant
            r < n,
            n == first@.len(),
            forall|a: int, b: int| 0 <= a <= b <= r ==> #[trigger] first@[a] <= #[trigger] first@[b],
        decreases n - r,
    {
        if first[r] > first[r + 1] {
            return false;
        }
        proof {
            assert forall|a: int, b: int| 0 <= a <= b <= r + 1 implies #[trigger] first@[a]
                <= #[trigger] first@[b] by {
                if b == r + 1 && a <= r {
                    assert(first@[a] <= first@[r as int]);
                }
            }
        }
        r += 1;
    }
    true
}

/// `order` lists the nodes by their ranks: the node at position `r` has rank `r`.
pub open spec fn orders(order: Seq<NodeId>, ranks: Seq<usize>) -> bool {
    &&& order.len() == ranks.len()
    &&& forall|r: int| 0 <= r < order.len() ==> (#[trigger] order[r]) < ranks.len() && ranks[order[r] as int] == r
}

/// The nodes listed by their ranks are a permutation, where the ranks are one.
pub proof fn lemma_order_is_permutation(order: Seq<NodeId>, ranks: Seq<usize>)
    requires
        orders(order, ranks),
    ensures
        is_permutation(order),
{
    assert forall|i: int, j: int|
        0 <= i < order.len() && 0 <= j < order.len() && i != j implies #[trigger] order[i]
        != #[trigger] order[j] by {
        assert(ranks[order[i] as int] == i);
        assert(ranks[order[j] as int] == j);
    }
}

/// A graph that is prepared with the nodes in the order of their ranks in another
/// prepared graph gives every node the rank it had there: ranks that go with the same
/// order are the same, where the first ranks are a permutation.
pub proof fn lemma_same_ranks(order: Seq<NodeId>, ranks: Seq<usize>, again: Seq<usize>)
    requires
        is_permutation(ranks),
        orders(order, ranks),
        orders(order, again),
    ensures
        again == ranks,
{
    assert forall|v: int| 0 <= v < ranks.len() implies again[v] == ranks[v] by {
        let r = ranks[v] as int;
        assert(order[r] < ranks.len());
        assert(ranks[order[r] as int] == r);
        if order[r] != v {
            assert(ranks[order[r] as int] != ranks[v]);
        }
        assert(again[order[r] as int] == r);
    }
    assert(again =~= ranks);
}

/// A prepared graph: the nodes ranked by the order of their contraction, and for each
/// node the edges that lead from it, and to it, from and to nodes of higher rank.
#[derive(Debug, Clone)]
pub struct FastGraph {
    pub num_nodes: usize,
    pub ranks: Vec<usize>,
    pub edges_fwd: Vec<FastGraphEdge>,
    pub first_edge_ids_fwd: Vec<EdgeId>,
    pub edges_bwd: Vec<FastGraphEdge>,
    pub first_edge_ids_bwd: Vec<EdgeId>,
}

impl View for FastGraph {
    type V = FastGraphView;

    open spec fn view(&self) -> FastGraphView {
        FastGraphView {
            num_nodes: self.num_nodes,
            ranks: self.ranks@,
            edges_fwd: self.edges_fwd@,
            first_edge_ids_fwd: self.first_edge_ids_fwd@,
            edges_bwd: self.edges_bwd@,
            first_edge_ids_bwd: self.first_edge_ids_bwd@,
        }
    }
}

impl FastGraph {
    /// A graph of `num_nodes` nodes without edges, all nodes with rank 0.
    pub fn new(num_nodes: usize) -> (graph: Self)
        requires
            num_nodes < usize::MAX,
        ensures
            graph@ == (FastGraphView {
                num_nodes,
                ranks: Seq::new(num_nodes as nat, |i: int| 0usize),
                edges_fwd: Seq::empty(),
                first_edge_ids_fwd: Seq::new((num_nodes + 1) as nat, |i: int| 0usize),
                edges_bwd: Seq::empty(),
                first_edge_ids_bwd: Seq::new((num_nodes + 1) as nat, |i: int| 0usize),
            }),
    {
        let graph = FastGraph {
            ranks: vec![0; num_nodes],
            num_nodes,
            edges_fwd: Vec::new(),
            first_edge_ids_fwd: vec![0; num_nodes + 1],
            edges_bwd: Vec::new(),
            first_edge_ids_bwd: vec![0; num_nodes + 1],
        };
        proof {
            assert(graph@.ranks =~= Seq::new(num_nodes as nat, |i: int| 0usize));
            assert(graph@.first_edge_ids_fwd =~= Seq::new((num_nodes + 1) as nat, |i: int| 0usize));
            assert(graph@.first_edge_ids_bwd =~= Seq::new((num_nodes + 1) as nat, |i: int| 0usize));
            assert(graph@.edges_fwd =~= Seq::empty());
            assert(graph@.edges_bwd =~= Seq::empty());
        }
        graph
    }

    /// A graph with the given contents.
    pub fn from_parts(
        num_nodes: usize,
        ranks: Vec<usize>,
        edges_fwd: Vec<FastGraphEdge>,
        first_edge_ids_fwd: Vec<EdgeId>,
        edges_bwd: Vec<FastGraphEdge>,
        first_edge_ids_bwd: Vec<EdgeId>,
    ) -> (graph: Self)
        ensures
            graph@ == (FastGraphView {
                num_nodes,
                ranks: ranks@,
                edges_fwd: edges_fwd@,
                first_edge_ids_fwd: first_edge_ids_fwd@,
                edges_bwd: edges_bwd@,
                first_edge_ids_bwd: first_edge_ids_bwd@,
            }),
    {
        FastGraph { num_nodes, ranks, edges_fwd, first_edge_ids_fwd, edges_bwd, first_edge_ids_bwd }
    }

    /// The nodes in the order of their ranks. For ranks that are a permutation this is
    /// the inverse of the ranks. In general the entry of a rank is the last node that
    /// has it, and 0 where no node has it.
    pub fn get_node_ordering(&self) -> (ordering: Vec<NodeId>)
        requires
            forall|i: int| 0 <= i < self@.ranks.len() ==> #[trigger] self@.ranks[i] < self@.ranks.len(),
        ensures
            ordering@.len() == self@.ranks.len(),
            is_permutation(self@.ranks) ==> orders(ordering@, self@.ranks),
            forall|r: int|
                0 <= r < ordering@.len() ==> {
                    let node = #[trigger] ordering@[r];
                    if exists|i: int| 0 <= i < self@.ranks.len() && self@.ranks[i] == r {
                        &&& node < self@.ranks.len()
                        &&& self@.ranks[node as int] == r
                        &&& forall|i: int|
                            0 <= i < self@.ranks.len() && self@.ranks[i] == r ==> i <= node
                    } else {
                        node == 0
                    }
                },
    {
        let n = self.ranks.len();
        let mut ordering: Vec<NodeId> = vec![0; n];
        let mut i: usize = 0;
        while i < n
            invariant
                i <= n,
                n == self.ranks@.len(),
                self@.ranks == self.ranks@,
                ordering@.len() == n,
                forall|k: int| 0 <= k < n ==> #[trigger] self@.ranks[k] < n,
                forall|r: int|
                    0 <= r < n ==> {
                        let node = #[trigger] ordering@[r];
                        if exists|k: int| 0 <= k < i && self.ranks@[k] == r {
                            &&& node < i
                            &&& self.ranks@[node as int] == r
                            &&& forall|k: int| 0 <= k < i && self.ranks@[k] == r ==> k <= node
                        } else {
                            node == 0
                        }
                    },
            decreases n - i,
        {
            let rank = self.ranks[i];
            let ghost before = ordering@;
            ordering[rank] = i;
            proof {
                assert forall|r: int| 0 <= r < n implies {
                    let node = #[trigger] ordering@[r];
                    if exists|k: int| 0 <= k < i + 1 && self.ranks@[k] == r {
                        &&& node < i + 1
                        &&& self.ranks@[node as int] == r
                        &&& forall|k: int| 0 <= k < i + 1 && self.ranks@[k] == r ==> k <= node
                    } else {
                        node == 0
                    }
                } by {
                    let had = exists|k: int| 0 <= k < i && self.ranks@[k] == r;
                    if r == rank {
                        assert(self.ranks@[i as int] == r);
                    } else {
                        assert(ordering@[r] == before[r]);
                        if exists|k: int| 0 <= k < i + 1 && self.ranks@[k] == r {
                            let k = choose|k: int| 0 <= k < i + 1 && self.ranks@[k] == r;
                            assert(k < i);
                            assert(had);
                        }
                    }
                }
            }
            i += 1;
        }
        proof {
            if is_permutation(self@.ranks) {
                lemma_every_rank(self@.ranks);
                assert forall|r: int| 0 <= r < ordering@.len() implies (#[trigger] ordering@[r])
                    < self@.ranks.len() && self@.ranks[ordering@[r] as int] == r by {
                    assert(self@.ranks.contains(r as usize));
                    let k = choose|k: int| 0 <= k < self@.ranks.len() && self@.ranks[k] == r as usize;
                    assert(self@.ranks[k] == r);
                }
            }
        }
        ordering
    }

    pub fn get_num_nodes(&self) -> (n: usize)
        ensures
            n == self@.num_nodes,
    {
        self.num_nodes
    }

    /// Whether the graph is well-formed, as every graph is that a preparation hands
    /// out. Only a well-formed graph can be searched for paths; a graph that comes
    /// from elsewhere has to be checked.
    pub fn is_well_formed(&self) -> (well_formed: bool)
        ensures
            well_formed == self@.wf(),
    {
        let n = self.num_nodes;
        let num_first_fwd = self.first_edge_ids_fwd.len();
        let num_first_bwd = self.first_edge_ids_bwd.len();
        if n == usize::MAX || self.ranks.len() != n || num_first_fwd != n + 1 || num_first_bwd != n
            + 1 {
            return false;
        }
        if !ranks_are_permutation(&self.ranks) {
            return false;
        }
        if !slices_are_cut(&self.first_edge_ids_fwd, self.edges_fwd.len()) || !slices_are_cut(
            &self.first_edge_ids_bwd,
            self.edges_bwd.len(),
        ) {
            return false;
        }
        if !slices_do_lead_up(&self.ranks, &self.edges_fwd, &self.first_edge_ids_fwd)
            || !slices_do_lead_up(&self.ranks, &self.edges_bwd, &self.first_edge_ids_bwd) {
            return false;
        }
        let mut e: usize = 0;
        while e < self.edges_fwd.len()
            invariant
                e <= self@.edges_fwd.len(),
                forall|x: int| 0 <= x < e ==> self@.replaces_lower(#[trigger] self@.edges_fwd[x]),
            decreases self@.edges_fwd.len() - e,
        {
            if !self.does_replace_lower(&self.edges_fwd[e]) {
                return false;
            }
            e += 1;
        }
        let mut e: usize = 0;
        while e < self.edges_bwd.len()
            invariant
                e <= self@.edges_bwd.len(),
                forall|x: int| 0 <= x < e ==> self@.replaces_lower(#[trigger] self@.edges_bwd[x]),
            decreases self@.edges_bwd.len() - e,
        {
            if !self.does_replace_lower(&self.edges_bwd[e]) {
                return false;
            }
            e += 1;
        }
        true
    }

    fn does_replace_lower(&self, edge: &FastGraphEdge) -> (result: bool)
        ensures
            result == self@.replaces_lower(*edge),
    {
        if (edge.replaced_in_edge == INVALID_EDGE) != (edge.replaced_out_edge == INVALID_EDGE) {
            return false;
        }
        if edge.replaced_in_edge == INVALID_EDGE {
            return true;
        }
        if edge.replaced_in_edge >= self.edges_bwd.len() || edge.replaced_out_edge
            >= self.edges_fwd.len() || edge.base_node >= self.ranks.len() {
            return false;
        }
        let first = self.edges_bwd[edge.replaced_in_edge].base_node;
        let second = self.edges_fwd[edge.replaced_out_edge].base_node;
        first < self.ranks.len() && second < self.ranks.len() && self.ranks[first]
            < self.ranks[edge.base_node] && self.ranks[second] < self.ranks[edge.base_node]
    }

    pub fn get_num_out_edges(&self) -> (n: usize)
        ensures
            n == self@.edges_fwd.len(),
    {
        self.edges_fwd.len()
    }

    pub fn get_num_in_edges(&self) -> (n: usize)
        ensures
            n == self@.edges_bwd.len(),
    {
        self.edges_bwd.len()
    }

    /// Where the edges that enter `node` begin.
    pub fn begin_in_edges(&self, node: NodeId) -> (edge_id: usize)
        requires
            node < self@.ranks.len(),
            self@.ranks[node as int] < self@.first_edge_ids_bwd.len(),
        ensures
            edge_id == self@.first_edge_ids_bwd[self@.ranks[node as int] as int],
    {
        self.first_edge_ids_bwd[self.ranks[node]]
    }

    /// Where the edges that enter `node` end.
    pub fn end_in_edges(&self, node: NodeId) -> (edge_id: usize)
        requires
            node < self@.ranks.len(),
            self@.ranks[node as int] + 1 < self@.first_edge_ids_bwd.len(),
        ensures
            edge_id == self@.first_edge_ids_bwd[self@.ranks[node as int] + 1],
    {
        let len = self.first_edge_ids_bwd.len();
        assert(self@.ranks[node as int] + 1 < len);
        self.first_edge_ids_bwd[self.ranks[node] + 1]
    }

    /// Where the edges that leave `node` begin.
    pub fn begin_out_edges(&self, node: NodeId) -> (edge_id: usize)
        requires
            node < self@.ranks.len(),
            self@.ranks[node as int] < self@.first_edge_ids_fwd.len(),
        ensures
            edge_id == self@.first_edge_ids_fwd[self@.ranks[node as int] as int],
    {
        self.first_edge_ids_fwd[self.ranks[node]]
    }

    /// Where the edges that leave `node` end.
    pub fn end_out_edges(&self, node: NodeId) -> (edge_id: usize)
        requires
            node < self@.ranks.len(),
            self@.ranks[node as int] + 1 < self@.first_edge_ids_fwd.len(),
        ensures
            edge_id == self@.first_edge_ids_fwd[self@.ranks[node as int] + 1],
    {
        let len = self.first_edge_ids_fwd.len();
        assert(self@.ranks[node as int] + 1 < len);
        self.first_edge_ids_fwd[self.ranks[node] + 1]
    }
}

} // verus!
