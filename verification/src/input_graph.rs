use std::cmp::Ordering;
use vstd::prelude::*;

use crate::constants::NodeId;
use crate::constants::Weight;

verus! {

/// A directed edge with its weight.
#[derive(Debug, Copy, Clone)]
pub struct Edge {
    pub from: NodeId,
    pub to: NodeId,
    pub weight: Weight,
}

impl Edge {
    pub fn new(from: NodeId, to: NodeId, weight: Weight) -> (edge: Edge)
        ensures
            edge == (Edge { from, to, weight }),
    {
        Edge { from, to, weight }
    }
}

/// Both edges lead from the same node to the same node.
pub open spec fn same_ends(a: Edge, b: Edge) -> bool {
    a.from == b.from && a.to == b.to
}

/// `a` comes strictly before `b` when edges are ordered by their end points.
pub open spec fn ends_before(a: Edge, b: Edge) -> bool {
    a.from < b.from || (a.from == b.from && a.to < b.to)
}

/// `a` comes before `b`, or is equal to it, when edges are ordered by start node, then
/// end node, then weight.
pub open spec fn edge_le(a: Edge, b: Edge) -> bool {
    ends_before(a, b) || (same_ends(a, b) && a.weight <= b.weight)
}

/// Ordered by start node, then end node, then weight.
pub open spec fn sorted(edges: Seq<Edge>) -> bool {
    forall|i: int, j: int| 0 <= i < j < edges.len() ==> edge_le(edges[i], edges[j])
}

/// Ordered by end points, and no two edges with the same end points.
pub open spec fn strictly_sorted(edges: Seq<Edge>) -> bool {
    forall|i: int, j: int| 0 <= i < j < edges.len() ==> ends_before(edges[i], edges[j])
}

/// `kept` holds edges of `edges` only, and for every edge of `edges` one with the same
/// end points and a weight that is not larger.
pub open spec fn keeps_lightest(kept: Seq<Edge>, edges: Seq<Edge>) -> bool {
    &&& forall|k: int| 0 <= k < kept.len() ==> edges.contains(#[trigger] kept[k])
    &&& forall|j: int| 0 <= j < edges.len() ==> has_lighter(kept, #[trigger] edges[j])
}

/// `kept` holds an edge with the end points of `edge` whose weight is not larger.
pub open spec fn has_lighter(kept: Seq<Edge>, edge: Edge) -> bool {
    exists|k: int|
        0 <= k < kept.len() && same_ends(#[trigger] kept[k], edge) && kept[k].weight
            <= edge.weight
}

/// What freezing makes of a list of edges: the edges ordered by their end points, of
/// each group with the same end points only the lightest one.
pub open spec fn is_normal_form_of(kept: Seq<Edge>, edges: Seq<Edge>) -> bool {
    strictly_sorted(kept) && keeps_lightest(kept, edges)
}

/// No loops, no weightless edges, and all nodes below `num_nodes`.
pub open spec fn edges_valid(edges: Seq<Edge>, num_nodes: usize) -> bool {
    forall|i: int|
        0 <= i < edges.len() ==> {
            let e = #[trigger] edges[i];
            e.from != e.to && e.weight >= 1 && e.from < num_nodes && e.to < num_nodes
        }
}

/// `num_nodes` is one more than the largest node that `edges` mentions, and zero for no
/// edges.
pub open spec fn counts_nodes(edges: Seq<Edge>, num_nodes: usize) -> bool {
    &&& forall|i: int|
        0 <= i < edges.len() ==> (#[trigger] edges[i]).from < num_nodes && edges[i].to
            < num_nodes
    &&& num_nodes > 0 ==> exists|i: int|
        0 <= i < edges.len() && ((#[trigger] edges[i]).from == num_nodes - 1 || edges[i].to
            == num_nodes - 1)
}

/// Compares two edges by start node, then end node, then weight.
pub fn edge_order(a: &Edge, b: &Edge) -> (r: Ordering)
    ensures
        r == Ordering::Less <==> edge_le(*a, *b) && *a != *b,
        r == Ordering::Equal <==> *a == *b,
        r == Ordering::Greater <==> !edge_le(*a, *b),
{
    if a.from < b.from {
        Ordering::Less
    } else if a.from > b.from {
        Ordering::Greater
    } else if a.to < b.to {
        Ordering::Less
    } else if a.to > b.to {
        Ordering::Greater
    } else if a.weight < b.weight {
        Ordering::Less
    } else if a.weight > b.weight {
        Ordering::Greater
    } else {
        Ordering::Equal
    }
}

/// Calls `sort_unstable_by` of the standard library with `edge_order`. Claimed of it:
/// the call reorders the edges, neither adding nor losing any, and leaves them in
/// ascending order.
#[verifier::external_body]
fn sort_edges(edges: &mut Vec<Edge>)
    ensures
        final(edges)@.to_multiset() == old(edges)@.to_multiset(),
        sorted(final(edges)@),
{
    edges.sort_unstable_by(|a, b| edge_order(a, b));
}

/// A normal form of a reordering is a normal form of the list itself.
proof fn lemma_normal_form_of_permutation(kept: Seq<Edge>, sorted: Seq<Edge>, edges: Seq<Edge>)
    requires
        is_normal_form_of(kept, sorted),
        sorted.to_multiset() == edges.to_multiset(),
    ensures
        is_normal_form_of(kept, edges),
{
    broadcast use vstd::seq_lib::group_to_multiset_ensures;

    assert forall|k: int| 0 <= k < kept.len() implies edges.contains(#[trigger] kept[k]) by {
        assert(sorted.contains(kept[k]));
        assert(sorted.to_multiset().count(kept[k]) > 0);
    }
    assert forall|j: int| 0 <= j < edges.len() implies has_lighter(kept, #[trigger] edges[j]) by {
        assert(edges.contains(edges[j]));
        assert(edges.to_multiset().count(edges[j]) > 0);
        assert(sorted.contains(edges[j]));
        let j2 = choose|j2: int| 0 <= j2 < sorted.len() && sorted[j2] == edges[j];
        assert(has_lighter(kept, sorted[j2]));
    }
}

/// The normal form of valid edges is valid, and mentions the same largest node.
proof fn lemma_normal_form_valid(kept: Seq<Edge>, edges: Seq<Edge>, num_nodes: usize)
    requires
        is_normal_form_of(kept, edges),
        edges_valid(edges, num_nodes),
        counts_nodes(edges, num_nodes),
    ensures
        edges_valid(kept, num_nodes),
        counts_nodes(kept, num_nodes),
{
    assert forall|i: int| 0 <= i < kept.len() implies {
        let e = #[trigger] kept[i];
        e.from != e.to && e.weight >= 1 && e.from < num_nodes && e.to < num_nodes
    } by {
        assert(edges.contains(kept[i]));
        let j = choose|j: int| 0 <= j < edges.len() && edges[j] == kept[i];
        assert(edges[j].from < num_nodes);
    }
    if num_nodes > 0 {
        let j = choose|j: int|
            0 <= j < edges.len() && ((#[trigger] edges[j]).from == num_nodes - 1 || edges[j].to
                == num_nodes - 1);
        assert(has_lighter(kept, edges[j]));
        let k = choose|k: int|
            0 <= k < kept.len() && same_ends(#[trigger] kept[k], edges[j]) && kept[k].weight
                <= edges[j].weight;
        assert(kept[k].from == num_nodes - 1 || kept[k].to == num_nodes - 1);
    }
}

/// A list of edges that is collected first and then frozen. Freezing brings the edges
/// into their normal form; only a frozen graph can be read.
#[derive(Clone, Debug)]
pub struct InputGraph {
    edges: Vec<Edge>,
    num_nodes: usize,
    frozen: bool,
}

impl InputGraph {
    pub closed spec fn spec_edges(&self) -> Seq<Edge> {
        self.edges@
    }

    pub closed spec fn spec_num_nodes(&self) -> usize {
        self.num_nodes
    }

    pub closed spec fn is_frozen(&self) -> bool {
        self.frozen
    }

    /// The edges are valid, the node count is the largest node plus one, and a frozen
    /// graph is in normal form.
    pub open spec fn wf(&self) -> bool {
        &&& self.spec_num_nodes() < usize::MAX
        &&& edges_valid(self.spec_edges(), self.spec_num_nodes())
        &&& counts_nodes(self.spec_edges(), self.spec_num_nodes())
        &&& self.is_frozen() ==> strictly_sorted(self.spec_edges())
    }

    pub fn new() -> (graph: Self)
        ensures
            graph.wf(),
            !graph.is_frozen(),
            graph.spec_edges() == Seq::<Edge>::empty(),
            graph.spec_num_nodes() == 0,
    {
        InputGraph { edges: Vec::new(), num_nodes: 0, frozen: false }
    }

    /// Adds the edge and returns 1, or returns 0 and adds nothing where the edge is a
    /// loop or has no weight.
    pub fn add_edge(&mut self, from: NodeId, to: NodeId, weight: Weight) -> (added: usize)
        requires
            old(self).wf(),
            !old(self).is_frozen(),
            from < usize::MAX - 1,
            to < usize::MAX - 1,
        ensures
            final(self).wf(),
            !final(self).is_frozen(),
            from == to || weight == 0 ==> added == 0 && final(self).spec_edges() == old(
                self,
            ).spec_edges() && final(self).spec_num_nodes() == old(self).spec_num_nodes(),
            from != to && weight > 0 ==> added == 1 && final(self).spec_edges() == old(
                self,
            ).spec_edges().push(Edge { from, to, weight }),
    {
        self.do_add_edge(from, to, weight, false)
    }

    /// Adds the edge in both directions and returns 2, or returns 0 and adds nothing
    /// where the edge is a loop or has no weight.
    pub fn add_edge_bidir(&mut self, from: NodeId, to: NodeId, weight: Weight) -> (added: usize)
        requires
            old(self).wf(),
            !old(self).is_frozen(),
            from < usize::MAX - 1,
            to < usize::MAX - 1,
        ensures
            final(self).wf(),
            !final(self).is_frozen(),
            from == to || weight == 0 ==> added == 0 && final(self).spec_edges() == old(
                self,
            ).spec_edges() && final(self).spec_num_nodes() == old(self).spec_num_nodes(),
            from != to && weight > 0 ==> added == 2 && final(self).spec_edges() == old(
                self,
            ).spec_edges().push(Edge { from, to, weight }).push(Edge { from: to, to: from, weight }),
    {
        self.do_add_edge(from, to, weight, true)
    }

    pub fn get_edges(&self) -> (edges: &Vec<Edge>)
        requires
            self.is_frozen(),
        ensures
            edges@ == self.spec_edges(),
    {
        &self.edges
    }

    pub fn get_num_nodes(&self) -> (n: usize)
        requires
            self.is_frozen(),
        ensures
            n == self.spec_num_nodes(),
    {
        self.num_nodes
    }

    pub fn get_num_edges(&self) -> (n: usize)
        requires
            self.is_frozen(),
        ensures
            n == self.spec_edges().len(),
    {
        self.edges.len()
    }

    /// Brings the edges into their normal form: ordered by end points, and of the edges
    /// with the same end points only the lightest.
    pub fn freeze(&mut self)
        requires
            old(self).wf(),
            !old(self).is_frozen(),
        ensures
            final(self).wf(),
            final(self).is_frozen(),
            final(self).spec_num_nodes() == old(self).spec_num_nodes(),
            is_normal_form_of(final(self).spec_edges(), old(self).spec_edges()),
    {
        self.sort();
        let ghost sorted_edges = self.edges@;
        self.remove_duplicate_edges();
        self.frozen = true;
        proof {
            lemma_normal_form_of_permutation(self.edges@, sorted_edges, old(self).edges@);
            lemma_normal_form_valid(self.edges@, old(self).edges@, self.num_nodes);
        }
    }

    /// Whether the graph is frozen, and so can be read.
    pub fn check_frozen(&self) -> (frozen: bool)
        ensures
            frozen == self.is_frozen(),
    {
        self.frozen
    }

    /// Allows changes again.
    pub fn thaw(&mut self)
        requires
            old(self).wf(),
        ensures
            final(self).wf(),
            !final(self).is_frozen(),
            final(self).spec_edges() == old(self).spec_edges(),
            final(self).spec_num_nodes() == old(self).spec_num_nodes(),
    {
        self.frozen = false;
    }

    fn sort(&mut self)
        ensures
            final(self).edges@.to_multiset() == old(self).edges@.to_multiset(),
            sorted(final(self).edges@),
            final(self).num_nodes == old(self).num_nodes,
            final(self).frozen == old(self).frozen,
    {
        sort_edges(&mut self.edges);
    }

    fn remove_duplicate_edges(&mut self)
        requires
            sorted(old(self).edges@),
        ensures
            is_normal_form_of(final(self).edges@, old(self).edges@),
            final(self).num_nodes == old(self).num_nodes,
            final(self).frozen == old(self).frozen,
    {
        let mut kept: Vec<Edge> = Vec::new();
        let ghost mut origin: Seq<int> = Seq::empty();
        let ghost mut keeper: Seq<int> = Seq::empty();
        let n = self.edges.len();
        let mut i: usize = 0;
        while i < n
            invariant
                i <= n,
                n == self.edges@.len(),
                self.edges@ == old(self).edges@,
                sorted(self.edges@),
                strictly_sorted(kept@),
                origin.len() == kept@.len(),
                keeper.len() == i,
                forall|k: int|
                    0 <= k < kept@.len() ==> 0 <= #[trigger] origin[k] < i && kept@[k]
                        == self.edges@[origin[k]],
                forall|j: int|
                    0 <= j < i ==> 0 <= #[trigger] keeper[j] < kept@.len() && same_ends(
                        kept@[keeper[j]],
                        self.edges@[j],
                    ) && kept@[keeper[j]].weight <= self.edges@[j].weight,
                i > 0 ==> kept@.len() > 0 && same_ends(kept@[kept@.len() - 1], self.edges@[i - 1]),
            decreases n - i,
        {
            let e = self.edges[i];
            let mut keep = kept.len() == 0;
            if !keep {
                let last = kept[kept.len() - 1];
                keep = last.from != e.from || last.to != e.to;
            }
            if keep {
                proof {
                    assert forall|a: int, b: int| 0 <= a < b < kept@.len() + 1 implies ends_before(
                        kept@.push(e)[a],
                        kept@.push(e)[b],
                    ) by {
                        if b == kept@.len() {
                            let last = kept@[kept@.len() - 1];
                            assert(0 <= origin[kept@.len() - 1] < i);
                            assert(edge_le(self.edges@[i - 1], e));
                            assert(ends_before(last, e));
                            if a < kept@.len() - 1 {
                                assert(ends_before(kept@[a], last));
                            }
                        }
                    }
                    origin = origin.push(i as int);
                    keeper = keeper.push(kept@.len() as int);
                }
                kept.push(e);
            } else {
                proof {
                    let last = kept@.len() - 1;
                    assert(edge_le(self.edges@[origin[last]], e));
                    keeper = keeper.push(last);
                }
            }
            i += 1;
        }
        proof {
            let edges = self.edges@;
            assert forall|k: int| 0 <= k < kept@.len() implies edges.contains(#[trigger] kept@[k]) by {
                assert(edges[origin[k]] == kept@[k]);
            }
            assert forall|j: int| 0 <= j < edges.len() implies has_lighter(
                kept@,
                #[trigger] edges[j],
            ) by {
                let k = keeper[j];
                assert(same_ends(kept@[k], edges[j]) && kept@[k].weight <= edges[j].weight);
            }
        }
        self.edges = kept;
    }

    fn do_add_edge(&mut self, from: NodeId, to: NodeId, weight: Weight, bidir: bool) -> (added:
        usize)
        requires
            old(self).wf(),
            !old(self).is_frozen(),
            from < usize::MAX - 1,
            to < usize::MAX - 1,
        ensures
            final(self).wf(),
            !final(self).is_frozen(),
            from == to || weight == 0 ==> added == 0 && final(self).spec_edges() == old(
                self,
            ).spec_edges() && final(self).spec_num_nodes() == old(self).spec_num_nodes(),
            from != to && weight > 0 && !bidir ==> added == 1 && final(self).spec_edges() == old(
                self,
            ).spec_edges().push(Edge { from, to, weight }),
            from != to && weight > 0 && bidir ==> added == 2 && final(self).spec_edges() == old(
                self,
            ).spec_edges().push(Edge { from, to, weight }).push(Edge { from: to, to: from, weight }),
    {
        if from == to {
            return 0;
        }
        if weight < 1 {
            return 0;
        }
        let larger = if from > to {
            from
        } else {
            to
        };
        let ghost before = self.edges@;
        let ghost n_before = self.num_nodes;
        if self.num_nodes < larger + 1 {
            self.num_nodes = larger + 1;
        }
        self.edges.push(Edge::new(from, to, weight));
        proof {
            let edges = self.edges@;
            let last = edges.len() - 1;
            assert(edges[last] == Edge { from, to, weight });
            assert forall|i: int| 0 <= i < edges.len() implies {
                let e = #[trigger] edges[i];
                e.from != e.to && e.weight >= 1 && e.from < self.num_nodes && e.to
                    < self.num_nodes
            } by {
                if i < last {
                    assert(edges[i] == before[i]);
                }
            }
            if self.num_nodes == n_before {
                if n_before > 0 {
                    let j = choose|j: int|
                        0 <= j < before.len() && ((#[trigger] before[j]).from == n_before - 1
                            || before[j].to == n_before - 1);
                    assert(edges[j] == before[j]);
                }
            } else {
                assert(edges[last].from == self.num_nodes - 1 || edges[last].to == self.num_nodes
                    - 1);
            }
        }
        if bidir {
            let ghost middle = self.edges@;
            self.edges.push(Edge::new(to, from, weight));
            proof {
                let edges = self.edges@;
                assert forall|i: int| 0 <= i < edges.len() implies {
                    let e = #[trigger] edges[i];
                    e.from != e.to && e.weight >= 1 && e.from < self.num_nodes && e.to
                        < self.num_nodes
                } by {
                    if i < edges.len() - 1 {
                        assert(edges[i] == middle[i]);
                    }
                }
                if self.num_nodes > 0 {
                    let j = choose|j: int|
                        0 <= j < middle.len() && ((#[trigger] middle[j]).from == self.num_nodes - 1
                            || middle[j].to == self.num_nodes - 1);
                    assert(edges[j] == middle[j]);
                }
            }
            2
        } else {
            1
        }
    }
}

impl Default for InputGraph {
    fn default() -> (graph: Self)
        ensures
            graph.wf(),
            !graph.is_frozen(),
            graph.spec_edges() == Seq::<Edge>::empty(),
            graph.spec_num_nodes() == 0,
    {
        InputGraph::new()
    }
}

} // verus!
