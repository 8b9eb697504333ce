use vstd::prelude::*;

use crate::constants::NodeId;
use crate::constants::Weight;
use crate::constants::INVALID_NODE;
use crate::input_graph::Edge;
use crate::input_graph::InputGraph;

verus! {

/// One end of an edge as a node sees it: the node at the other end, the weight, and
/// for a shortcut the node that it bypasses (`INVALID_NODE` for an edge of the input).
#[derive(Clone, Copy, Debug)]
pub struct Arc {
    pub adj_node: NodeId,
    pub weight: Weight,
    pub center_node: NodeId,
}

impl Arc {
    pub fn new(adj_node: NodeId, weight: Weight, center_node: NodeId) -> (arc: Self)
        ensures
            arc == (Arc { adj_node, weight, center_node }),
    {
        Arc { adj_node, weight, center_node }
    }
}

/// `arcs` without the arcs that lead to `adj`, the others in their order.
pub open spec fn without_arcs_to(arcs: Seq<Arc>, adj: NodeId) -> Seq<Arc>
    decreases arcs.len(),
{
    if arcs.len() == 0 {
        arcs
    } else {
        let rest = without_arcs_to(arcs.drop_last(), adj);
        if arcs.last().adj_node == adj {
            rest
        } else {
            rest.push(arcs.last())
        }
    }
}

/// Whether one of `arcs` leads to `adj`.
pub open spec fn has_arc_to(arcs: Seq<Arc>, adj: NodeId) -> bool {
    exists|i: int| 0 <= i < arcs.len() && (#[trigger] arcs[i]).adj_node == adj
}

/// No two of `arcs` lead to the same node.
pub open spec fn distinct_ends(arcs: Seq<Arc>) -> bool {
    forall|i: int, j: int|
        0 <= i < j < arcs.len() ==> (#[trigger] arcs[i]).adj_node != (#[trigger] arcs[j]).adj_node
}

/// Taking the arcs to `adj` out of arcs that hold none changes nothing.
pub proof fn lemma_without_absent(arcs: Seq<Arc>, adj: NodeId)
    requires
        !has_arc_to(arcs, adj),
    ensures
        without_arcs_to(arcs, adj) == arcs,
    decreases arcs.len(),
{
    if arcs.len() > 0 {
        let front = arcs.drop_last();
        if has_arc_to(front, adj) {
            let i = choose|i: int| 0 <= i < front.len() && (#[trigger] front[i]).adj_node == adj;
            assert(arcs[i].adj_node == adj);
        }
        assert(arcs[arcs.len() - 1].adj_node != adj);
        lemma_without_absent(front, adj);
        assert(front.push(arcs.last()) =~= arcs);
    }
}

/// What is left holds the arcs that lead elsewhere, and only those.
pub proof fn lemma_without_contains(arcs: Seq<Arc>, adj: NodeId, a: Arc)
    ensures
        without_arcs_to(arcs, adj).contains(a) <==> arcs.contains(a) && a.adj_node != adj,
    decreases arcs.len(),
{
    if arcs.len() > 0 {
        let front = arcs.drop_last();
        let last = arcs.last();
        lemma_without_contains(front, adj, a);
        let rest = without_arcs_to(front, adj);
        if arcs.contains(a) {
            let i = choose|i: int| 0 <= i < arcs.len() && arcs[i] == a;
            if i < arcs.len() - 1 {
                assert(front[i] == a);
            }
        }
        if front.contains(a) {
            let i = choose|i: int| 0 <= i < front.len() && front[i] == a;
            assert(arcs[i] == a);
        }
        assert(arcs[arcs.len() - 1] == last);
        if last.adj_node != adj {
            let kept = rest.push(last);
            assert(kept[kept.len() - 1] == last);
            if kept.contains(a) {
                let i = choose|i: int| 0 <= i < kept.len() && kept[i] == a;
                if i < rest.len() {
                    assert(rest[i] == a);
                }
            }
            if rest.contains(a) {
                let i = choose|i: int| 0 <= i < rest.len() && rest[i] == a;
                assert(kept[i] == a);
            }
        }
    }
}

/// What is left of arcs with distinct ends has distinct ends, and no arc to `adj`.
pub proof fn lemma_without_distinct(arcs: Seq<Arc>, adj: NodeId)
    requires
        distinct_ends(arcs),
    ensures
        distinct_ends(without_arcs_to(arcs, adj)),
        !has_arc_to(without_arcs_to(arcs, adj), adj),
        without_arcs_to(arcs, adj).len() <= arcs.len(),
    decreases arcs.len(),
{
    if arcs.len() > 0 {
        let front = arcs.drop_last();
        let last = arcs.last();
        assert forall|i: int, j: int| 0 <= i < j < front.len() implies (#[trigger] front[i]).adj_node != (
        #[trigger] front[j]).adj_node by {
            assert(arcs[i].adj_node != arcs[j].adj_node);
        }
        lemma_without_distinct(front, adj);
        let rest = without_arcs_to(front, adj);
        if last.adj_node != adj {
            let kept = rest.push(last);
            assert forall|i: int, j: int| 0 <= i < j < kept.len() implies (#[trigger] kept[i]).adj_node
                != (#[trigger] kept[j]).adj_node by {
                if j == rest.len() {
                    assert(rest.contains(rest[i]));
                    lemma_without_contains(front, adj, rest[i]);
                    let k = choose|k: int| 0 <= k < front.len() && front[k] == rest[i];
                    assert(arcs[k].adj_node != arcs[arcs.len() - 1].adj_node);
                } else {
                    assert(rest[i].adj_node != rest[j].adj_node);
                }
            }
            if has_arc_to(kept, adj) {
                let i = choose|i: int| 0 <= i < kept.len() && (#[trigger] kept[i]).adj_node == adj;
                if i < rest.len() {
                    assert(rest[i].adj_node == adj);
                }
            }
        }
    }
}

/// Arcs with distinct ends hold at most one arc to `adj`: taking it out leaves one less.
pub proof fn lemma_without_one(arcs: Seq<Arc>, adj: NodeId)
    requires
        distinct_ends(arcs),
        has_arc_to(arcs, adj),
    ensures
        without_arcs_to(arcs, adj).len() + 1 == arcs.len(),
    decreases arcs.len(),
{
    let i = choose|i: int| 0 <= i < arcs.len() && (#[trigger] arcs[i]).adj_node == adj;
    let front = arcs.drop_last();
    let last = arcs.last();
    assert(arcs[arcs.len() - 1] == last);
    if last.adj_node == adj {
        if has_arc_to(front, adj) {
            let k = choose|k: int| 0 <= k < front.len() && (#[trigger] front[k]).adj_node == adj;
            assert(arcs[k].adj_node != arcs[arcs.len() - 1].adj_node);
        }
        lemma_without_absent(front, adj);
    } else {
        assert(front[i].adj_node == adj);
        assert forall|a: int, b: int| 0 <= a < b < front.len() implies (#[trigger] front[a]).adj_node != (
        #[trigger] front[b]).adj_node by {
            assert(arcs[a].adj_node != arcs[b].adj_node);
        }
        lemma_without_one(front, adj);
    }
}

/// `i` is the position of the first of `arcs` that leads to `adj`.
pub open spec fn is_first_arc_to(arcs: Seq<Arc>, adj: NodeId, i: int) -> bool {
    &&& 0 <= i < arcs.len()
    &&& arcs[i].adj_node == adj
    &&& forall|j: int| 0 <= j < i ==> (#[trigger] arcs[j]).adj_node != adj
}

/// The position of the first of `arcs` that leads to `adj`, where there is one.
pub open spec fn first_arc_to(arcs: Seq<Arc>, adj: NodeId) -> int {
    choose|i: int| is_first_arc_to(arcs, adj, i)
}

pub proof fn lemma_first_arc_to(arcs: Seq<Arc>, adj: NodeId, i: int)
    requires
        is_first_arc_to(arcs, adj, i),
    ensures
        first_arc_to(arcs, adj) == i,
        has_arc_to(arcs, adj),
{
    let j = first_arc_to(arcs, adj);
    assert(is_first_arc_to(arcs, adj, j));
    if j < i {
        assert(arcs[j].adj_node != adj);
    }
    if i < j {
        assert(arcs[i].adj_node != adj);
    }
}

/// `arcs` with weight and center of every arc to `adj` replaced.
pub open spec fn with_arcs_to_set(arcs: Seq<Arc>, adj: NodeId, weight: Weight, center: NodeId) -> Seq<
    Arc,
> {
    Seq::new(
        arcs.len(),
        |i: int|
            if arcs[i].adj_node == adj {
                Arc { adj_node: adj, weight, center_node: center }
            } else {
                arcs[i]
            },
    )
}

/// The arcs of a graph: for each node the arcs that leave it and the arcs that enter it.
pub struct ArcLists {
    pub out_arcs: Seq<Seq<Arc>>,
    pub in_arcs: Seq<Seq<Arc>>,
}

impl ArcLists {
    pub open spec fn num_nodes(self) -> nat {
        self.out_arcs.len()
    }

    /// As many lists of entering as of leaving arcs, and every arc leads to a node of
    /// the graph.
    pub open spec fn wf(self) -> bool {
        &&& self.in_arcs.len() == self.out_arcs.len()
        &&& forall|u: int, i: int|
            0 <= u < self.out_arcs.len() && 0 <= i < self.out_arcs[u].len() ==> (
            #[trigger] self.out_arcs[u][i]).adj_node < self.out_arcs.len()
        &&& forall|u: int, i: int|
            0 <= u < self.in_arcs.len() && 0 <= i < self.in_arcs[u].len() ==> (
            #[trigger] self.in_arcs[u][i]).adj_node < self.out_arcs.len()
    }

    /// The graph of `n` nodes without arcs.
    pub open spec fn empty(n: nat) -> ArcLists {
        ArcLists {
            out_arcs: Seq::new(n, |u: int| Seq::<Arc>::empty()),
            in_arcs: Seq::new(n, |u: int| Seq::<Arc>::empty()),
        }
    }

    /// With an arc from `from` to `to` put at the end of the lists of both nodes.
    pub open spec fn add_arc(self, from: NodeId, to: NodeId, weight: Weight, center: NodeId) -> ArcLists {
        ArcLists {
            out_arcs: self.out_arcs.update(
                from as int,
                self.out_arcs[from as int].push(Arc { adj_node: to, weight, center_node: center }),
            ),
            in_arcs: self.in_arcs.update(
                to as int,
                self.in_arcs[to as int].push(Arc { adj_node: from, weight, center_node: center }),
            ),
        }
    }

    /// With the first arc from `from` to `to` and every entering arc of `to` that comes
    /// from `from` set to the given weight and center.
    pub open spec fn set_arc(self, from: NodeId, to: NodeId, weight: Weight, center: NodeId) -> ArcLists {
        let arcs = self.out_arcs[from as int];
        ArcLists {
            out_arcs: self.out_arcs.update(
                from as int,
                arcs.update(
                    first_arc_to(arcs, to),
                    Arc { adj_node: to, weight, center_node: center },
                ),
            ),
            in_arcs: self.in_arcs.update(
                to as int,
                with_arcs_to_set(self.in_arcs[to as int], from, weight, center),
            ),
        }
    }

    /// Where there is an arc from `from` to `to` it is made lighter if the given weight is
    /// smaller than its own; where there is none, one is added.
    pub open spec fn add_or_reduce(self, from: NodeId, to: NodeId, weight: Weight, center: NodeId) -> ArcLists {
        let arcs = self.out_arcs[from as int];
        if has_arc_to(arcs, to) {
            if arcs[first_arc_to(arcs, to)].weight <= weight {
                self
            } else {
                self.set_arc(from, to, weight, center)
            }
        } else {
            self.add_arc(from, to, weight, center)
        }
    }

    /// Without any arc that leaves or enters `node`.
    pub open spec fn disconnect(self, node: NodeId) -> ArcLists {
        ArcLists {
            out_arcs: Seq::new(
                self.out_arcs.len(),
                |u: int|
                    if u == node {
                        Seq::<Arc>::empty()
                    } else {
                        without_arcs_to(self.out_arcs[u], node)
                    },
            ),
            in_arcs: Seq::new(
                self.in_arcs.len(),
                |u: int|
                    if u == node {
                        Seq::<Arc>::empty()
                    } else {
                        without_arcs_to(self.in_arcs[u], node)
                    },
            ),
        }
    }

    /// No node has two leaving arcs to the same node, two entering arcs from the same
    /// node, or an arc to itself.
    pub open spec fn simple(self) -> bool {
        &&& forall|u: int|
            0 <= u < self.out_arcs.len() ==> distinct_ends(#[trigger] self.out_arcs[u])
                && !has_arc_to(self.out_arcs[u], u as usize)
        &&& forall|u: int|
            0 <= u < self.in_arcs.len() ==> distinct_ends(#[trigger] self.in_arcs[u])
                && !has_arc_to(self.in_arcs[u], u as usize)
    }

    /// Every leaving arc is an entering arc of the node it leads to, with the same
    /// weight and center, and the other way round.
    pub open spec fn symmetric(self) -> bool {
        &&& forall|u: int, i: int|
            0 <= u < self.out_arcs.len() && 0 <= i < self.out_arcs[u].len() ==> {
                let a = #[trigger] self.out_arcs[u][i];
                self.in_arcs[a.adj_node as int].contains(
                    Arc { adj_node: u as usize, weight: a.weight, center_node: a.center_node },
                )
            }
        &&& forall|u: int, i: int|
            0 <= u < self.in_arcs.len() && 0 <= i < self.in_arcs[u].len() ==> {
                let a = #[trigger] self.in_arcs[u][i];
                self.out_arcs[a.adj_node as int].contains(
                    Arc { adj_node: u as usize, weight: a.weight, center_node: a.center_node },
                )
            }
    }

    /// What the preparation keeps true of its graph.
    pub open spec fn consistent(self) -> bool {
        &&& self.wf()
        &&& self.out_arcs.len() <= usize::MAX
        &&& self.simple()
        &&& self.symmetric()
    }

    /// The graph of `n` nodes with an arc for each of `edges`, added in their order.
    pub open spec fn from_edges(edges: Seq<Edge>, n: nat) -> ArcLists
        decreases edges.len(),
    {
        if edges.len() == 0 {
            ArcLists::empty(n)
        } else {
            let e = edges.last();
            ArcLists::from_edges(edges.drop_last(), n).add_arc(e.from, e.to, e.weight, INVALID_NODE)
        }
    }
}

/// The arc as the node at its other end sees it.
pub open spec fn mirrored(arc: Arc, node: int) -> Arc {
    Arc { adj_node: node as usize, weight: arc.weight, center_node: arc.center_node }
}

/// Adding an arc between two different nodes that had none keeps a graph consistent.
pub proof fn lemma_add_arc_consistent(g: ArcLists, from: NodeId, to: NodeId, weight: Weight, center: NodeId)
    requires
        g.consistent(),
        from != to,
        from < g.num_nodes(),
        to < g.num_nodes(),
        !has_arc_to(g.out_arcs[from as int], to),
    ensures
        g.add_arc(from, to, weight, center).consistent(),
{
    let h = g.add_arc(from, to, weight, center);
    let fwd = Arc { adj_node: to, weight, center_node: center };
    let bwd = Arc { adj_node: from, weight, center_node: center };
    let n = g.num_nodes() as int;
    if has_arc_to(g.in_arcs[to as int], from) {
        let k = choose|k: int|
            0 <= k < g.in_arcs[to as int].len() && (#[trigger] g.in_arcs[to as int][k]).adj_node
                == from;
        let a = g.in_arcs[to as int][k];
        assert(g.out_arcs[from as int].contains(mirrored(a, to as int)));
        let m = choose|m: int|
            0 <= m < g.out_arcs[from as int].len() && g.out_arcs[from as int][m] == mirrored(
                a,
                to as int,
            );
        assert(g.out_arcs[from as int][m].adj_node == to);
    }
    assert forall|u: int, i: int| 0 <= u < n && 0 <= i < h.out_arcs[u].len() implies (
    #[trigger] h.out_arcs[u][i]).adj_node < n by {
        if u == from && i == g.out_arcs[u].len() {
        } else {
            assert(h.out_arcs[u][i] == g.out_arcs[u][i]);
        }
    }
    assert forall|u: int, i: int| 0 <= u < n && 0 <= i < h.in_arcs[u].len() implies (
    #[trigger] h.in_arcs[u][i]).adj_node < n by {
        if u == to && i == g.in_arcs[u].len() {
        } else {
            assert(h.in_arcs[u][i] == g.in_arcs[u][i]);
        }
    }
    assert forall|u: int| 0 <= u < n implies distinct_ends(#[trigger] h.out_arcs[u]) && !has_arc_to(
        h.out_arcs[u],
        u as usize,
    ) by {
        let old_arcs = g.out_arcs[u];
        let arcs = h.out_arcs[u];
        assert(distinct_ends(old_arcs) && !has_arc_to(old_arcs, u as usize));
        if u == from {
            assert forall|i: int, j: int| 0 <= i < j < arcs.len() implies (#[trigger] arcs[i]).adj_node
                != (#[trigger] arcs[j]).adj_node by {
                if j == old_arcs.len() {
                    assert(old_arcs[i].adj_node != to);
                } else {
                    assert(old_arcs[i].adj_node != old_arcs[j].adj_node);
                }
            }
            if has_arc_to(arcs, u as usize) {
                let k = choose|k: int| 0 <= k < arcs.len() && (#[trigger] arcs[k]).adj_node == u;
                if k < old_arcs.len() {
                    assert(old_arcs[k].adj_node == u);
                }
            }
        }
    }
    assert forall|u: int| 0 <= u < n implies distinct_ends(#[trigger] h.in_arcs[u]) && !has_arc_to(
        h.in_arcs[u],
        u as usize,
    ) by {
        let old_arcs = g.in_arcs[u];
        let arcs = h.in_arcs[u];
        assert(distinct_ends(old_arcs) && !has_arc_to(old_arcs, u as usize));
        if u == to {
            assert forall|i: int, j: int| 0 <= i < j < arcs.len() implies (#[trigger] arcs[i]).adj_node
                != (#[trigger] arcs[j]).adj_node by {
                if j == old_arcs.len() {
                    assert(old_arcs[i].adj_node != from);
                } else {
                    assert(old_arcs[i].adj_node != old_arcs[j].adj_node);
                }
            }
            if has_arc_to(arcs, u as usize) {
                let k = choose|k: int| 0 <= k < arcs.len() && (#[trigger] arcs[k]).adj_node == u;
                if k < old_arcs.len() {
                    assert(old_arcs[k].adj_node == u);
                }
            }
        }
    }
    assert forall|u: int, i: int| 0 <= u < n && 0 <= i < h.out_arcs[u].len() implies {
        let a = #[trigger] h.out_arcs[u][i];
        h.in_arcs[a.adj_node as int].contains(mirrored(a, u))
    } by {
        let a = h.out_arcs[u][i];
        if u == from && i == g.out_arcs[u].len() {
            assert(h.in_arcs[to as int][g.in_arcs[to as int].len() as int] == bwd);
        } else {
            assert(a == g.out_arcs[u][i]);
            let list = g.in_arcs[a.adj_node as int];
            assert(list.contains(mirrored(a, u)));
            let k = choose|k: int| 0 <= k < list.len() && list[k] == mirrored(a, u);
            assert(h.in_arcs[a.adj_node as int][k] == mirrored(a, u));
        }
    }
    assert forall|u: int, i: int| 0 <= u < n && 0 <= i < h.in_arcs[u].len() implies {
        let a = #[trigger] h.in_arcs[u][i];
        h.out_arcs[a.adj_node as int].contains(mirrored(a, u))
    } by {
        let a = h.in_arcs[u][i];
        if u == to && i == g.in_arcs[u].len() {
            assert(h.out_arcs[from as int][g.out_arcs[from as int].len() as int] == fwd);
        } else {
            assert(a == g.in_arcs[u][i]);
            let list = g.out_arcs[a.adj_node as int];
            assert(list.contains(mirrored(a, u)));
            let k = choose|k: int| 0 <= k < list.len() && list[k] == mirrored(a, u);
            assert(h.out_arcs[a.adj_node as int][k] == mirrored(a, u));
        }
    }
}

/// Changing weight and center of the arc between two nodes keeps a graph consistent.
pub proof fn lemma_set_arc_consistent(g: ArcLists, from: NodeId, to: NodeId, weight: Weight, center: NodeId)
    requires
        g.consistent(),
        from < g.num_nodes(),
        to < g.num_nodes(),
        has_arc_to(g.out_arcs[from as int], to),
    ensures
        g.set_arc(from, to, weight, center).consistent(),
{
    let h = g.set_arc(from, to, weight, center);
    let fwd = Arc { adj_node: to, weight, center_node: center };
    let bwd = Arc { adj_node: from, weight, center_node: center };
    let n = g.num_nodes() as int;
    let outs = g.out_arcs[from as int];
    let ins = g.in_arcs[to as int];
    let w = choose|w: int| 0 <= w < outs.len() && (#[trigger] outs[w]).adj_node == to;
    assert(distinct_ends(outs));
    assert(distinct_ends(ins));
    assert(is_first_arc_to(outs, to, w)) by {
        assert forall|j: int| 0 <= j < w implies (#[trigger] outs[j]).adj_node != to by {
            assert(outs[j].adj_node != outs[w].adj_node);
        }
    }
    lemma_first_arc_to(outs, to, w);
    let p = first_arc_to(outs, to);
    assert(p == w);
    assert(ins.contains(mirrored(outs[p], from as int)));
    let q = choose|q: int| 0 <= q < ins.len() && ins[q] == mirrored(outs[p], from as int);
    assert(h.in_arcs[to as int][q] == bwd);
    assert(h.out_arcs[from as int][p] == fwd);
    assert forall|u: int, i: int| 0 <= u < n && 0 <= i < h.out_arcs[u].len() implies (
    #[trigger] h.out_arcs[u][i]).adj_node == g.out_arcs[u][i].adj_node by {
        if u == from && i == p {
        } else {
            assert(h.out_arcs[u][i] == g.out_arcs[u][i]);
        }
    }
    assert forall|u: int, i: int| 0 <= u < n && 0 <= i < h.in_arcs[u].len() implies (
    #[trigger] h.in_arcs[u][i]).adj_node == g.in_arcs[u][i].adj_node by {
        if u == to {
        } else {
            assert(h.in_arcs[u][i] == g.in_arcs[u][i]);
        }
    }
    assert forall|u: int| 0 <= u < n implies distinct_ends(#[trigger] h.out_arcs[u]) && !has_arc_to(
        h.out_arcs[u],
        u as usize,
    ) by {
        let old_arcs = g.out_arcs[u];
        let arcs = h.out_arcs[u];
        assert(distinct_ends(old_arcs) && !has_arc_to(old_arcs, u as usize));
        assert forall|i: int, j: int| 0 <= i < j < arcs.len() implies (#[trigger] arcs[i]).adj_node
            != (#[trigger] arcs[j]).adj_node by {
            assert(old_arcs[i].adj_node != old_arcs[j].adj_node);
        }
        if has_arc_to(arcs, u as usize) {
            let k = choose|k: int| 0 <= k < arcs.len() && (#[trigger] arcs[k]).adj_node == u;
            assert(old_arcs[k].adj_node == u);
        }
    }
    assert forall|u: int| 0 <= u < n implies distinct_ends(#[trigger] h.in_arcs[u]) && !has_arc_to(
        h.in_arcs[u],
        u as usize,
    ) by {
        let old_arcs = g.in_arcs[u];
        let arcs = h.in_arcs[u];
        assert(distinct_ends(old_arcs) && !has_arc_to(old_arcs, u as usize));
        assert forall|i: int, j: int| 0 <= i < j < arcs.len() implies (#[trigger] arcs[i]).adj_node
            != (#[trigger] arcs[j]).adj_node by {
            assert(old_arcs[i].adj_node != old_arcs[j].adj_node);
        }
        if has_arc_to(arcs, u as usize) {
            let k = choose|k: int| 0 <= k < arcs.len() && (#[trigger] arcs[k]).adj_node == u;
            assert(old_arcs[k].adj_node == u);
        }
    }
    assert forall|u: int, i: int| 0 <= u < n && 0 <= i < h.out_arcs[u].len() implies {
        let a = #[trigger] h.out_arcs[u][i];
        h.in_arcs[a.adj_node as int].contains(mirrored(a, u))
    } by {
        let a = h.out_arcs[u][i];
        if u == from && i == p {
        } else {
            let b = g.out_arcs[u][i];
            assert(a == b);
            let list = g.in_arcs[b.adj_node as int];
            assert(list.contains(mirrored(b, u)));
            let k = choose|k: int| 0 <= k < list.len() && list[k] == mirrored(b, u);
            if b.adj_node == to {
                if u == from {
                    assert(outs[i].adj_node != outs[p].adj_node);
                }
                assert(h.in_arcs[to as int][k] == mirrored(b, u));
            } else {
                assert(h.in_arcs[b.adj_node as int][k] == mirrored(b, u));
            }
        }
    }
    assert forall|u: int, i: int| 0 <= u < n && 0 <= i < h.in_arcs[u].len() implies {
        let a = #[trigger] h.in_arcs[u][i];
        h.out_arcs[a.adj_node as int].contains(mirrored(a, u))
    } by {
        let a = h.in_arcs[u][i];
        let b = g.in_arcs[u][i];
        if u == to && b.adj_node == from {
            assert(a == bwd);
        } else {
            assert(a == b);
            let list = g.out_arcs[b.adj_node as int];
            assert(list.contains(mirrored(b, u)));
            let k = choose|k: int| 0 <= k < list.len() && list[k] == mirrored(b, u);
            if b.adj_node == from {
                assert(k != p);
                assert(h.out_arcs[from as int][k] == mirrored(b, u));
            } else {
                assert(h.out_arcs[b.adj_node as int][k] == mirrored(b, u));
            }
        }
    }
}

/// Adding a shortcut between two different nodes, or making the arc between them
/// lighter, keeps a graph consistent.
pub proof fn lemma_add_or_reduce_consistent(
    g: ArcLists,
    from: NodeId,
    to: NodeId,
    weight: Weight,
    center: NodeId,
)
    requires
        g.consistent(),
        from != to,
        from < g.num_nodes(),
        to < g.num_nodes(),
    ensures
        g.add_or_reduce(from, to, weight, center).consistent(),
        g.add_or_reduce(from, to, weight, center).num_nodes() == g.num_nodes(),
        forall|u: int|
            0 <= u < g.num_nodes() && u != from ==> g.add_or_reduce(
                from,
                to,
                weight,
                center,
            ).out_arcs[u] == g.out_arcs[u],
        forall|u: int|
            0 <= u < g.num_nodes() && u != to ==> g.add_or_reduce(
                from,
                to,
                weight,
                center,
            ).in_arcs[u] == g.in_arcs[u],
{
    if has_arc_to(g.out_arcs[from as int], to) {
        lemma_set_arc_consistent(g, from, to, weight, center);
    } else {
        lemma_add_arc_consistent(g, from, to, weight, center);
    }
}

/// Cutting a node out keeps a graph consistent.
pub proof fn lemma_disconnect_consistent(g: ArcLists, node: NodeId)
    requires
        g.consistent(),
    ensures
        g.disconnect(node).consistent(),
        g.disconnect(node).num_nodes() == g.num_nodes(),
{
    let h = g.disconnect(node);
    let n = g.num_nodes() as int;
    assert forall|u: int, i: int| 0 <= u < n && 0 <= i < h.out_arcs[u].len() implies (
    #[trigger] h.out_arcs[u][i]).adj_node < n && g.out_arcs[u].contains(h.out_arcs[u][i])
        && h.out_arcs[u][i].adj_node != node && u != node by {
        let a = h.out_arcs[u][i];
        assert(h.out_arcs[u].contains(a));
        lemma_without_contains(g.out_arcs[u], node, a);
        let k = choose|k: int| 0 <= k < g.out_arcs[u].len() && g.out_arcs[u][k] == a;
        assert(g.out_arcs[u][k].adj_node < n);
    }
    assert forall|u: int, i: int| 0 <= u < n && 0 <= i < h.in_arcs[u].len() implies (
    #[trigger] h.in_arcs[u][i]).adj_node < n && g.in_arcs[u].contains(h.in_arcs[u][i])
        && h.in_arcs[u][i].adj_node != node && u != node by {
        let a = h.in_arcs[u][i];
        assert(h.in_arcs[u].contains(a));
        lemma_without_contains(g.in_arcs[u], node, a);
        let k = choose|k: int| 0 <= k < g.in_arcs[u].len() && g.in_arcs[u][k] == a;
        assert(g.in_arcs[u][k].adj_node < n);
    }
    assert forall|u: int| 0 <= u < n implies distinct_ends(#[trigger] h.out_arcs[u]) && !has_arc_to(
        h.out_arcs[u],
        u as usize,
    ) by {
        let arcs = h.out_arcs[u];
        assert(distinct_ends(g.out_arcs[u]) && !has_arc_to(g.out_arcs[u], u as usize));
        if u != node {
            lemma_without_distinct(g.out_arcs[u], node);
        }
        if has_arc_to(arcs, u as usize) {
            let k = choose|k: int| 0 <= k < arcs.len() && (#[trigger] arcs[k]).adj_node == u;
            assert(g.out_arcs[u].contains(arcs[k]));
            let m = choose|m: int| 0 <= m < g.out_arcs[u].len() && g.out_arcs[u][m] == arcs[k];
            assert(g.out_arcs[u][m].adj_node == u);
        }
    }
    assert forall|u: int| 0 <= u < n implies distinct_ends(#[trigger] h.in_arcs[u]) && !has_arc_to(
        h.in_arcs[u],
        u as usize,
    ) by {
        let arcs = h.in_arcs[u];
        assert(distinct_ends(g.in_arcs[u]) && !has_arc_to(g.in_arcs[u], u as usize));
        if u != node {
            lemma_without_distinct(g.in_arcs[u], node);
        }
        if has_arc_to(arcs, u as usize) {
            let k = choose|k: int| 0 <= k < arcs.len() && (#[trigger] arcs[k]).adj_node == u;
            assert(g.in_arcs[u].contains(arcs[k]));
            let m = choose|m: int| 0 <= m < g.in_arcs[u].len() && g.in_arcs[u][m] == arcs[k];
            assert(g.in_arcs[u][m].adj_node == u);
        }
    }
    assert forall|u: int, i: int| 0 <= u < n && 0 <= i < h.out_arcs[u].len() implies {
        let a = #[trigger] h.out_arcs[u][i];
        h.in_arcs[a.adj_node as int].contains(mirrored(a, u))
    } by {
        let a = h.out_arcs[u][i];
        let k = choose|k: int| 0 <= k < g.out_arcs[u].len() && g.out_arcs[u][k] == a;
        assert(g.in_arcs[g.out_arcs[u][k].adj_node as int].contains(mirrored(a, u)));
        lemma_without_contains(g.in_arcs[a.adj_node as int], node, mirrored(a, u));
    }
    assert forall|u: int, i: int| 0 <= u < n && 0 <= i < h.in_arcs[u].len() implies {
        let a = #[trigger] h.in_arcs[u][i];
        h.out_arcs[a.adj_node as int].contains(mirrored(a, u))
    } by {
        let a = h.in_arcs[u][i];
        let k = choose|k: int| 0 <= k < g.in_arcs[u].len() && g.in_arcs[u][k] == a;
        assert(g.out_arcs[g.in_arcs[u][k].adj_node as int].contains(mirrored(a, u)));
        lemma_without_contains(g.out_arcs[a.adj_node as int], node, mirrored(a, u));
    }
}

/// The graph made of valid edges without duplicates is consistent, and each of its
/// arcs is one of the edges.
pub proof fn lemma_from_edges_consistent(edges: Seq<Edge>, n: usize)
    requires
        crate::input_graph::edges_valid(edges, n),
        crate::input_graph::strictly_sorted(edges),
    ensures
        ArcLists::from_edges(edges, n as nat).consistent(),
        ArcLists::from_edges(edges, n as nat).num_nodes() == n,
        forall|u: int, i: int|
            0 <= u < n && 0 <= i < ArcLists::from_edges(edges, n as nat).out_arcs[u].len() ==> {
                let a = #[trigger] ArcLists::from_edges(edges, n as nat).out_arcs[u][i];
                a.center_node == INVALID_NODE && edges.contains(
                    Edge { from: u as usize, to: a.adj_node, weight: a.weight },
                )
            },
    decreases edges.len(),
{
    let g = ArcLists::from_edges(edges, n as nat);
    if edges.len() == 0 {
        assert forall|u: int| 0 <= u < n implies distinct_ends(#[trigger] g.out_arcs[u]) && !has_arc_to(
            g.out_arcs[u],
            u as usize,
        ) by {}
        assert forall|u: int| 0 <= u < n implies distinct_ends(#[trigger] g.in_arcs[u]) && !has_arc_to(
            g.in_arcs[u],
            u as usize,
        ) by {}
    } else {
        let front = edges.drop_last();
        let e = edges.last();
        let m = edges.len() - 1;
        assert(edges[m] == e);
        assert forall|i: int| 0 <= i < front.len() implies {
            let x = #[trigger] front[i];
            x.from != x.to && x.weight >= 1 && x.from < n && x.to < n
        } by {
            assert(front[i] == edges[i]);
        }
        assert forall|i: int, j: int| 0 <= i < j < front.len() implies crate::input_graph::ends_before(
            front[i],
            front[j],
        ) by {
            assert(crate::input_graph::ends_before(edges[i], edges[j]));
        }
        lemma_from_edges_consistent(front, n);
        let f = ArcLists::from_edges(front, n as nat);
        if has_arc_to(f.out_arcs[e.from as int], e.to) {
            let k = choose|k: int|
                0 <= k < f.out_arcs[e.from as int].len() && (
                #[trigger] f.out_arcs[e.from as int][k]).adj_node == e.to;
            let a = f.out_arcs[e.from as int][k];
            let twin = Edge { from: e.from, to: a.adj_node, weight: a.weight };
            assert(front.contains(twin));
            let j = choose|j: int| 0 <= j < front.len() && front[j] == twin;
            assert(crate::input_graph::ends_before(edges[j], edges[m]));
        }
        lemma_add_arc_consistent(f, e.from, e.to, e.weight, INVALID_NODE);
        assert forall|u: int, i: int| 0 <= u < n && 0 <= i < g.out_arcs[u].len() implies {
            let a = #[trigger] g.out_arcs[u][i];
            a.center_node == INVALID_NODE && edges.contains(
                Edge { from: u as usize, to: a.adj_node, weight: a.weight },
            )
        } by {
            let a = g.out_arcs[u][i];
            if u == e.from && i == f.out_arcs[u].len() {
                assert(edges[m] == Edge { from: u as usize, to: a.adj_node, weight: a.weight });
            } else {
                assert(a == f.out_arcs[u][i]);
                let twin = Edge { from: u as usize, to: a.adj_node, weight: a.weight };
                assert(front.contains(twin));
                let j = choose|j: int| 0 <= j < front.len() && front[j] == twin;
                assert(edges[j] == twin);
            }
        }
    }
}

/// The graph that the preparation works on: for each node the arcs that leave it and
/// the arcs that enter it. Shortcuts are added to it and contracted nodes are cut out.
pub struct PreparationGraph {
    out_edges: Vec<Vec<Arc>>,
    in_edges: Vec<Vec<Arc>>,
    num_nodes: usize,
}

impl View for PreparationGraph {
    type V = ArcLists;

    closed spec fn view(&self) -> ArcLists {
        ArcLists {
            out_arcs: Seq::new(self.out_edges@.len(), |u: int| self.out_edges@[u]@),
            in_arcs: Seq::new(self.in_edges@.len(), |u: int| self.in_edges@[u]@),
        }
    }
}

impl PreparationGraph {
    /// Both lists have one entry per node.
    pub closed spec fn wf(&self) -> bool {
        &&& self.out_edges@.len() == self.num_nodes
        &&& self.in_edges@.len() == self.num_nodes
    }

    pub fn new(num_nodes: usize) -> (graph: Self)
        ensures
            graph.wf(),
            graph@ == ArcLists::empty(num_nodes as nat),
    {
        let mut out_edges: Vec<Vec<Arc>> = Vec::new();
        let mut in_edges: Vec<Vec<Arc>> = Vec::new();
        let mut i: usize = 0;
        while i < num_nodes
            invariant
                i <= num_nodes,
                out_edges@.len() == i,
                in_edges@.len() == i,
                forall|u: int| 0 <= u < i ==> (#[trigger] out_edges@[u])@ == Seq::<Arc>::empty(),
                forall|u: int| 0 <= u < i ==> (#[trigger] in_edges@[u])@ == Seq::<Arc>::empty(),
            decreases num_nodes - i,
        {
            out_edges.push(Vec::new());
            in_edges.push(Vec::new());
            i += 1;
        }
        let graph = PreparationGraph { out_edges, in_edges, num_nodes };
        assert(graph@.out_arcs =~= ArcLists::empty(num_nodes as nat).out_arcs);
        assert(graph@.in_arcs =~= ArcLists::empty(num_nodes as nat).in_arcs);
        graph
    }

    /// The graph with the nodes and edges of a frozen input graph.
    pub fn from_input_graph(input_graph: &InputGraph) -> (graph: Self)
        requires
            input_graph.wf(),
            input_graph.is_frozen(),
        ensures
            graph.wf(),
            graph@ == ArcLists::from_edges(
                input_graph.spec_edges(),
                input_graph.spec_num_nodes() as nat,
            ),
    {
        let n = input_graph.get_num_nodes();
        let mut graph = PreparationGraph::new(n);
        let edges = input_graph.get_edges();
        let mut i: usize = 0;
        while i < edges.len()
            invariant
                i <= edges@.len(),
                edges@ == input_graph.spec_edges(),
                n == input_graph.spec_num_nodes(),
                input_graph.wf(),
                graph.wf(),
                graph@.num_nodes() == n,
                graph@.in_arcs.len() == n,
                graph@ == ArcLists::from_edges(edges@.take(i as int), n as nat),
            decreases edges@.len() - i,
        {
            let e = edges[i];
            proof {
                assert(edges@.take(i + 1).drop_last() =~= edges@.take(i as int));
                assert(edges@.take(i + 1).last() == e);
                assert(e.from < n && e.to < n);
            }
            graph.add_edge(e.from, e.to, e.weight);
            i += 1;
        }
        proof {
            assert(edges@.take(i as int) =~= edges@);
        }
        graph
    }

    /// Adds an edge of the input.
    pub fn add_edge(&mut self, from: NodeId, to: NodeId, weight: Weight)
        requires
            old(self).wf(),
            from < old(self)@.num_nodes(),
            to < old(self)@.num_nodes(),
        ensures
            final(self).wf(),
            final(self)@ == old(self)@.add_arc(from, to, weight, INVALID_NODE),
            final(self)@.num_nodes() == old(self)@.num_nodes(),
            final(self)@.in_arcs.len() == old(self)@.in_arcs.len(),
    {
        self.add_edge_or_shortcut(from, to, weight, INVALID_NODE);
    }

    /// Adds an arc to the lists of both of its nodes.
    pub fn add_edge_or_shortcut(&mut self, from: NodeId, to: NodeId, weight: Weight, center_node: NodeId)
        requires
            old(self).wf(),
            from < old(self)@.num_nodes(),
            to < old(self)@.num_nodes(),
        ensures
            final(self).wf(),
            final(self)@ == old(self)@.add_arc(from, to, weight, center_node),
            final(self)@.num_nodes() == old(self)@.num_nodes(),
            final(self)@.in_arcs.len() == old(self)@.in_arcs.len(),
    {
        self.out_edges[from].push(Arc::new(to, weight, center_node));
        self.in_edges[to].push(Arc::new(from, weight, center_node));
        proof {
            let want = old(self)@.add_arc(from, to, weight, center_node);
            assert(self@.out_arcs =~= want.out_arcs);
            assert(self@.in_arcs =~= want.in_arcs);
        }
    }

    /// Makes the arc from `from` to `to` lighter where the given weight is smaller than
    /// its own, and adds the arc where there is none.
    pub fn add_or_reduce_edge(&mut self, from: NodeId, to: NodeId, weight: Weight, center_node: NodeId)
        requires
            old(self).wf(),
            from < old(self)@.num_nodes(),
            to < old(self)@.num_nodes(),
        ensures
            final(self).wf(),
            final(self)@ == old(self)@.add_or_reduce(from, to, weight, center_node),
            final(self)@.num_nodes() == old(self)@.num_nodes(),
            final(self)@.in_arcs.len() == old(self)@.in_arcs.len(),
    {
        if self.reduce_edge(from, to, weight, center_node) {
            return ;
        }
        self.add_edge_or_shortcut(from, to, weight, center_node);
    }

    /// Makes the arc from `from` to `to` lighter where the given weight is smaller than
    /// its own. Returns whether there is such an arc.
    fn reduce_edge(&mut self, from: NodeId, to: NodeId, weight: Weight, center_node: NodeId) -> (found:
        bool)
        requires
            old(self).wf(),
            from < old(self)@.num_nodes(),
            to < old(self)@.num_nodes(),
        ensures
            final(self).wf(),
            found == has_arc_to(old(self)@.out_arcs[from as int], to),
            found ==> final(self)@ == old(self)@.add_or_reduce(from, to, weight, center_node),
            !found ==> final(self)@ == old(self)@,
            final(self)@.num_nodes() == old(self)@.num_nodes(),
            final(self)@.in_arcs.len() == old(self)@.in_arcs.len(),
    {
        let ghost arcs = self@.out_arcs[from as int];
        let n = self.out_edges[from].len();
        let mut i: usize = 0;
        while i < n
            invariant
                i <= n,
                self.wf(),
                self@ == old(self)@,
                from < self@.num_nodes(),
                to < self@.num_nodes(),
                arcs == self@.out_arcs[from as int],
                n == arcs.len(),
                forall|j: int| 0 <= j < i ==> (#[trigger] arcs[j]).adj_node != to,
            decreases n - i,
        {
            let out_edge = self.out_edges[from][i];
            if out_edge.adj_node == to {
                proof {
                    lemma_first_arc_to(arcs, to, i as int);
                }
                if out_edge.weight <= weight {
                    return true;
                }
                self.out_edges[from][i] = Arc::new(to, weight, center_node);
                let m = self.in_edges[to].len();
                let ghost in_before = self@.in_arcs[to as int];
                let mut k: usize = 0;
                while k < m
                    invariant
                        k <= m,
                        self.wf(),
                        from < self@.num_nodes(),
                        to < self@.num_nodes(),
                        self@.in_arcs.len() == old(self)@.in_arcs.len(),
                        m == in_before.len(),
                        in_before == old(self)@.in_arcs[to as int],
                        self@.out_arcs == old(self)@.out_arcs.update(
                            from as int,
                            arcs.update(
                                i as int,
                                Arc { adj_node: to, weight, center_node },
                            ),
                        ),
                        self@.in_arcs[to as int].len() == m,
                        forall|u: int|
                            0 <= u < self@.in_arcs.len() && u != to ==> self@.in_arcs[u] == old(
                                self,
                            )@.in_arcs[u],
                        forall|j: int|
                            0 <= j < k ==> self@.in_arcs[to as int][j] == with_arcs_to_set(
                                in_before,
                                from,
                                weight,
                                center_node,
                            )[j],
                        forall|j: int|
                            k <= j < m ==> self@.in_arcs[to as int][j] == in_before[j],
                    decreases m - k,
                {
                    let in_edge = self.in_edges[to][k];
                    if in_edge.adj_node == from {
                        let ghost before = self@;
                        self.in_edges[to][k] = Arc::new(from, weight, center_node);
                        proof {
                            assert(self@.out_arcs =~= before.out_arcs);
                            assert(self@.in_arcs[to as int] =~= before.in_arcs[to as int].update(
                                k as int,
                                Arc { adj_node: from, weight, center_node },
                            ));
                        }
                    }
                    k += 1;
                }
                proof {
                    let want = old(self)@.set_arc(from, to, weight, center_node);
                    assert(self@.in_arcs[to as int] =~= with_arcs_to_set(
                        in_before,
                        from,
                        weight,
                        center_node,
                    ));
                    assert(self@.in_arcs =~= want.in_arcs);
                    assert(self@.out_arcs =~= want.out_arcs);
                }
                return true;
            }
            i += 1;
        }
        proof {
            if has_arc_to(arcs, to) {
                let j = choose|j: int| 0 <= j < arcs.len() && (#[trigger] arcs[j]).adj_node == to;
                assert(arcs[j].adj_node != to);
            }
        }
        false
    }

    pub fn get_num_nodes(&self) -> (n: usize)
        requires
            self.wf(),
        ensures
            n == self@.num_nodes(),
            n == self@.in_arcs.len(),
    {
        self.num_nodes
    }

    /// The arcs that leave `node`.
    pub fn get_out_edges(&self, node: NodeId) -> (arcs: &Vec<Arc>)
        requires
            self.wf(),
            node < self@.num_nodes(),
        ensures
            arcs@ == self@.out_arcs[node as int],
    {
        &self.out_edges[node]
    }

    /// The arcs that enter `node`.
    pub fn get_in_edges(&self, node: NodeId) -> (arcs: &Vec<Arc>)
        requires
            self.wf(),
            node < self@.num_nodes(),
        ensures
            arcs@ == self@.in_arcs[node as int],
    {
        &self.in_edges[node]
    }

    /// Cuts `node` out of the graph: takes away every arc that leaves or enters it.
    pub fn disconnect(&mut self, node: NodeId)
        requires
            old(self).wf(),
            node < old(self)@.num_nodes(),
            old(self)@.consistent(),
        ensures
            final(self).wf(),
            final(self)@ == old(self)@.disconnect(node),
    {
        let ghost g0 = self@;
        let n_out = self.out_edges[node].len();
        let mut i: usize = 0;
        while i < n_out
            invariant
                i <= n_out,
                self.wf(),
                node < g0.num_nodes(),
                g0.consistent(),
                self@.out_arcs == g0.out_arcs,
                self@.in_arcs.len() == g0.in_arcs.len(),
                n_out == g0.out_arcs[node as int].len(),
                forall|x: int|
                    0 <= x < g0.num_nodes() ==> #[trigger] self@.in_arcs[x] == (if has_arc_to(
                        g0.out_arcs[node as int].take(i as int),
                        x as usize,
                    ) {
                        without_arcs_to(g0.in_arcs[x], node)
                    } else {
                        g0.in_arcs[x]
                    }),
            decreases n_out - i,
        {
            let adj = self.out_edges[node][i].adj_node;
            let ghost arcs = g0.out_arcs[node as int];
            let ghost before = self@;
            proof {
                let a = arcs[i as int];
                assert(a.adj_node < g0.num_nodes());
                if has_arc_to(arcs.take(i as int), adj) {
                    let k = choose|k: int|
                        0 <= k < arcs.take(i as int).len() && (#[trigger] arcs.take(
                            i as int,
                        )[k]).adj_node == adj;
                    assert(arcs[k].adj_node != arcs[i as int].adj_node);
                }
                assert(self@.in_arcs[adj as int] == g0.in_arcs[adj as int]);
                let back = Arc { adj_node: node, weight: a.weight, center_node: a.center_node };
                assert(g0.in_arcs[adj as int].contains(back));
                let k = choose|k: int|
                    0 <= k < g0.in_arcs[adj as int].len() && g0.in_arcs[adj as int][k] == back;
                assert(g0.in_arcs[adj as int][k].adj_node == node);
                assert(distinct_ends(g0.in_arcs[adj as int]));
                lemma_without_one(g0.in_arcs[adj as int], node);
            }
            self.remove_in_edge(adj, node);
            proof {
                assert forall|x: int| 0 <= x < g0.num_nodes() implies #[trigger] self@.in_arcs[x] == (
                if has_arc_to(arcs.take(i + 1), x as usize) {
                    without_arcs_to(g0.in_arcs[x], node)
                } else {
                    g0.in_arcs[x]
                }) by {
                    assert(before.in_arcs[x] == (if has_arc_to(arcs.take(i as int), x as usize) {
                        without_arcs_to(g0.in_arcs[x], node)
                    } else {
                        g0.in_arcs[x]
                    }));
                    if has_arc_to(arcs.take(i as int), x as usize) {
                        let k = choose|k: int|
                            0 <= k < arcs.take(i as int).len() && (#[trigger] arcs.take(
                                i as int,
                            )[k]).adj_node == x;
                        assert(arcs.take(i + 1)[k].adj_node == x);
                    }
                    if has_arc_to(arcs.take(i + 1), x as usize) {
                        let k = choose|k: int|
                            0 <= k < arcs.take(i + 1).len() && (#[trigger] arcs.take(
                                i + 1,
                            )[k]).adj_node == x;
                        if k < i {
                            assert(arcs.take(i as int)[k].adj_node == x);
                        }
                    }
                    if x == adj {
                        assert(arcs.take(i + 1)[i as int].adj_node == x);
                    }
                }
            }
            i += 1;
        }
        let ghost g1 = self@;
        let n_in = self.in_edges[node].len();
        proof {
            assert(g0.out_arcs[node as int].take(n_out as int) =~= g0.out_arcs[node as int]);
            assert(!has_arc_to(g0.out_arcs[node as int], node));
            assert(g1.in_arcs[node as int] == g0.in_arcs[node as int]);
        }
        let mut i: usize = 0;
        while i < n_in
            invariant
                i <= n_in,
                self.wf(),
                node < g0.num_nodes(),
                g0.consistent(),
                self@.in_arcs == g1.in_arcs,
                g1.in_arcs[node as int] == g0.in_arcs[node as int],
                self@.out_arcs.len() == g0.out_arcs.len(),
                n_in == g0.in_arcs[node as int].len(),
                forall|x: int|
                    0 <= x < g0.num_nodes() ==> #[trigger] self@.out_arcs[x] == (if has_arc_to(
                        g0.in_arcs[node as int].take(i as int),
                        x as usize,
                    ) {
                        without_arcs_to(g0.out_arcs[x], node)
                    } else {
                        g0.out_arcs[x]
                    }),
            decreases n_in - i,
        {
            let adj = self.in_edges[node][i].adj_node;
            let ghost arcs = g0.in_arcs[node as int];
            let ghost before = self@;
            proof {
                let a = arcs[i as int];
                assert(self@.in_arcs[node as int][i as int] == a);
                assert(a.adj_node < g0.num_nodes());
                if has_arc_to(arcs.take(i as int), adj) {
                    let k = choose|k: int|
                        0 <= k < arcs.take(i as int).len() && (#[trigger] arcs.take(
                            i as int,
                        )[k]).adj_node == adj;
                    assert(arcs[k].adj_node != arcs[i as int].adj_node);
                }
                assert(self@.out_arcs[adj as int] == g0.out_arcs[adj as int]);
                let back = Arc { adj_node: node, weight: a.weight, center_node: a.center_node };
                assert(g0.out_arcs[adj as int].contains(back));
                let k = choose|k: int|
                    0 <= k < g0.out_arcs[adj as int].len() && g0.out_arcs[adj as int][k] == back;
                assert(g0.out_arcs[adj as int][k].adj_node == node);
                assert(distinct_ends(g0.out_arcs[adj as int]));
                lemma_without_one(g0.out_arcs[adj as int], node);
            }
            self.remove_out_edge(adj, node);
            proof {
                assert forall|x: int| 0 <= x < g0.num_nodes() implies #[trigger] self@.out_arcs[x] == (
                if has_arc_to(arcs.take(i + 1), x as usize) {
                    without_arcs_to(g0.out_arcs[x], node)
                } else {
                    g0.out_arcs[x]
                }) by {
                    assert(before.out_arcs[x] == (if has_arc_to(arcs.take(i as int), x as usize) {
                        without_arcs_to(g0.out_arcs[x], node)
                    } else {
                        g0.out_arcs[x]
                    }));
                    if has_arc_to(arcs.take(i as int), x as usize) {
                        let k = choose|k: int|
                            0 <= k < arcs.take(i as int).len() && (#[trigger] arcs.take(
                                i as int,
                            )[k]).adj_node == x;
                        assert(arcs.take(i + 1)[k].adj_node == x);
                    }
                    if has_arc_to(arcs.take(i + 1), x as usize) {
                        let k = choose|k: int|
                            0 <= k < arcs.take(i + 1).len() && (#[trigger] arcs.take(
                                i + 1,
                            )[k]).adj_node == x;
                        if k < i {
                            assert(arcs.take(i as int)[k].adj_node == x);
                        }
                    }
                    if x == adj {
                        assert(arcs.take(i + 1)[i as int].adj_node == x);
                    }
                }
            }
            i += 1;
        }
        let ghost g2 = self@;
        self.in_edges[node].clear();
        self.out_edges[node].clear();
        proof {
            assert(g0.in_arcs[node as int].take(n_in as int) =~= g0.in_arcs[node as int]);
            let want = g0.disconnect(node);
            assert forall|x: int| 0 <= x < g0.num_nodes() implies self@.in_arcs[x]
                == want.in_arcs[x] by {
                if x != node {
                    assert(self@.in_arcs[x] == g1.in_arcs[x]);
                    if !has_arc_to(g0.out_arcs[node as int], x as usize) {
                        if has_arc_to(g0.in_arcs[x], node) {
                            let k = choose|k: int|
                                0 <= k < g0.in_arcs[x].len() && (#[trigger] g0.in_arcs[x][k]).adj_node
                                    == node;
                            let a = g0.in_arcs[x][k];
                            let fwd = Arc {
                                adj_node: x as usize,
                                weight: a.weight,
                                center_node: a.center_node,
                            };
                            assert(g0.out_arcs[node as int].contains(fwd));
                            let m = choose|m: int|
                                0 <= m < g0.out_arcs[node as int].len() && g0.out_arcs[node as int][m]
                                    == fwd;
                            assert(g0.out_arcs[node as int][m].adj_node == x);
                        }
                        lemma_without_absent(g0.in_arcs[x], node);
                    }
                } else {
                    assert(self@.in_arcs[x] =~= Seq::<Arc>::empty());
                }
            }
            assert forall|x: int| 0 <= x < g0.num_nodes() implies self@.out_arcs[x]
                == want.out_arcs[x] by {
                if x != node {
                    assert(self@.out_arcs[x] == g2.out_arcs[x]);
                    if !has_arc_to(g0.in_arcs[node as int], x as usize) {
                        if has_arc_to(g0.out_arcs[x], node) {
                            let k = choose|k: int|
                                0 <= k < g0.out_arcs[x].len() && (
                                #[trigger] g0.out_arcs[x][k]).adj_node == node;
                            let a = g0.out_arcs[x][k];
                            let bwd = Arc {
                                adj_node: x as usize,
                                weight: a.weight,
                                center_node: a.center_node,
                            };
                            assert(g0.in_arcs[node as int].contains(bwd));
                            let m = choose|m: int|
                                0 <= m < g0.in_arcs[node as int].len() && g0.in_arcs[node as int][m]
                                    == bwd;
                            assert(g0.in_arcs[node as int][m].adj_node == x);
                        }
                        lemma_without_absent(g0.out_arcs[x], node);
                    }
                } else {
                    assert(self@.out_arcs[x] =~= Seq::<Arc>::empty());
                }
            }
            assert(self@.in_arcs =~= want.in_arcs);
            assert(self@.out_arcs =~= want.out_arcs);
        }
    }

    /// Takes the one arc to `adj` out of the arcs that leave `node`.
    pub fn remove_out_edge(&mut self, node: NodeId, adj: NodeId)
        requires
            old(self).wf(),
            node < old(self)@.num_nodes(),
            without_arcs_to(old(self)@.out_arcs[node as int], adj).len() + 1 == old(
                self,
            )@.out_arcs[node as int].len(),
        ensures
            final(self).wf(),
            final(self)@.out_arcs == old(self)@.out_arcs.update(
                node as int,
                without_arcs_to(old(self)@.out_arcs[node as int], adj),
            ),
            final(self)@.in_arcs == old(self)@.in_arcs,
    {
        PreparationGraph::remove_edge_with_adj_node(&mut self.out_edges[node], adj);
        proof {
            assert(self@.out_arcs =~= old(self)@.out_arcs.update(
                node as int,
                without_arcs_to(old(self)@.out_arcs[node as int], adj),
            ));
            assert(self@.in_arcs =~= old(self)@.in_arcs);
        }
    }

    /// Takes the one arc from `adj` out of the arcs that enter `node`.
    pub fn remove_in_edge(&mut self, node: NodeId, adj: NodeId)
        requires
            old(self).wf(),
            node < old(self)@.num_nodes(),
            without_arcs_to(old(self)@.in_arcs[node as int], adj).len() + 1 == old(
                self,
            )@.in_arcs[node as int].len(),
        ensures
            final(self).wf(),
            final(self)@.in_arcs == old(self)@.in_arcs.update(
                node as int,
                without_arcs_to(old(self)@.in_arcs[node as int], adj),
            ),
            final(self)@.out_arcs == old(self)@.out_arcs,
    {
        PreparationGraph::remove_edge_with_adj_node(&mut self.in_edges[node], adj);
        proof {
            assert(self@.in_arcs =~= old(self)@.in_arcs.update(
                node as int,
                without_arcs_to(old(self)@.in_arcs[node as int], adj),
            ));
            assert(self@.out_arcs =~= old(self)@.out_arcs);
        }
    }

    /// Takes the one arc to `adj` out of `edges`.
    pub fn remove_edge_with_adj_node(edges: &mut Vec<Arc>, adj: NodeId)
        requires
            without_arcs_to(old(edges)@, adj).len() + 1 == old(edges)@.len(),
        ensures
            final(edges)@ == without_arcs_to(old(edges)@, adj),
    {
        let mut kept: Vec<Arc> = Vec::new();
        let n = edges.len();
        let mut i: usize = 0;
        while i < n
            invariant
                i <= n,
                n == edges@.len(),
                edges@ == old(edges)@,
                kept@ == without_arcs_to(edges@.take(i as int), adj),
            decreases n - i,
        {
            let e = edges[i];
            proof {
                assert(edges@.take(i + 1).drop_last() =~= edges@.take(i as int));
            }
            if e.adj_node != adj {
                kept.push(e);
            }
            i += 1;
        }
        proof {
            assert(edges@.take(n as int) =~= edges@);
        }
        *edges = kept;
    }
}

} // verus!
