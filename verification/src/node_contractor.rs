use vstd::prelude::*;

use crate::constants::NodeId;
use crate::constants::Weight;
use crate::constants::WEIGHT_MAX;
use crate::params::Params;
use crate::preparation_graph::has_arc_to;
use crate::preparation_graph::lemma_add_or_reduce_consistent;
use crate::preparation_graph::lemma_disconnect_consistent;
use crate::preparation_graph::Arc;
use crate::preparation_graph::ArcLists;
use crate::preparation_graph::PreparationGraph;
use crate::witness_search::WitnessSearch;
use crate::witness_search::WitnessState;

verus! {

/// An edge that stands for the path from `from` over `center_node` to `to`.
#[derive(Debug, Copy, Clone, PartialEq, Eq, Structural)]
pub struct Shortcut {
    pub from: NodeId,
    pub to: NodeId,
    pub center_node: NodeId,
    pub weight: Weight,
}

impl Shortcut {
    pub fn new(from: NodeId, to: NodeId, center_node: NodeId, weight: Weight) -> (shortcut: Self)
        ensures
            shortcut == (Shortcut { from, to, center_node, weight }),
    {
        Shortcut { from, to, center_node, weight }
    }
}

/// Where the search for shortcuts at a node stands: the graph, the witness search, and
/// the shortcuts found so far.
pub struct Contraction {
    pub graph: ArcLists,
    pub search: WitnessState,
    pub shortcuts: Seq<Shortcut>,
}

/// Looks at the path over `node` that is made of one entering and one leaving arc. A
/// witness search from the start of the entering arc tells whether another path that
/// is not heavier leads to the end of the leaving arc. Where it finds none, a shortcut
/// is needed, and is added to the graph if `add` says so. A path whose weight is not
/// finite needs none.
pub open spec fn handle_pair(
    c: Contraction,
    node: NodeId,
    in_arc: Arc,
    out_arc: Arc,
    add: bool,
    max_settled_nodes: usize,
) -> Contraction {
    let weight = in_arc.weight + out_arc.weight;
    if weight >= WEIGHT_MAX {
        c
    } else {
        let (search, witness) = c.search.find(
            c.graph,
            out_arc.adj_node,
            weight as usize,
            max_settled_nodes,
        );
        if witness <= weight {
            Contraction { search, ..c }
        } else {
            Contraction {
                search,
                graph: if add {
                    c.graph.add_or_reduce(in_arc.adj_node, out_arc.adj_node, weight as usize, node)
                } else {
                    c.graph
                },
                shortcuts: c.shortcuts.push(
                    Shortcut {
                        from: in_arc.adj_node,
                        to: out_arc.adj_node,
                        center_node: node,
                        weight: weight as usize,
                    },
                ),
            }
        }
    }
}

/// Pairs one entering arc with the leaving arcs from position `j` on.
pub open spec fn handle_pairs_from(
    c: Contraction,
    node: NodeId,
    in_arc: Arc,
    outs: Seq<Arc>,
    j: int,
    add: bool,
    max_settled_nodes: usize,
) -> Contraction
    decreases outs.len() - j,
{
    if 0 <= j < outs.len() {
        handle_pairs_from(
            handle_pair(c, node, in_arc, outs[j], add, max_settled_nodes),
            node,
            in_arc,
            outs,
            j + 1,
            add,
            max_settled_nodes,
        )
    } else {
        c
    }
}

/// Pairs the entering arcs from position `i` on with all leaving arcs. For each
/// entering arc the witness search is started anew, at the node the arc comes from.
pub open spec fn handle_arcs_from(
    c: Contraction,
    node: NodeId,
    ins: Seq<Arc>,
    outs: Seq<Arc>,
    i: int,
    add: bool,
    max_settled_nodes: usize,
) -> Contraction
    decreases ins.len() - i,
{
    if 0 <= i < ins.len() {
        let started = Contraction {
            search: WitnessState::init(c.search.labels.len(), ins[i].adj_node, node),
            ..c
        };
        handle_arcs_from(
            handle_pairs_from(started, node, ins[i], outs, 0, add, max_settled_nodes),
            node,
            ins,
            outs,
            i + 1,
            add,
            max_settled_nodes,
        )
    } else {
        c
    }
}

/// Finds the shortcuts that are needed when `node` is taken out of the graph.
pub open spec fn handle(
    graph: ArcLists,
    search: WitnessState,
    node: NodeId,
    add: bool,
    max_settled_nodes: usize,
) -> Contraction {
    handle_arcs_from(
        Contraction { graph, search, shortcuts: Seq::empty() },
        node,
        graph.in_arcs[node as int],
        graph.out_arcs[node as int],
        0,
        add,
        max_settled_nodes,
    )
}

/// The arc `a` that leaves `u` is a shortcut over `node`: it has the end points and
/// the weight of entering arc `p` and leaving arc `q` of `node` taken together.
pub open spec fn bridges(graph: ArcLists, node: NodeId, p: int, q: int, u: int, a: Arc) -> bool {
    let ins = graph.in_arcs[node as int];
    let outs = graph.out_arcs[node as int];
    &&& 0 <= p < ins.len()
    &&& 0 <= q < outs.len()
    &&& a.center_node == node
    &&& ins[p].adj_node == u
    &&& outs[q].adj_node == a.adj_node
    &&& a.weight == ins[p].weight + outs[q].weight
}

/// `after` is `before` with shortcuts over `node` added: it is consistent, `node` has
/// the arcs it had, and every arc is an arc of `before` or a shortcut over `node`.
pub open spec fn grown(before: ArcLists, after: ArcLists, node: NodeId) -> bool {
    &&& after.consistent()
    &&& after.num_nodes() == before.num_nodes()
    &&& after.out_arcs[node as int] == before.out_arcs[node as int]
    &&& after.in_arcs[node as int] == before.in_arcs[node as int]
    &&& forall|u: int, i: int|
        #![trigger after.out_arcs[u][i]]
        0 <= u < after.num_nodes() && 0 <= i < after.out_arcs[u].len() ==> {
            ||| before.out_arcs[u].contains(after.out_arcs[u][i])
            ||| exists|p: int, q: int| #[trigger] bridges(before, node, p, q, u, after.out_arcs[u][i])
        }
}

/// A consistent graph is grown from itself.
pub proof fn lemma_grown_same(g: ArcLists, node: NodeId)
    requires
        g.consistent(),
    ensures
        grown(g, g, node),
{
    assert forall|u: int, i: int|
        #![trigger g.out_arcs[u][i]]
        0 <= u < g.num_nodes() && 0 <= i < g.out_arcs[u].len() implies g.out_arcs[u].contains(
        g.out_arcs[u][i],
    ) by {}
}

/// Adding a shortcut over `node` to a grown graph leaves a grown graph.
pub proof fn lemma_grown_step(
    before: ArcLists,
    g: ArcLists,
    node: NodeId,
    p: int,
    q: int,
    weight: Weight,
)
    requires
        before.consistent(),
        grown(before, g, node),
        node < before.num_nodes(),
        0 <= p < before.in_arcs[node as int].len(),
        0 <= q < before.out_arcs[node as int].len(),
        before.in_arcs[node as int][p].adj_node != before.out_arcs[node as int][q].adj_node,
        weight == before.in_arcs[node as int][p].weight + before.out_arcs[node as int][q].weight,
    ensures
        grown(
            before,
            g.add_or_reduce(
                before.in_arcs[node as int][p].adj_node,
                before.out_arcs[node as int][q].adj_node,
                weight,
                node,
            ),
            node,
        ),
{
    let from = before.in_arcs[node as int][p].adj_node;
    let to = before.out_arcs[node as int][q].adj_node;
    let h = g.add_or_reduce(from, to, weight, node);
    let shortcut = Arc { adj_node: to, weight, center_node: node };
    assert(!has_arc_to(before.in_arcs[node as int], node));
    assert(!has_arc_to(before.out_arcs[node as int], node));
    assert(from != node);
    assert(to != node);
    assert(from < before.num_nodes());
    assert(to < before.num_nodes());
    lemma_add_or_reduce_consistent(g, from, to, weight, node);
    assert forall|u: int, i: int|
        #![trigger h.out_arcs[u][i]]
        0 <= u < h.num_nodes() && 0 <= i < h.out_arcs[u].len() implies {
        ||| before.out_arcs[u].contains(h.out_arcs[u][i])
        ||| exists|p: int, q: int| #[trigger] bridges(before, node, p, q, u, h.out_arcs[u][i])
    } by {
        let a = h.out_arcs[u][i];
        if u != from {
            assert(h.out_arcs[u] == g.out_arcs[u]);
            assert(a == g.out_arcs[u][i]);
        } else {
            let arcs = g.out_arcs[from as int];
            if has_arc_to(arcs, to) {
                let pos = crate::preparation_graph::first_arc_to(arcs, to);
                let w = choose|w: int| 0 <= w < arcs.len() && (#[trigger] arcs[w]).adj_node == to;
                assert(crate::preparation_graph::distinct_ends(arcs));
                assert(crate::preparation_graph::is_first_arc_to(arcs, to, w)) by {
                    assert forall|j: int| 0 <= j < w implies (#[trigger] arcs[j]).adj_node != to by {
                        assert(arcs[j].adj_node != arcs[w].adj_node);
                    }
                }
                crate::preparation_graph::lemma_first_arc_to(arcs, to, w);
                if arcs[pos].weight <= weight {
                    assert(a == g.out_arcs[u][i]);
                } else {
                    if i == pos {
                        assert(a == shortcut);
                        assert(bridges(before, node, p, q, u, a));
                    } else {
                        assert(a == g.out_arcs[u][i]);
                    }
                }
            } else {
                if i == arcs.len() {
                    assert(a == shortcut);
                    assert(bridges(before, node, p, q, u, a));
                } else {
                    assert(a == g.out_arcs[u][i]);
                }
            }
        }
    }
}

/// The relevance of a node: the smaller, the earlier it should be contracted. In exact
/// numbers it is `depth * level + (quotient * shortcuts + 1000) / (edges + 1)`, with
/// the two factors in thousandths, the quotient rounded down, and the whole cut off at
/// the largest number there is.
pub open spec fn relevance_of(
    params: Params,
    level: NodeId,
    num_shortcuts: usize,
    num_out: usize,
    num_in: usize,
) -> int {
    let exact = params.hierarchy_depth_permille * level + (params.edge_quotient_permille
        * num_shortcuts + 1000) / (num_out + num_in + 1);
    if exact > usize::MAX {
        usize::MAX as int
    } else {
        exact
    }
}

/// Takes `node` out of the graph, and adds the shortcuts between its neighbors that
/// are needed to keep the weights of the lightest paths between all other nodes.
pub fn contract_node(
    graph: &mut PreparationGraph,
    witness_search: &mut WitnessSearch,
    node: NodeId,
    max_settled_nodes: usize,
)
    requires
        old(graph).wf(),
        old(graph)@.consistent(),
        old(witness_search).wf(),
        old(witness_search)@.labels.len() == old(graph)@.num_nodes(),
        node < old(graph)@.num_nodes(),
    ensures
        final(graph).wf(),
        final(graph)@.consistent(),
        final(graph)@.num_nodes() == old(graph)@.num_nodes(),
        final(witness_search).wf(),
        final(witness_search)@.labels.len() == old(witness_search)@.labels.len(),
        final(graph)@ == handle(
            old(graph)@,
            old(witness_search)@,
            node,
            true,
            max_settled_nodes,
        ).graph.disconnect(node),
        final(witness_search)@ == handle(
            old(graph)@,
            old(witness_search)@,
            node,
            true,
            max_settled_nodes,
        ).search,
        grown(
            old(graph)@,
            handle(old(graph)@, old(witness_search)@, node, true, max_settled_nodes).graph,
            node,
        ),
{
    let _ = handle_shortcuts(graph, witness_search, node, true, max_settled_nodes);
    proof {
        lemma_disconnect_consistent(graph@, node);
    }
    graph.disconnect(node);
}

/// Calculates how relevant `node` is for the order of contraction. The graph is
/// searched for the shortcuts that contracting the node would need, but not changed.
pub fn calc_relevance(
    graph: &mut PreparationGraph,
    params: &Params,
    witness_search: &mut WitnessSearch,
    node: NodeId,
    level: NodeId,
    max_settled_nodes: usize,
) -> (relevance: Weight)
    requires
        old(graph).wf(),
        old(graph)@.consistent(),
        old(witness_search).wf(),
        old(witness_search)@.labels.len() == old(graph)@.num_nodes(),
        node < old(graph)@.num_nodes(),
    ensures
        final(graph).wf(),
        final(graph)@ == old(graph)@,
        final(witness_search).wf(),
        final(witness_search)@.labels.len() == old(witness_search)@.labels.len(),
        final(witness_search)@ == handle(
            old(graph)@,
            old(witness_search)@,
            node,
            false,
            max_settled_nodes,
        ).search,
        relevance == relevance_of(
            *params,
            level,
            handle(
                old(graph)@,
                old(witness_search)@,
                node,
                false,
                max_settled_nodes,
            ).shortcuts.len() as usize,
            old(graph)@.out_arcs[node as int].len() as usize,
            old(graph)@.in_arcs[node as int].len() as usize,
        ),
{
    let shortcuts = handle_shortcuts(graph, witness_search, node, false, max_settled_nodes);
    let num_out = graph.get_out_edges(node).len();
    let num_in = graph.get_in_edges(node).len();
    relevance(params, level, shortcuts.len(), num_out, num_in)
}

/// The relevance of a node with the given level, number of shortcuts and numbers of
/// leaving and entering arcs.
pub fn relevance(
    params: &Params,
    level: NodeId,
    num_shortcuts: usize,
    num_out: usize,
    num_in: usize,
) -> (relevance: Weight)
    ensures
        relevance == relevance_of(*params, level, num_shortcuts, num_out, num_in),
{
    let depth: u128 = params.hierarchy_depth_permille as u128;
    let quotient: u128 = params.edge_quotient_permille as u128;
    let bound: u128 = 0xffff_ffff_ffff_ffff;
    assert(depth * (level as u128) <= bound * bound) by (nonlinear_arith)
        requires
            depth <= bound,
            level as u128 <= bound,
    ;
    assert(quotient * (num_shortcuts as u128) <= bound * bound) by (nonlinear_arith)
        requires
            quotient <= bound,
            num_shortcuts as u128 <= bound,
    ;
    let by_level: u128 = depth * (level as u128);
    let counted: u128 = quotient * (num_shortcuts as u128) + 1000;
    let edges: u128 = num_out as u128 + num_in as u128 + 1;
    let per_edge: u128 = counted / edges;
    let largest: u128 = usize::MAX as u128;
    if by_level > largest || per_edge > largest {
        usize::MAX
    } else {
        let sum: u128 = by_level + per_edge;
        if sum > largest {
            usize::MAX
        } else {
            sum as usize
        }
    }
}

/// Goes through all pairs of an arc that enters `node` and an arc that leaves it, and
/// returns the shortcuts that are needed when the node is taken out. With
/// `add_shortcuts` each shortcut is added to the graph as soon as it is found, so that
/// the searches that follow see it; without, the graph stays as it is.
pub fn handle_shortcuts(
    graph: &mut PreparationGraph,
    witness_search: &mut WitnessSearch,
    node: NodeId,
    add_shortcuts: bool,
    max_settled_nodes: usize,
) -> (shortcuts: Vec<Shortcut>)
    requires
        old(graph).wf(),
        old(graph)@.consistent(),
        old(witness_search).wf(),
        old(witness_search)@.labels.len() == old(graph)@.num_nodes(),
        node < old(graph)@.num_nodes(),
    ensures
        final(graph).wf(),
        final(graph)@.consistent(),
        final(graph)@.num_nodes() == old(graph)@.num_nodes(),
        final(graph)@.out_arcs[node as int] == old(graph)@.out_arcs[node as int],
        final(graph)@.in_arcs[node as int] == old(graph)@.in_arcs[node as int],
        !add_shortcuts ==> final(graph)@ == old(graph)@,
        grown(old(graph)@, final(graph)@, node),
        final(witness_search).wf(),
        final(witness_search)@.labels.len() == old(witness_search)@.labels.len(),
        (Contraction {
            graph: final(graph)@,
            search: final(witness_search)@,
            shortcuts: shortcuts@,
        }) == handle(
            old(graph)@,
            old(witness_search)@,
            node,
            add_shortcuts,
            max_settled_nodes,
        ),
{
    let ghost ins = graph@.in_arcs[node as int];
    let ghost outs = graph@.out_arcs[node as int];
    let ghost goal = handle(graph@, witness_search@, node, add_shortcuts, max_settled_nodes);
    let ghost n = graph@.num_nodes();
    let num_in = graph.get_in_edges(node).len();
    let num_out = graph.get_out_edges(node).len();
    let mut shortcuts: Vec<Shortcut> = Vec::new();
    let mut i: usize = 0;
    proof {
        lemma_grown_same(graph@, node);
    }
    while i < num_in
        invariant
            i <= num_in,
            old(graph)@.consistent(),
            ins == old(graph)@.in_arcs[node as int],
            outs == old(graph)@.out_arcs[node as int],
            n == old(graph)@.num_nodes(),
            grown(old(graph)@, graph@, node),
            num_in == ins.len(),
            num_out == outs.len(),
            graph.wf(),
            graph@.consistent(),
            graph@.num_nodes() == n,
            node < n,
            graph@.in_arcs[node as int] == ins,
            graph@.out_arcs[node as int] == outs,
            !add_shortcuts ==> graph@ == old(graph)@,
            witness_search.wf(),
            witness_search@.labels.len() == n,
            handle_arcs_from(
                Contraction { graph: graph@, search: witness_search@, shortcuts: shortcuts@ },
                node,
                ins,
                outs,
                i as int,
                add_shortcuts,
                max_settled_nodes,
            ) == goal,
        decreases num_in - i,
    {
        let in_arc = graph.get_in_edges(node)[i];
        proof {
            assert(in_arc == ins[i as int]);
            assert(!has_arc_to(ins, node));
            assert(ins[i as int].adj_node != node);
            assert(graph@.in_arcs[node as int][i as int].adj_node < n);
        }
        witness_search.init(in_arc.adj_node, node);
        let mut j: usize = 0;
        while j < num_out
            invariant
                i < num_in,
                j <= num_out,
                old(graph)@.consistent(),
                ins == old(graph)@.in_arcs[node as int],
                outs == old(graph)@.out_arcs[node as int],
                n == old(graph)@.num_nodes(),
                grown(old(graph)@, graph@, node),
                num_in == ins.len(),
                num_out == outs.len(),
                graph.wf(),
                graph@.consistent(),
                graph@.num_nodes() == n,
                node < n,
                graph@.in_arcs[node as int] == ins,
                graph@.out_arcs[node as int] == outs,
                !add_shortcuts ==> graph@ == old(graph)@,
                in_arc == ins[i as int],
                in_arc.adj_node != node,
                in_arc.adj_node < n,
                witness_search.wf(),
                witness_search@.labels.len() == n,
                witness_search@.start == in_arc.adj_node,
                witness_search@.avoid == node,
                handle_arcs_from(
                    handle_pairs_from(
                        Contraction {
                            graph: graph@,
                            search: witness_search@,
                            shortcuts: shortcuts@,
                        },
                        node,
                        in_arc,
                        outs,
                        j as int,
                        add_shortcuts,
                        max_settled_nodes,
                    ),
                    node,
                    ins,
                    outs,
                    i + 1,
                    add_shortcuts,
                    max_settled_nodes,
                ) == goal,
            decreases num_out - j,
        {
            let out_arc = graph.get_out_edges(node)[j];
            let ghost here = Contraction {
                graph: graph@,
                search: witness_search@,
                shortcuts: shortcuts@,
            };
            proof {
                assert(out_arc == outs[j as int]);
                assert(!has_arc_to(outs, node));
                assert(outs[j as int].adj_node != node);
                assert(graph@.out_arcs[node as int][j as int].adj_node < n);
            }
            if in_arc.weight < WEIGHT_MAX - out_arc.weight {
                let weight = in_arc.weight + out_arc.weight;
                let max_witness_weight = witness_search.find_max_weight(
                    graph,
                    out_arc.adj_node,
                    weight,
                    max_settled_nodes,
                );
                if max_witness_weight > weight {
                    let shortcut = Shortcut::new(in_arc.adj_node, out_arc.adj_node, node, weight);
                    if add_shortcuts {
                        proof {
                            lemma_add_or_reduce_consistent(
                                graph@,
                                in_arc.adj_node,
                                out_arc.adj_node,
                                weight,
                                node,
                            );
                            lemma_grown_step(
                                old(graph)@,
                                graph@,
                                node,
                                i as int,
                                j as int,
                                weight,
                            );
                        }
                        add_shortcut(graph, shortcut);
                    }
                    shortcuts.push(shortcut);
                }
            }
            proof {
                assert((Contraction {
                    graph: graph@,
                    search: witness_search@,
                    shortcuts: shortcuts@,
                }) == handle_pair(here, node, in_arc, out_arc, add_shortcuts, max_settled_nodes));
            }
            j += 1;
        }
        i += 1;
    }
    shortcuts
}

fn add_shortcut(graph: &mut PreparationGraph, shortcut: Shortcut)
    requires
        old(graph).wf(),
        shortcut.from < old(graph)@.num_nodes(),
        shortcut.to < old(graph)@.num_nodes(),
    ensures
        final(graph).wf(),
        final(graph)@ == old(graph)@.add_or_reduce(
            shortcut.from,
            shortcut.to,
            shortcut.weight,
            shortcut.center_node,
        ),
        final(graph)@.num_nodes() == old(graph)@.num_nodes(),
{
    graph.add_or_reduce_edge(shortcut.from, shortcut.to, shortcut.weight, shortcut.center_node);
}

} // verus!
