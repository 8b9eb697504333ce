use vstd::prelude::*;

use crate::constants::NodeId;
use crate::constants::Weight;
use crate::constants::WEIGHT_MAX;
use crate::heap_item::HeapItem;
use crate::labels::label_settled;
use crate::labels::label_weight;
use crate::min_heap::lemma_remove_len;
use crate::min_heap::min_item;
use crate::node_contractor::handle;
use crate::node_contractor::handle_arcs_from;
use crate::node_contractor::handle_pair;
use crate::node_contractor::handle_pairs_from;
use crate::node_contractor::Contraction;
use crate::preparation_graph::distinct_ends;
use crate::preparation_graph::is_first_arc_to;
use crate::preparation_graph::lemma_add_or_reduce_consistent;
use crate::preparation_graph::lemma_first_arc_to;
use crate::preparation_graph::lemma_without_contains;
use crate::preparation_graph::mirrored;
use crate::preparation_graph::first_arc_to;
use crate::preparation_graph::has_arc_to;
use crate::preparation_graph::Arc;
use crate::preparation_graph::ArcLists;
use crate::witness_search::lemma_pop;
use crate::witness_search::lemma_relax_from;
use crate::witness_search::lemma_settle;
use crate::witness_search::WitnessState;

verus! {

/// The graph has an arc of weight `w` from `u` to `v`.
pub open spec fn has_arc(g: ArcLists, u: NodeId, v: NodeId, w: Weight) -> bool {
    u < g.out_arcs.len() && exists|i: int|
        0 <= i < g.out_arcs[u as int].len() && (#[trigger] g.out_arcs[u as int][i]).adj_node == v
            && g.out_arcs[u as int][i].weight == w
}

/// The nodes are a way through the graph: an arc leads from each node to the next, and
/// the weights of these arcs add up to `weight`.
pub open spec fn arc_walk(g: ArcLists, nodes: Seq<NodeId>, weight: int) -> bool
    decreases nodes.len(),
{
    if nodes.len() == 0 {
        false
    } else if nodes.len() == 1 {
        weight == 0
    } else {
        exists|w: Weight| #[trigger]
            has_arc(g, nodes[nodes.len() - 2], nodes[nodes.len() - 1], w) && arc_walk(
                g,
                nodes.drop_last(),
                weight - w,
            )
    }
}

/// None of the nodes is `x`.
pub open spec fn avoids(nodes: Seq<NodeId>, x: NodeId) -> bool {
    forall|i: int| 0 <= i < nodes.len() ==> #[trigger] nodes[i] != x
}

/// `nodes` is a way of weight `w` from `u` to `v` that avoids `x` and is not heavier
/// than `weight`.
pub open spec fn goes_around(
    g: ArcLists,
    u: NodeId,
    v: NodeId,
    x: NodeId,
    weight: int,
    nodes: Seq<NodeId>,
    w: int,
) -> bool {
    &&& arc_walk(g, nodes, w)
    &&& nodes[0] == u
    &&& nodes[nodes.len() - 1] == v
    &&& avoids(nodes, x)
    &&& w <= weight
}

/// There is a way from `u` to `v` that avoids `x` and is not heavier than `weight`.
pub open spec fn way_around(g: ArcLists, u: NodeId, v: NodeId, x: NodeId, weight: int) -> bool {
    exists|nodes: Seq<NodeId>, w: int| #[trigger] goes_around(g, u, v, x, weight, nodes, w)
}

/// For every arc of `g` the graph `h` has an arc between the same nodes that is not
/// heavier.
pub open spec fn lighter(g: ArcLists, h: ArcLists) -> bool {
    forall|u: NodeId, v: NodeId, w: Weight| #[trigger]
        has_arc(g, u, v, w) ==> exists|lw: Weight| lw <= w && #[trigger] has_arc(h, u, v, lw)
}

/// A way through a graph is a way through every lighter graph, and not heavier there.
pub proof fn lemma_walk_lighter(g: ArcLists, h: ArcLists, nodes: Seq<NodeId>, weight: int)
    requires
        lighter(g, h),
        arc_walk(g, nodes, weight),
    ensures
        exists|lw: int| lw <= weight && #[trigger] arc_walk(h, nodes, lw),
    decreases nodes.len(),
{
    if nodes.len() == 1 {
        assert(arc_walk(h, nodes, 0));
    } else {
        let n = nodes.len() as int;
        let w = choose|w: Weight| #[trigger]
            has_arc(g, nodes[n - 2], nodes[n - 1], w) && arc_walk(g, nodes.drop_last(), weight - w);
        lemma_walk_lighter(g, h, nodes.drop_last(), weight - w);
        let rest = choose|lw: int| lw <= weight - w && #[trigger] arc_walk(h, nodes.drop_last(), lw);
        let lw = choose|lw: Weight| lw <= w && #[trigger] has_arc(h, nodes[n - 2], nodes[n - 1], lw);
        assert(has_arc(h, nodes[n - 2], nodes[n - 1], lw) && arc_walk(
            h,
            nodes.drop_last(),
            (rest + lw) - lw,
        ));
        assert(arc_walk(h, nodes, rest + lw));
    }
}

/// A way around a node in a graph is a way around it in every lighter graph.
pub proof fn lemma_around_lighter(g: ArcLists, h: ArcLists, u: NodeId, v: NodeId, x: NodeId, weight: int)
    requires
        lighter(g, h),
        way_around(g, u, v, x, weight),
    ensures
        way_around(h, u, v, x, weight),
{
    let (nodes, w) = choose|nodes: Seq<NodeId>, w: int| #[trigger]
        goes_around(g, u, v, x, weight, nodes, w);
    lemma_walk_lighter(g, h, nodes, w);
    let lw = choose|lw: int| lw <= w && #[trigger] arc_walk(h, nodes, lw);
    assert(goes_around(h, u, v, x, weight, nodes, lw));
}

/// A way that is not heavier than a weight is not heavier than a larger weight.
pub proof fn lemma_around_more(g: ArcLists, u: NodeId, v: NodeId, x: NodeId, weight: int, more: int)
    requires
        way_around(g, u, v, x, weight),
        weight <= more,
    ensures
        way_around(g, u, v, x, more),
{
    let (nodes, w) = choose|nodes: Seq<NodeId>, w: int| #[trigger]
        goes_around(g, u, v, x, weight, nodes, w);
    assert(goes_around(g, u, v, x, more, nodes, w));
}

/// A way around a node goes on over an arc that does not lead to that node.
pub proof fn lemma_around_arc(
    g: ArcLists,
    u: NodeId,
    v: NodeId,
    x: NodeId,
    weight: int,
    to: NodeId,
    w: Weight,
)
    requires
        way_around(g, u, v, x, weight),
        has_arc(g, v, to, w),
        to != x,
    ensures
        way_around(g, u, to, x, weight + w),
{
    let (nodes, sum) = choose|nodes: Seq<NodeId>, sum: int| #[trigger]
        goes_around(g, u, v, x, weight, nodes, sum);
    let more = nodes.push(to);
    assert(more.drop_last() =~= nodes);
    assert(has_arc(g, more[more.len() - 2], more[more.len() - 1], w) && arc_walk(
        g,
        more.drop_last(),
        (sum + w) - w,
    ));
    assert(arc_walk(g, more, sum + w));
    assert(goes_around(g, u, to, x, weight + w, more, sum + w));
}

/// A node is a way to itself, of no weight.
pub proof fn lemma_around_self(g: ArcLists, u: NodeId, x: NodeId)
    requires
        u != x,
    ensures
        way_around(g, u, u, x, 0),
{
    let nodes = seq![u];
    assert(arc_walk(g, nodes, 0));
    assert(goes_around(g, u, u, x, 0, nodes, 0));
}

/// What a witness search holds is true of the graph: for every label and for every
/// entry of the queue there is a way from the start node that avoids the avoided node
/// and is not heavier than the weight held.
pub open spec fn witness_sound(state: WitnessState, g: ArcLists) -> bool {
    &&& forall|x: int|
        0 <= x < state.labels.len() && (#[trigger] state.labels[x]).is_some() ==> way_around(
            g,
            state.start,
            x as usize,
            state.avoid,
            state.labels[x].unwrap().weight as int,
        )
    &&& forall|item: HeapItem| #[trigger]
        state.heap.contains(item) ==> way_around(
            g,
            state.start,
            item.node_id,
            state.avoid,
            item.weight as int,
        )
}

/// A search that was just started is sound.
pub proof fn lemma_init_sound(g: ArcLists, n: nat, start: NodeId, avoid: NodeId)
    requires
        start < n,
        start != avoid,
    ensures
        witness_sound(WitnessState::init(n, start, avoid), g),
        WitnessState::init(n, start, avoid).wf(),
{
    broadcast use vstd::multiset::group_multiset_axioms;

    let state = WitnessState::init(n, start, avoid);
    lemma_around_self(g, start, avoid);
    assert forall|item: HeapItem| #[trigger] state.heap.contains(item) implies way_around(
        g,
        state.start,
        item.node_id,
        state.avoid,
        item.weight as int,
    ) && item.node_id < state.labels.len() && state.labels[item.node_id as int].is_some() by {
        assert(item == HeapItem { weight: 0, node_id: start });
    }
}

/// A sound search is sound for every lighter graph.
pub proof fn lemma_sound_lighter(state: WitnessState, g: ArcLists, h: ArcLists)
    requires
        witness_sound(state, g),
        lighter(g, h),
    ensures
        witness_sound(state, h),
{
    assert forall|x: int|
        0 <= x < state.labels.len() && (#[trigger] state.labels[x]).is_some() implies way_around(
        h,
        state.start,
        x as usize,
        state.avoid,
        state.labels[x].unwrap().weight as int,
    ) by {
        lemma_around_lighter(
            g,
            h,
            state.start,
            x as usize,
            state.avoid,
            state.labels[x].unwrap().weight as int,
        );
    }
    assert forall|item: HeapItem| #[trigger] state.heap.contains(item) implies way_around(
        h,
        state.start,
        item.node_id,
        state.avoid,
        item.weight as int,
    ) by {
        lemma_around_lighter(g, h, state.start, item.node_id, state.avoid, item.weight as int);
    }
}

/// Following an arc of the graph keeps a search sound.
proof fn lemma_relax_arc_sound(
    state: WitnessState,
    g: ArcLists,
    arc: Arc,
    from: NodeId,
    weight: Weight,
    target: NodeId,
    weight_limit: Weight,
)
    requires
        witness_sound(state, g),
        arc.adj_node < state.labels.len(),
        has_arc(g, from, arc.adj_node, arc.weight),
        way_around(g, state.start, from, state.avoid, weight as int),
    ensures
        witness_sound(state.relax_arc(arc, weight, target, weight_limit).0, g),
        state.relax_arc(arc, weight, target, weight_limit).0.labels.len() == state.labels.len(),
{
    broadcast use vstd::multiset::group_multiset_axioms;

    let next = state.relax_arc(arc, weight, target, weight_limit).0;
    if next != state {
        lemma_around_arc(
            g,
            state.start,
            from,
            state.avoid,
            weight as int,
            arc.adj_node,
            arc.weight,
        );
        let reached = (weight + arc.weight) as usize;
        assert forall|x: int|
            0 <= x < next.labels.len() && (#[trigger] next.labels[x]).is_some() implies way_around(
            g,
            next.start,
            x as usize,
            next.avoid,
            next.labels[x].unwrap().weight as int,
        ) by {
            if x != arc.adj_node {
                assert(state.labels[x].is_some());
            }
        }
        assert forall|item: HeapItem| #[trigger] next.heap.contains(item) implies way_around(
            g,
            next.start,
            item.node_id,
            next.avoid,
            item.weight as int,
        ) by {
            if item != (HeapItem { weight: reached, node_id: arc.adj_node }) {
                assert(state.heap.contains(item));
            }
        }
    }
}

/// Following the arcs of a node keeps a search sound.
proof fn lemma_relax_from_sound(
    state: WitnessState,
    g: ArcLists,
    from: NodeId,
    k: int,
    weight: Weight,
    target: NodeId,
    weight_limit: Weight,
)
    requires
        witness_sound(state, g),
        g.wf(),
        g.num_nodes() == state.labels.len(),
        from < g.out_arcs.len(),
        0 <= k <= g.out_arcs[from as int].len(),
        way_around(g, state.start, from, state.avoid, weight as int),
    ensures
        witness_sound(
            state.relax_from(g.out_arcs[from as int], k, weight, target, weight_limit).0,
            g,
        ),
    decreases g.out_arcs[from as int].len() - k,
{
    let arcs = g.out_arcs[from as int];
    if k < arcs.len() {
        assert(has_arc(g, from, arcs[k].adj_node, arcs[k].weight));
        assert(g.out_arcs[from as int][k].adj_node < g.out_arcs.len());
        lemma_relax_arc_sound(state, g, arcs[k], from, weight, target, weight_limit);
        let next = state.relax_arc(arcs[k], weight, target, weight_limit).0;
        assert(next.start == state.start && next.avoid == state.avoid);
        lemma_relax_from_sound(next, g, from, k + 1, weight, target, weight_limit);
    }
}

/// Running a search keeps it sound.
pub proof fn lemma_run_sound(
    state: WitnessState,
    g: ArcLists,
    target: NodeId,
    weight_limit: Weight,
    settled_limit: usize,
)
    requires
        state.fits(g),
        witness_sound(state, g),
    ensures
        witness_sound(state.run(g, target, weight_limit, settled_limit), g),
        state.run(g, target, weight_limit, settled_limit).fits(g),
        state.run(g, target, weight_limit, settled_limit).start == state.start,
        state.run(g, target, weight_limit, settled_limit).avoid == state.avoid,
        state.run(g, target, weight_limit, settled_limit).labels.len() == state.labels.len(),
    decreases crate::labels::total_weight(state.labels), state.heap.len(),
{
    broadcast use vstd::multiset::group_multiset_axioms;

    let curr = min_item(state.heap);
    if state.heap.len() == 0 || state.settled_nodes >= settled_limit || !state.heap.contains(curr)
        || curr.weight > weight_limit {
    } else {
        let popped = WitnessState { heap: state.heap.remove(curr), ..state };
        lemma_remove_len(state.heap, curr);
        lemma_pop(state, curr);
        assert(witness_sound(popped, g)) by {
            assert forall|item: HeapItem| #[trigger] popped.heap.contains(item) implies way_around(
                g,
                popped.start,
                item.node_id,
                popped.avoid,
                item.weight as int,
            ) by {
                assert(state.heap.contains(item));
            }
        }
        if label_settled(state.labels, curr.node_id as int) {
            lemma_run_sound(popped, g, target, weight_limit, settled_limit);
        } else {
            let arcs = g.out_arcs[curr.node_id as int];
            lemma_relax_from(popped, arcs, 0, curr.weight, target, weight_limit);
            lemma_relax_from_sound(popped, g, curr.node_id, 0, curr.weight, target, weight_limit);
            let (relaxed, found) = popped.relax_from(arcs, 0, curr.weight, target, weight_limit);
            lemma_settle(relaxed, curr.node_id);
            let settled = relaxed.settle(curr.node_id);
            assert(witness_sound(settled, g)) by {
                assert forall|x: int|
                    0 <= x < settled.labels.len() && (#[trigger] settled.labels[x]).is_some() implies way_around(
                    g,
                    settled.start,
                    x as usize,
                    settled.avoid,
                    settled.labels[x].unwrap().weight as int,
                ) by {
                    assert(relaxed.labels[x].is_some());
                }
            }
            if found || curr.node_id == target {
            } else {
                lemma_run_sound(settled, g, target, weight_limit, settled_limit);
            }
        }
    }
}

/// The bound that a witness search returns is the weight of a way, or more: where the
/// bound is finite, there is a way from the start node to the target that avoids the
/// avoided node and is not heavier than the bound.
pub proof fn lemma_find_sound(
    state: WitnessState,
    g: ArcLists,
    target: NodeId,
    weight_limit: Weight,
    settled_limit: usize,
)
    requires
        state.fits(g),
        witness_sound(state, g),
        state.start != state.avoid,
        target < state.labels.len(),
    ensures
        ({
            let (end, bound) = state.find(g, target, weight_limit, settled_limit);
            &&& witness_sound(end, g)
            &&& end.fits(g)
            &&& end.start == state.start
            &&& end.avoid == state.avoid
            &&& end.labels.len() == state.labels.len()
            &&& bound < WEIGHT_MAX ==> way_around(g, state.start, target, state.avoid, bound as int)
        }),
{
    if target == state.start {
        lemma_around_self(g, state.start, state.avoid);
    } else if state.labels[target as int].is_some() && (state.labels[target as int].unwrap().settled
        || state.labels[target as int].unwrap().weight <= weight_limit) {
    } else {
        lemma_run_sound(state, g, target, weight_limit, settled_limit);
        let end = state.run(g, target, weight_limit, settled_limit);
        if label_weight(end.labels, target as int) < WEIGHT_MAX {
            assert(end.labels[target as int].is_some());
        }
    }
}

/// A way has a weight that is not negative.
pub proof fn lemma_walk_weight(g: ArcLists, nodes: Seq<NodeId>, weight: int)
    requires
        arc_walk(g, nodes, weight),
    ensures
        weight >= 0,
    decreases nodes.len(),
{
    if nodes.len() > 1 {
        let n = nodes.len() as int;
        let w = choose|w: Weight| #[trigger]
            has_arc(g, nodes[n - 2], nodes[n - 1], w) && arc_walk(g, nodes.drop_last(), weight - w);
        lemma_walk_weight(g, nodes.drop_last(), weight - w);
    }
}

/// A way that ends where another begins goes on with the other.
pub proof fn lemma_arc_walk_join(
    g: ArcLists,
    first: Seq<NodeId>,
    first_weight: int,
    second: Seq<NodeId>,
    second_weight: int,
)
    requires
        arc_walk(g, first, first_weight),
        arc_walk(g, second, second_weight),
        first[first.len() - 1] == second[0],
    ensures
        arc_walk(g, first + second.skip(1), first_weight + second_weight),
    decreases second.len(),
{
    if second.len() == 1 {
        assert(first + second.skip(1) =~= first);
    } else {
        let n = second.len() as int;
        let w = choose|w: Weight| #[trigger]
            has_arc(g, second[n - 2], second[n - 1], w) && arc_walk(
                g,
                second.drop_last(),
                second_weight - w,
            );
        lemma_arc_walk_join(g, first, first_weight, second.drop_last(), second_weight - w);
        let all = first + second.skip(1);
        assert(all.drop_last() =~= first + second.drop_last().skip(1));
        assert(all[all.len() - 1] == second[n - 1]);
        assert(all[all.len() - 2] == second[n - 2]);
        assert(has_arc(g, all[all.len() - 2], all[all.len() - 1], w) && arc_walk(
            g,
            all.drop_last(),
            (first_weight + second_weight) - w,
        ));
    }
}

/// A way around a node that ends where another begins goes on with the other.
pub proof fn lemma_around_join(
    g: ArcLists,
    u: NodeId,
    over: NodeId,
    v: NodeId,
    x: NodeId,
    first_weight: int,
    second_weight: int,
)
    requires
        way_around(g, u, over, x, first_weight),
        way_around(g, over, v, x, second_weight),
    ensures
        way_around(g, u, v, x, first_weight + second_weight),
{
    let (first, w1) = choose|nodes: Seq<NodeId>, w: int| #[trigger]
        goes_around(g, u, over, x, first_weight, nodes, w);
    let (second, w2) = choose|nodes: Seq<NodeId>, w: int| #[trigger]
        goes_around(g, over, v, x, second_weight, nodes, w);
    lemma_arc_walk_join(g, first, w1, second, w2);
    let all = first + second.skip(1);
    assert(all[0] == u);
    if second.len() == 1 {
        assert(all =~= first);
    } else {
        assert(all[all.len() - 1] == second[second.len() - 1]);
    }
    assert forall|i: int| 0 <= i < all.len() implies #[trigger] all[i] != x by {
        if i < first.len() {
            assert(all[i] == first[i]);
        } else {
            assert(all[i] == second[i - first.len() + 1]);
        }
    }
    assert(goes_around(g, u, v, x, first_weight + second_weight, all, w1 + w2));
}

/// Adding a shortcut, or making an arc lighter, leaves a lighter graph with an arc
/// between the two nodes that is not heavier than the shortcut.
pub proof fn lemma_add_or_reduce_lighter(
    g: ArcLists,
    from: NodeId,
    to: NodeId,
    weight: Weight,
    center: NodeId,
)
    requires
        g.consistent(),
        from < g.num_nodes(),
        to < g.num_nodes(),
    ensures
        lighter(g, g.add_or_reduce(from, to, weight, center)),
        exists|lw: Weight|
            lw <= weight && #[trigger] has_arc(g.add_or_reduce(from, to, weight, center), from, to, lw),
{
    let h = g.add_or_reduce(from, to, weight, center);
    let arcs = g.out_arcs[from as int];
    if has_arc_to(arcs, to) {
        let i0 = choose|i: int| 0 <= i < arcs.len() && (#[trigger] arcs[i]).adj_node == to;
        assert(distinct_ends(arcs));
        assert(is_first_arc_to(arcs, to, i0)) by {
            assert forall|j: int| 0 <= j < i0 implies (#[trigger] arcs[j]).adj_node != to by {
                assert(arcs[j].adj_node != arcs[i0].adj_node);
            }
        }
        lemma_first_arc_to(arcs, to, i0);
        let p = first_arc_to(arcs, to);
        if arcs[p].weight <= weight {
            assert(h == g);
            assert(has_arc(h, from, to, arcs[p].weight));
            assert forall|u: NodeId, v: NodeId, w: Weight| #[trigger] has_arc(g, u, v, w) implies exists|
                lw: Weight,
            | lw <= w && #[trigger] has_arc(h, u, v, lw) by {
                assert(has_arc(h, u, v, w));
            }
        } else {
            assert(h.out_arcs[from as int][p].adj_node == to && h.out_arcs[from as int][p].weight
                == weight);
            assert(has_arc(h, from, to, weight));
            assert forall|u: NodeId, v: NodeId, w: Weight| #[trigger] has_arc(g, u, v, w) implies exists|
                lw: Weight,
            | lw <= w && #[trigger] has_arc(h, u, v, lw) by {
                let i = choose|i: int|
                    0 <= i < g.out_arcs[u as int].len() && (#[trigger] g.out_arcs[u as int][i]).adj_node
                        == v && g.out_arcs[u as int][i].weight == w;
                if u == from && i == p {
                    assert(has_arc(h, u, v, weight));
                } else {
                    assert(h.out_arcs[u as int][i] == g.out_arcs[u as int][i]);
                    assert(has_arc(h, u, v, w));
                }
            }
        }
    } else {
        assert(h.out_arcs[from as int][arcs.len() as int].adj_node == to);
        assert(has_arc(h, from, to, weight));
        assert forall|u: NodeId, v: NodeId, w: Weight| #[trigger] has_arc(g, u, v, w) implies exists|
            lw: Weight,
        | lw <= w && #[trigger] has_arc(h, u, v, lw) by {
            let i = choose|i: int|
                0 <= i < g.out_arcs[u as int].len() && (#[trigger] g.out_arcs[u as int][i]).adj_node
                    == v && g.out_arcs[u as int][i].weight == w;
            assert(h.out_arcs[u as int][i] == g.out_arcs[u as int][i]);
            assert(has_arc(h, u, v, w));
        }
    }
}

/// A graph is as light as itself, and lighter than what it is lighter than a graph
/// that is lighter than.
pub proof fn lemma_lighter_chain(g: ArcLists, h: ArcLists, k: ArcLists)
    requires
        lighter(g, h),
        lighter(h, k),
    ensures
        lighter(g, k),
        lighter(g, g),
{
    assert forall|u: NodeId, v: NodeId, w: Weight| #[trigger] has_arc(g, u, v, w) implies exists|
        lw: Weight,
    | lw <= w && #[trigger] has_arc(k, u, v, lw) by {
        let mid = choose|lw: Weight| lw <= w && #[trigger] has_arc(h, u, v, lw);
        let low = choose|lw: Weight| lw <= mid && #[trigger] has_arc(k, u, v, lw);
        assert(low <= w && has_arc(k, u, v, low));
    }
    assert forall|u: NodeId, v: NodeId, w: Weight| #[trigger] has_arc(g, u, v, w) implies exists|
        lw: Weight,
    | lw <= w && #[trigger] has_arc(g, u, v, lw) by {
        assert(w <= w && has_arc(g, u, v, w));
    }
}

/// The way over `node` that is made of the two arcs is taken care of in the graph:
/// there is a way around the node between their ends that is not heavier, unless the
/// weight of the two arcs together is not finite.
pub open spec fn covered(h: ArcLists, node: NodeId, in_arc: Arc, out_arc: Arc) -> bool {
    in_arc.weight + out_arc.weight >= WEIGHT_MAX || way_around(
        h,
        in_arc.adj_node,
        out_arc.adj_node,
        node,
        in_arc.weight + out_arc.weight,
    )
}

/// What holds while the shortcuts over a node are looked for: the graph is consistent,
/// and the witness search is sound and fit for it, and begins at `start` and avoids the
/// node.
pub open spec fn searching(c: Contraction, node: NodeId, start: NodeId) -> bool {
    &&& c.graph.consistent()
    &&& c.search.fits(c.graph)
    &&& witness_sound(c.search, c.graph)
    &&& c.search.start == start
    &&& c.search.avoid == node
    &&& node < c.graph.num_nodes()
    &&& start < c.graph.num_nodes()
    &&& start != node
}

/// Looking at a pair of arcs takes care of the way that is made of them, and leaves
/// a graph that is lighter and a search that is sound.
pub proof fn lemma_pair(c: Contraction, node: NodeId, in_arc: Arc, out_arc: Arc, max_settled_nodes: usize)
    requires
        searching(c, node, in_arc.adj_node),
        out_arc.adj_node < c.graph.num_nodes(),
        out_arc.adj_node != node,
    ensures
        ({
            let after = handle_pair(c, node, in_arc, out_arc, true, max_settled_nodes);
            &&& searching(after, node, in_arc.adj_node)
            &&& after.graph.num_nodes() == c.graph.num_nodes()
            &&& lighter(c.graph, after.graph)
            &&& covered(after.graph, node, in_arc, out_arc)
        }),
{
    let after = handle_pair(c, node, in_arc, out_arc, true, max_settled_nodes);
    let weight = in_arc.weight + out_arc.weight;
    lemma_lighter_chain(c.graph, c.graph, c.graph);
    if weight < WEIGHT_MAX {
        lemma_find_sound(c.search, c.graph, out_arc.adj_node, weight as usize, max_settled_nodes);
        let (search, witness) = c.search.find(
            c.graph,
            out_arc.adj_node,
            weight as usize,
            max_settled_nodes,
        );
        if witness <= weight {
            lemma_around_more(
                c.graph,
                in_arc.adj_node,
                out_arc.adj_node,
                node,
                witness as int,
                weight,
            );
        } else {
            assert(in_arc.adj_node != out_arc.adj_node);
            let h = c.graph.add_or_reduce(in_arc.adj_node, out_arc.adj_node, weight as usize, node);
            lemma_add_or_reduce_consistent(
                c.graph,
                in_arc.adj_node,
                out_arc.adj_node,
                weight as usize,
                node,
            );
            lemma_add_or_reduce_lighter(
                c.graph,
                in_arc.adj_node,
                out_arc.adj_node,
                weight as usize,
                node,
            );
            lemma_sound_lighter(search, c.graph, h);
            let lw = choose|lw: Weight|
                lw <= weight as usize && #[trigger] has_arc(h, in_arc.adj_node, out_arc.adj_node, lw);
            lemma_around_self(h, in_arc.adj_node, node);
            lemma_around_arc(
                h,
                in_arc.adj_node,
                in_arc.adj_node,
                node,
                0,
                out_arc.adj_node,
                lw,
            );
            lemma_around_more(h, in_arc.adj_node, out_arc.adj_node, node, lw as int, weight);
            assert(search.fits(h));
        }
    }
}

/// Looking at the pairs of one entering arc with the leaving arcs from position `j`
/// on takes care of the ways that are made of them.
pub proof fn lemma_pairs_from(
    c: Contraction,
    node: NodeId,
    in_arc: Arc,
    outs: Seq<Arc>,
    j: int,
    max_settled_nodes: usize,
)
    requires
        searching(c, node, in_arc.adj_node),
        0 <= j <= outs.len(),
        forall|k: int|
            0 <= k < outs.len() ==> (#[trigger] outs[k]).adj_node < c.graph.num_nodes() && outs[k].adj_node
                != node,
    ensures
        ({
            let after = handle_pairs_from(c, node, in_arc, outs, j, true, max_settled_nodes);
            &&& after.graph.consistent()
            &&& after.graph.num_nodes() == c.graph.num_nodes()
            &&& after.search.labels.len() == c.search.labels.len()
            &&& lighter(c.graph, after.graph)
            &&& forall|k: int| j <= k < outs.len() ==> covered(after.graph, node, in_arc, #[trigger] outs[k])
        }),
    decreases outs.len() - j,
{
    lemma_lighter_chain(c.graph, c.graph, c.graph);
    if j < outs.len() {
        lemma_pair(c, node, in_arc, outs[j], max_settled_nodes);
        let next = handle_pair(c, node, in_arc, outs[j], true, max_settled_nodes);
        lemma_pairs_from(next, node, in_arc, outs, j + 1, max_settled_nodes);
        let after = handle_pairs_from(next, node, in_arc, outs, j + 1, true, max_settled_nodes);
        lemma_lighter_chain(c.graph, next.graph, after.graph);
        assert forall|k: int| j <= k < outs.len() implies covered(
            after.graph,
            node,
            in_arc,
            #[trigger] outs[k],
        ) by {
            if k == j {
                if in_arc.weight + outs[j].weight < WEIGHT_MAX {
                    lemma_around_lighter(
                        next.graph,
                        after.graph,
                        in_arc.adj_node,
                        outs[j].adj_node,
                        node,
                        in_arc.weight + outs[j].weight,
                    );
                }
            }
        }
    }
}

/// Looking at all pairs of the entering arcs from position `i` on with the leaving
/// arcs takes care of the ways that are made of them.
pub proof fn lemma_arcs_from(
    c: Contraction,
    node: NodeId,
    ins: Seq<Arc>,
    outs: Seq<Arc>,
    i: int,
    max_settled_nodes: usize,
)
    requires
        c.graph.consistent(),
        c.search.labels.len() == c.graph.num_nodes(),
        node < c.graph.num_nodes(),
        0 <= i <= ins.len(),
        forall|k: int|
            0 <= k < ins.len() ==> (#[trigger] ins[k]).adj_node < c.graph.num_nodes() && ins[k].adj_node
                != node,
        forall|k: int|
            0 <= k < outs.len() ==> (#[trigger] outs[k]).adj_node < c.graph.num_nodes() && outs[k].adj_node
                != node,
    ensures
        ({
            let after = handle_arcs_from(c, node, ins, outs, i, true, max_settled_nodes);
            &&& after.graph.consistent()
            &&& after.graph.num_nodes() == c.graph.num_nodes()
            &&& lighter(c.graph, after.graph)
            &&& forall|a: int, b: int|
                i <= a < ins.len() && 0 <= b < outs.len() ==> covered(
                    after.graph,
                    node,
                    #[trigger] ins[a],
                    #[trigger] outs[b],
                )
        }),
    decreases ins.len() - i,
{
    lemma_lighter_chain(c.graph, c.graph, c.graph);
    if i < ins.len() {
        let started = Contraction {
            search: WitnessState::init(c.search.labels.len(), ins[i].adj_node, node),
            ..c
        };
        lemma_init_sound(c.graph, c.search.labels.len(), ins[i].adj_node, node);
        assert(started.search.fits(started.graph));
        lemma_pairs_from(started, node, ins[i], outs, 0, max_settled_nodes);
        let next = handle_pairs_from(started, node, ins[i], outs, 0, true, max_settled_nodes);
        lemma_arcs_from(next, node, ins, outs, i + 1, max_settled_nodes);
        let after = handle_arcs_from(next, node, ins, outs, i + 1, true, max_settled_nodes);
        lemma_lighter_chain(c.graph, next.graph, after.graph);
        assert forall|a: int, b: int| i <= a < ins.len() && 0 <= b < outs.len() implies covered(
            after.graph,
            node,
            #[trigger] ins[a],
            #[trigger] outs[b],
        ) by {
            if a == i {
                assert(covered(next.graph, node, ins[i], outs[b]));
                if ins[i].weight + outs[b].weight < WEIGHT_MAX {
                    lemma_around_lighter(
                        next.graph,
                        after.graph,
                        ins[i].adj_node,
                        outs[b].adj_node,
                        node,
                        ins[i].weight + outs[b].weight,
                    );
                }
            }
        }
    }
}

/// After the shortcuts over a node were added, every way over the node that is made
/// of two arcs has a way around the node that is not heavier.
pub proof fn lemma_handle(g: ArcLists, search: WitnessState, node: NodeId, max_settled_nodes: usize)
    requires
        g.consistent(),
        search.labels.len() == g.num_nodes(),
        node < g.num_nodes(),
    ensures
        ({
            let after = handle(g, search, node, true, max_settled_nodes).graph;
            &&& after.consistent()
            &&& after.num_nodes() == g.num_nodes()
            &&& lighter(g, after)
            &&& forall|a: int, b: int|
                0 <= a < g.in_arcs[node as int].len() && 0 <= b < g.out_arcs[node as int].len()
                    ==> covered(
                    after,
                    node,
                    #[trigger] g.in_arcs[node as int][a],
                    #[trigger] g.out_arcs[node as int][b],
                )
        }),
{
    let ins = g.in_arcs[node as int];
    let outs = g.out_arcs[node as int];
    assert(!has_arc_to(ins, node));
    assert(!has_arc_to(outs, node));
    assert forall|k: int| 0 <= k < ins.len() implies (#[trigger] ins[k]).adj_node < g.num_nodes()
        && ins[k].adj_node != node by {
        assert(g.in_arcs[node as int][k].adj_node < g.num_nodes());
    }
    assert forall|k: int| 0 <= k < outs.len() implies (#[trigger] outs[k]).adj_node < g.num_nodes()
        && outs[k].adj_node != node by {
        assert(g.out_arcs[node as int][k].adj_node < g.num_nodes());
    }
    lemma_arcs_from(
        Contraction { graph: g, search, shortcuts: Seq::empty() },
        node,
        ins,
        outs,
        0,
        max_settled_nodes,
    );
}

/// Where every way over `node` that is made of two arcs is taken care of in a lighter
/// graph, every way of finite weight between two other nodes has a way around the node
/// in the lighter graph that is not heavier.
pub proof fn lemma_way_around(g: ArcLists, h: ArcLists, node: NodeId, nodes: Seq<NodeId>, weight: int)
    requires
        g.consistent(),
        node < g.num_nodes(),
        lighter(g, h),
        forall|a: int, b: int|
            0 <= a < g.in_arcs[node as int].len() && 0 <= b < g.out_arcs[node as int].len()
                ==> covered(
                h,
                node,
                #[trigger] g.in_arcs[node as int][a],
                #[trigger] g.out_arcs[node as int][b],
            ),
        arc_walk(g, nodes, weight),
        weight < WEIGHT_MAX,
        nodes[0] != node,
        nodes[nodes.len() - 1] != node,
    ensures
        way_around(h, nodes[0], nodes[nodes.len() - 1], node, weight),
    decreases nodes.len(),
{
    let n = nodes.len() as int;
    if n == 1 {
        lemma_around_self(h, nodes[0], node);
    } else {
        let w = choose|w: Weight| #[trigger]
            has_arc(g, nodes[n - 2], nodes[n - 1], w) && arc_walk(g, nodes.drop_last(), weight - w);
        let before = nodes.drop_last();
        let a = nodes[n - 2];
        let v = nodes[n - 1];
        lemma_walk_weight(g, before, weight - w);
        if a != node {
            lemma_way_around(g, h, node, before, weight - w);
            let lw = choose|lw: Weight| lw <= w && #[trigger] has_arc(h, a, v, lw);
            lemma_around_arc(h, nodes[0], a, node, weight - w, v, lw);
            lemma_around_more(h, nodes[0], v, node, weight - w + lw, weight);
        } else {
            // the way comes to the node over an arc from another node
            let m = before.len() as int;
            assert(m >= 2);
            let w1 = choose|w1: Weight| #[trigger]
                has_arc(g, before[m - 2], before[m - 1], w1) && arc_walk(
                    g,
                    before.drop_last(),
                    weight - w - w1,
                );
            let b = before[m - 2];
            let first = before.drop_last();
            lemma_walk_weight(g, first, weight - w - w1);
            // no arc leads from the node to itself
            let i_in = choose|i: int|
                0 <= i < g.out_arcs[b as int].len() && (#[trigger] g.out_arcs[b as int][i]).adj_node
                    == node && g.out_arcs[b as int][i].weight == w1;
            assert(!has_arc_to(g.out_arcs[node as int], node));
            if b == node {
                assert(g.out_arcs[node as int][i_in].adj_node == node);
            }
            lemma_way_around(g, h, node, first, weight - w - w1);
            // the two arcs are among the arcs of the node
            let arc_in = g.out_arcs[b as int][i_in];
            assert(g.in_arcs[node as int].contains(mirrored(arc_in, b as int)));
            let pa = choose|pa: int|
                0 <= pa < g.in_arcs[node as int].len() && g.in_arcs[node as int][pa] == mirrored(
                    arc_in,
                    b as int,
                );
            let pb = choose|pb: int|
                0 <= pb < g.out_arcs[node as int].len() && (
                #[trigger] g.out_arcs[node as int][pb]).adj_node == v && g.out_arcs[node as int][pb].weight
                    == w;
            assert(covered(h, node, g.in_arcs[node as int][pa], g.out_arcs[node as int][pb]));
            lemma_around_join(h, nodes[0], b, v, node, weight - w - w1, w1 + w);
            assert(first[0] == nodes[0]);
        }
    }
}

/// A way around a node is a way through the graph from which the node was cut out.
pub proof fn lemma_disconnect_walk(h: ArcLists, node: NodeId, nodes: Seq<NodeId>, weight: int)
    requires
        arc_walk(h, nodes, weight),
        avoids(nodes, node),
    ensures
        arc_walk(h.disconnect(node), nodes, weight),
    decreases nodes.len(),
{
    let cut = h.disconnect(node);
    if nodes.len() > 1 {
        let n = nodes.len() as int;
        let w = choose|w: Weight| #[trigger]
            has_arc(h, nodes[n - 2], nodes[n - 1], w) && arc_walk(h, nodes.drop_last(), weight - w);
        assert(avoids(nodes.drop_last(), node)) by {
            assert forall|i: int| 0 <= i < nodes.drop_last().len() implies #[trigger] nodes.drop_last()[i]
                != node by {
                assert(nodes[i] != node);
            }
        }
        lemma_disconnect_walk(h, node, nodes.drop_last(), weight - w);
        let a = nodes[n - 2];
        let v = nodes[n - 1];
        assert(a != node && v != node);
        let i = choose|i: int|
            0 <= i < h.out_arcs[a as int].len() && (#[trigger] h.out_arcs[a as int][i]).adj_node == v
                && h.out_arcs[a as int][i].weight == w;
        let arc = h.out_arcs[a as int][i];
        lemma_without_contains(h.out_arcs[a as int], node, arc);
        assert(h.out_arcs[a as int].contains(arc));
        let kept = cut.out_arcs[a as int];
        assert(kept.contains(arc));
        let j = choose|j: int| 0 <= j < kept.len() && kept[j] == arc;
        assert(cut.out_arcs[a as int][j].adj_node == v);
        assert(has_arc(cut, a, v, w));
    }
}

/// Contracting a node keeps the lightest ways between the other nodes: for every way
/// of finite weight between two other nodes, the graph without the node, with the
/// shortcuts added, has a way between the two nodes that is not heavier.
pub proof fn lemma_contract_keeps_ways(
    g: ArcLists,
    search: WitnessState,
    node: NodeId,
    max_settled_nodes: usize,
    nodes: Seq<NodeId>,
    weight: int,
)
    requires
        g.consistent(),
        search.labels.len() == g.num_nodes(),
        node < g.num_nodes(),
        arc_walk(g, nodes, weight),
        weight < WEIGHT_MAX,
        nodes[0] != node,
        nodes[nodes.len() - 1] != node,
    ensures
        way_around(
            handle(g, search, node, true, max_settled_nodes).graph.disconnect(node),
            nodes[0],
            nodes[nodes.len() - 1],
            node,
            weight,
        ),
{
    let h = handle(g, search, node, true, max_settled_nodes).graph;
    lemma_handle(g, search, node, max_settled_nodes);
    lemma_way_around(g, h, node, nodes, weight);
    let (around, w) = choose|around: Seq<NodeId>, w: int| #[trigger]
        goes_around(h, nodes[0], nodes[nodes.len() - 1], node, weight, around, w);
    lemma_disconnect_walk(h, node, around, w);
    assert(goes_around(
        h.disconnect(node),
        nodes[0],
        nodes[nodes.len() - 1],
        node,
        weight,
        around,
        w,
    ));
}

} // verus!
