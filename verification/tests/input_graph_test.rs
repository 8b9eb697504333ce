use fast_paths::input_graph::InputGraph;
use fast_paths::Weight;

fn weights(g: &InputGraph) -> Vec<Weight> {
    g.get_edges().iter().map(|e| e.weight).collect::<Vec<Weight>>()
}

#[test]
fn freeze_and_thaw() {
    let mut g = InputGraph::new();
    g.add_edge(0, 5, 10);
    g.add_edge(0, 5, 5);
    g.freeze();
    assert_eq!(1, g.get_num_edges());
    g.thaw();
    g.add_edge(0, 5, 1);
    g.freeze();
    assert_eq!(1, g.get_num_edges());
    assert_eq!(1, g.get_edges()[0].weight);
}

#[test]
fn num_nodes() {
    let mut g = InputGraph::new();
    g.add_edge(7, 1, 2);
    g.add_edge(5, 6, 4);
    g.add_edge(11, 8, 3);
    g.freeze();
    assert_eq!(12, g.get_num_nodes());
}

#[test]
fn skips_loops() {
    let mut g = InputGraph::new();
    g.add_edge(0, 1, 3);
    g.add_edge(4, 4, 2);
    g.add_edge(2, 5, 4);
    g.freeze();
    assert_eq!(2, g.get_num_edges());
}

#[test]
fn skips_zero_weight_edges() {
    let mut g = InputGraph::new();
    g.add_edge(0, 1, 5);
    g.add_edge(1, 2, 0);
    g.add_edge(2, 3, 3);
    g.freeze();
    assert_eq!(2, g.get_num_edges());
}

#[test]
fn skips_duplicate_edges() {
    let mut g = InputGraph::new();
    g.add_edge(0, 1, 7);
    g.add_edge(2, 3, 5);
    g.add_edge(0, 2, 3);
    g.add_edge(0, 1, 2);
    g.add_edge(4, 6, 9);
    g.add_edge(0, 1, 4);
    g.freeze();
    assert_eq!(4, g.get_num_edges());
    assert_eq!(vec![2, 3, 5, 9], weights(&g));
}

#[test]
fn skips_duplicate_edges_more() {
    let mut g = InputGraph::new();
    g.add_edge(1, 3, 43);
    g.add_edge(3, 2, 90);
    g.add_edge(3, 2, 88);
    g.add_edge(2, 3, 87);
    g.add_edge(3, 0, 75);
    g.add_edge(0, 2, 45);
    g.add_edge(1, 3, 71);
    g.add_edge(4, 3, 5);
    g.add_edge(1, 3, 91);
    g.freeze();
    assert_eq!(6, g.get_num_edges());
    assert_eq!(vec![45, 43, 87, 75, 88, 5], weights(&g));
}

#[test]
fn add_edge_tells_how_many_edges_were_added() {
    let mut g = InputGraph::new();
    assert_eq!(1, g.add_edge(0, 1, 3));
    assert_eq!(2, g.add_edge_bidir(1, 2, 4));
    assert_eq!(0, g.add_edge(3, 3, 4));
    assert_eq!(0, g.add_edge_bidir(3, 4, 0));
    g.freeze();
    assert_eq!(3, g.get_num_edges());
    assert_eq!(3, g.get_num_nodes());
    let ends: Vec<(usize, usize)> = g.get_edges().iter().map(|e| (e.from, e.to)).collect();
    assert_eq!(vec![(0, 1), (1, 2), (2, 1)], ends);
}

#[test]
fn frozen_edges_have_distinct_ends_and_least_weights() {
    let mut g = InputGraph::new();
    g.add_edge(2, 1, 9);
    g.add_edge(2, 1, 4);
    g.add_edge(0, 1, 6);
    g.add_edge(2, 1, 7);
    g.add_edge(0, 1, 8);
    g.freeze();
    let edges = g.get_edges();
    for i in 0..edges.len() {
        for j in (i + 1)..edges.len() {
            assert!((edges[i].from, edges[i].to) != (edges[j].from, edges[j].to));
        }
    }
    assert_eq!(vec![6, 4], weights(&g));
}

#[test]
fn empty_graph_has_no_nodes() {
    let mut g = InputGraph::default();
    g.freeze();
    assert_eq!(0, g.get_num_nodes());
    assert_eq!(0, g.get_num_edges());
}
