use fast_paths::input_graph::InputGraph;
use fast_paths::preparation_graph::Arc;
use fast_paths::preparation_graph::PreparationGraph;
use fast_paths::NodeId;
use fast_paths::INVALID_NODE;

fn adj_nodes(edges: &Vec<Arc>) -> Vec<NodeId> {
    edges.iter().map(|e| e.adj_node).collect::<Vec<NodeId>>()
}

#[test]
fn add_and_remove_edges() {
    let mut g = PreparationGraph::new(4);
    g.add_edge(0, 1, 1);
    g.add_edge(0, 2, 1);
    g.add_edge(0, 3, 1);
    g.add_edge(2, 3, 1);
    assert_eq!(adj_nodes(g.get_out_edges(0)), vec![1, 2, 3]);
    assert_eq!(adj_nodes(g.get_in_edges(3)), vec![0, 2]);

    g.remove_out_edge(0, 2);
    assert_eq!(adj_nodes(g.get_out_edges(0)), vec![1, 3]);
    assert_eq!(adj_nodes(g.get_in_edges(3)), vec![0, 2]);

    g.remove_in_edge(3, 0);
    assert_eq!(adj_nodes(g.get_out_edges(0)), vec![1, 3]);
    assert_eq!(adj_nodes(g.get_in_edges(3)), vec![2]);
}

#[test]
fn add_or_remove_edge() {
    // 0 -> 1
    let mut g = PreparationGraph::new(3);
    g.add_edge(0, 1, 10);
    g.add_or_reduce_edge(0, 1, 6, INVALID_NODE);
    assert_eq!(1, g.get_out_edges(0).len());
    assert_eq!(6, g.get_out_edges(0)[0].weight);
    assert_eq!(1, g.get_in_edges(1).len());
    assert_eq!(6, g.get_in_edges(1)[0].weight);
}

#[test]
fn disconnect() {
    // 0 <-> 1 <-> 2
    let mut g = PreparationGraph::new(4);
    g.add_edge(1, 0, 1);
    g.add_edge(1, 2, 1);
    g.add_edge(0, 1, 1);
    g.add_edge(2, 1, 1);
    assert_eq!(vec![0, 2], adj_nodes(g.get_out_edges(1)));
    assert_eq!(vec![0, 2], adj_nodes(g.get_in_edges(1)));
    g.disconnect(1);
    assert_eq!(0, adj_nodes(g.get_out_edges(0)).len());
    assert_eq!(0, adj_nodes(g.get_out_edges(1)).len());
    assert_eq!(0, adj_nodes(g.get_out_edges(2)).len());
    assert_eq!(0, adj_nodes(g.get_in_edges(0)).len());
    assert_eq!(0, adj_nodes(g.get_in_edges(1)).len());
    assert_eq!(0, adj_nodes(g.get_in_edges(2)).len());
}

#[test]
fn add_or_reduce_keeps_the_lighter_edge_and_adds_a_missing_one() {
    let mut g = PreparationGraph::new(3);
    g.add_edge(0, 1, 4);
    g.add_or_reduce_edge(0, 1, 9, 2);
    assert_eq!(4, g.get_out_edges(0)[0].weight);
    assert_eq!(INVALID_NODE, g.get_out_edges(0)[0].center_node);
    g.add_or_reduce_edge(0, 1, 3, 2);
    assert_eq!(3, g.get_out_edges(0)[0].weight);
    assert_eq!(2, g.get_out_edges(0)[0].center_node);
    assert_eq!(3, g.get_in_edges(1)[0].weight);
    assert_eq!(2, g.get_in_edges(1)[0].center_node);
    g.add_or_reduce_edge(1, 2, 5, 0);
    assert_eq!(vec![2], adj_nodes(g.get_out_edges(1)));
    assert_eq!(vec![1], adj_nodes(g.get_in_edges(2)));
    assert_eq!(3, g.get_num_nodes());
}

#[test]
fn from_input_graph_has_an_arc_for_each_edge() {
    let mut input = InputGraph::new();
    input.add_edge(0, 2, 7);
    input.add_edge(2, 1, 3);
    input.add_edge(0, 1, 4);
    input.freeze();
    let g = PreparationGraph::from_input_graph(&input);
    assert_eq!(3, g.get_num_nodes());
    assert_eq!(vec![1, 2], adj_nodes(g.get_out_edges(0)));
    assert_eq!(vec![0, 2], adj_nodes(g.get_in_edges(1)));
    assert_eq!(4, g.get_out_edges(0)[0].weight);
    assert_eq!(INVALID_NODE, g.get_out_edges(0)[0].center_node);
}
