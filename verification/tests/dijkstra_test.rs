use fast_paths::dijkstra::Dijkstra;
use fast_paths::preparation_graph::PreparationGraph;
use fast_paths::shortest_path::ShortestPath;
use fast_paths::NodeId;
use fast_paths::Weight;

fn assert_no_path(
    dijkstra: &mut Dijkstra,
    graph: &PreparationGraph,
    source: NodeId,
    target: NodeId,
) {
    assert_eq!(dijkstra.calc_path(&graph, source, target), None);
    assert_eq!(dijkstra.calc_weight(&graph, source, target), None);
}

fn assert_path(
    dijkstra: &mut Dijkstra,
    graph: &PreparationGraph,
    source: NodeId,
    target: NodeId,
    weight: Weight,
    nodes: Vec<NodeId>,
) {
    let dijkstra_path = dijkstra.calc_path(&graph, source, target);
    assert_eq!(
        dijkstra_path,
        Some(ShortestPath::new(source, target, weight, nodes.clone()))
    );
    // ShortestPath PartialEq does not consider nodes!
    assert_eq!(nodes, dijkstra_path.unwrap().get_nodes().clone());
    assert_eq!(dijkstra.calc_weight(&graph, source, target), Some(weight));
}

#[test]
fn simple_path() {
    //      7 -> 8 -> 9
    //      |         |
    // 0 -> 5 -> 6 -  |
    // |         |  \ |
    // 1 -> 2 -> 3 -> 4
    let mut g = PreparationGraph::new(10);
    g.add_edge(0, 1, 1);
    g.add_edge(1, 2, 1);
    g.add_edge(2, 3, 1);
    g.add_edge(3, 4, 20);
    g.add_edge(0, 5, 5);
    g.add_edge(5, 6, 1);
    g.add_edge(6, 4, 20);
    g.add_edge(6, 3, 20);
    g.add_edge(5, 7, 5);
    g.add_edge(7, 8, 1);
    g.add_edge(8, 9, 1);
    g.add_edge(9, 4, 1);
    let mut d = Dijkstra::new(g.get_num_nodes());
    assert_no_path(&mut d, &g, 4, 0);
    assert_path(&mut d, &g, 4, 4, 0, vec![4]);
    assert_path(&mut d, &g, 6, 3, 20, vec![6, 3]);
    assert_path(&mut d, &g, 1, 4, 22, vec![1, 2, 3, 4]);
    assert_path(&mut d, &g, 0, 4, 13, vec![0, 5, 7, 8, 9, 4]);
}

#[test]
fn go_around() {
    // 0 -> 1
    // |    |
    // 2 -> 3
    let mut g = PreparationGraph::new(4);
    g.add_edge(0, 1, 10);
    g.add_edge(0, 2, 1);
    g.add_edge(2, 3, 1);
    g.add_edge(3, 1, 1);
    let mut d = Dijkstra::new(g.get_num_nodes());
    assert_path(&mut d, &g, 0, 1, 3, vec![0, 2, 3, 1]);
}

#[test]
fn dijkstra_avoid_node() {
    // 0 -> 1 -> 2
    // |         |
    // 3 -> 4 -> 5
    let mut g = PreparationGraph::new(6);
    g.add_edge(0, 1, 1);
    g.add_edge(1, 2, 1);
    g.add_edge(0, 3, 10);
    g.add_edge(3, 4, 1);
    g.add_edge(4, 5, 1);
    g.add_edge(5, 2, 1);
    let mut d = Dijkstra::new(g.get_num_nodes());
    assert_path(&mut d, &g, 0, 2, 2, vec![0, 1, 2]);
    assert_path(&mut d, &g, 0, 2, 2, vec![0, 1, 2]);
    d.avoid_node(1);
    assert_path(&mut d, &g, 0, 2, 13, vec![0, 3, 4, 5, 2]);
}

#[test]
fn dijkstra_limit_weight() {
    // 0 -> 1 -> 2 -> 3 -> 4
    let mut g = PreparationGraph::new(5);
    for i in 0..4 {
        g.add_edge(i, i + 1, 1);
    }
    let mut d = Dijkstra::new(g.get_num_nodes());
    assert_path(&mut d, &g, 0, 4, 4, vec![0, 1, 2, 3, 4]);
    d.set_max_weight(2);
    assert_no_path(&mut d, &g, 0, 4);
    assert_no_path(&mut d, &g, 0, 3);
    assert_path(&mut d, &g, 0, 2, 2, vec![0, 1, 2]);
    d.set_max_weight(3);
    assert_path(&mut d, &g, 0, 3, 3, vec![0, 1, 2, 3]);
}

#[test]
fn run_multiple() {
    // 0 -> 1 -> 2
    //       \
    //         3 -> 4
    //        / \
    //   7 <-6   |-> 5
    //            \
    //             8 -> 9 -> 10
    let mut g = PreparationGraph::new(11);
    g.add_edge(0, 1, 1);
    g.add_edge(1, 2, 1);
    g.add_edge(1, 3, 1);
    g.add_edge(3, 4, 1);
    g.add_edge(3, 6, 1);
    g.add_edge(6, 7, 1);
    g.add_edge(3, 5, 1);
    g.add_edge(3, 8, 1);
    g.add_edge(8, 9, 1);
    g.add_edge(9, 10, 1);
    let mut d = Dijkstra::new(g.get_num_nodes());
    // make sure that if we use the same source node multiple times the shortest path tree
    // is re-used correctly     ,
    assert_path(&mut d, &g, 0, 1, 1, vec![0, 1]);
    assert_path(&mut d, &g, 0, 2, 2, vec![0, 1, 2]);
    assert_path(&mut d, &g, 0, 4, 3, vec![0, 1, 3, 4]);
    assert_path(&mut d, &g, 0, 3, 2, vec![0, 1, 3]);
    assert_path(&mut d, &g, 0, 7, 4, vec![0, 1, 3, 6, 7]);
    assert_path(&mut d, &g, 0, 5, 3, vec![0, 1, 3, 5]);
    assert_path(&mut d, &g, 0, 10, 5, vec![0, 1, 3, 8, 9, 10]);

    // if we use another source node everything is reset correctly
    assert_path(&mut d, &g, 3, 10, 3, vec![3, 8, 9, 10]);
}

#[test]
fn search_gives_up_after_the_allowed_number_of_nodes() {
    // 0 -> 1 -> 2 -> 3
    let mut g = PreparationGraph::new(4);
    for i in 0..3 {
        g.add_edge(i, i + 1, 1);
    }
    let mut d = Dijkstra::new(g.get_num_nodes());
    d.set_max_nodes(2);
    assert_eq!(None, d.calc_weight(&g, 0, 3));
    d.avoid_node(9);
    d.set_max_nodes(usize::MAX);
    assert_eq!(Some(3), d.calc_weight(&g, 0, 3));
}
