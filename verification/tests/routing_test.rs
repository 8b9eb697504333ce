use fast_paths::calc_path;
use fast_paths::fast_graph::FastGraph;
use fast_paths::fast_graph::FastGraphEdge;
use fast_paths::get_node_ordering;
use fast_paths::input_graph::InputGraph;
use fast_paths::path_calculator::PathCalculator;
use fast_paths::prepare;
use fast_paths::prepare_with_order;
use fast_paths::prepare_with_params;
use fast_paths::shortest_path::ShortestPath;
use fast_paths::NodeId;
use fast_paths::Params;
use fast_paths::Weight;
use fast_paths::INVALID_EDGE;

fn assert_path(
    fast_graph: &FastGraph,
    source: NodeId,
    target: NodeId,
    weight: Weight,
    nodes: Vec<NodeId>,
) {
    let fast_path = calc_path(fast_graph, source, target);
    assert_eq!(
        fast_path,
        Some(ShortestPath::new(source, target, weight, nodes.clone()))
    );
    // ShortestPath PartialEq does not consider nodes!
    assert_eq!(nodes, fast_path.unwrap().get_nodes().clone(),);
}

#[test]
fn calc_path_linear_bwd_only() {
    // 2->0->1
    let mut g = InputGraph::new();
    g.add_edge(2, 0, 9);
    g.add_edge(0, 1, 49);
    g.freeze();
    let fast_graph = prepare_with_order(&g, &vec![0, 1, 2]).unwrap();
    assert_path(&fast_graph, 2, 1, 58, vec![2, 0, 1]);
}

#[test]
fn calc_path_linear_fwd_only() {
    // 1->0->2
    let mut g = InputGraph::new();
    g.add_edge(1, 0, 9);
    g.add_edge(0, 2, 49);
    g.freeze();
    let fast_graph = prepare_with_order(&g, &vec![0, 1, 2]).unwrap();
    assert_path(&fast_graph, 1, 2, 58, vec![1, 0, 2]);
}

#[test]
fn calc_path_simple() {
    //   --->------4
    //  /          |
    // 0 - 1 - 2 - 3
    let mut g = InputGraph::new();
    g.add_edge_bidir(0, 1, 5);
    g.add_edge_bidir(1, 2, 3);
    g.add_edge_bidir(2, 3, 2);
    g.add_edge_bidir(3, 4, 6);
    g.add_edge(0, 4, 2);
    g.freeze();

    let fast_graph = prepare_with_order(&g, &vec![0, 1, 2, 3, 4]).unwrap();
    assert_path(&fast_graph, 0, 4, 2, vec![0, 4]);
    assert_path(&fast_graph, 4, 0, 16, vec![4, 3, 2, 1, 0]);
    assert_path(&fast_graph, 1, 4, 7, vec![1, 0, 4]);
    assert_path(&fast_graph, 2, 4, 8, vec![2, 3, 4]);
}

#[test]
fn calc_path_another() {
    // 4
    // |  \
    // 0 -> 2
    // |    |
    // 3  - 1
    let mut g = InputGraph::new();
    g.add_edge(0, 2, 1);
    g.add_edge(0, 4, 9);
    g.add_edge(1, 3, 3);
    g.add_edge(2, 1, 8);
    g.add_edge(3, 0, 4);
    g.add_edge(3, 1, 8);
    g.add_edge(4, 2, 4);
    g.freeze();

    let fast_graph = prepare_with_order(&g, &vec![0, 1, 2, 3, 4]).unwrap();
    assert_path(&fast_graph, 4, 3, 15, vec![4, 2, 1, 3]);
}

#[test]
fn unpack_fwd_single() {
    // 0 -> 1
    let mut g = FastGraph::new(2);
    g.edges_fwd
        .push(FastGraphEdge::new(0, 1, 3, INVALID_EDGE, INVALID_EDGE));
    let mut nodes = vec![];
    PathCalculator::unpack_fwd(&g, &mut nodes, 0, false);
    assert_eq!(nodes, vec![0]);
}

#[test]
fn unpack_fwd_simple() {
    // 0 -> 1 -> 2
    let mut g = FastGraph::new(3);
    g.edges_fwd
        .push(FastGraphEdge::new(0, 1, 2, INVALID_EDGE, INVALID_EDGE));
    g.edges_fwd.push(FastGraphEdge::new(0, 2, 5, 0, 0));
    g.edges_bwd
        .push(FastGraphEdge::new(2, 1, 3, INVALID_EDGE, INVALID_EDGE));
    g.first_edge_ids_fwd = vec![0, 2, 0, 0];
    let mut nodes = vec![];
    PathCalculator::unpack_fwd(&g, &mut nodes, 1, false);
    assert_eq!(nodes, vec![1, 0]);
}

#[test]
fn unpack_in_reverse_gives_the_nodes_the_other_way_round() {
    let mut g = FastGraph::new(3);
    g.edges_fwd
        .push(FastGraphEdge::new(0, 1, 2, INVALID_EDGE, INVALID_EDGE));
    g.edges_fwd.push(FastGraphEdge::new(0, 2, 5, 0, 0));
    g.edges_bwd
        .push(FastGraphEdge::new(2, 1, 3, INVALID_EDGE, INVALID_EDGE));
    let mut nodes = vec![7];
    PathCalculator::unpack_fwd(&g, &mut nodes, 1, true);
    assert_eq!(nodes, vec![7, 0, 1]);
    let mut nodes = vec![];
    PathCalculator::unpack_bwd(&g, &mut nodes, 0, true);
    assert_eq!(nodes, vec![1]);
}

#[test]
fn order_of_wrong_length_is_rejected() {
    let mut g = InputGraph::new();
    g.add_edge(0, 1, 3);
    g.add_edge(1, 2, 3);
    g.freeze();
    let result = prepare_with_order(&g, &vec![0, 1]);
    assert_eq!(
        Err(String::from(
            "The given order must have as many nodes as the input graph"
        )),
        result.map(|_| ())
    );
}

#[test]
fn no_path_is_found_against_the_direction_of_the_edges() {
    let mut g = InputGraph::new();
    g.add_edge(0, 1, 3);
    g.add_edge(1, 2, 4);
    g.freeze();
    let fast_graph = prepare(&g);
    assert_eq!(None, calc_path(&fast_graph, 2, 0));
    assert_path(&fast_graph, 0, 2, 7, vec![0, 1, 2]);
    assert_path(&fast_graph, 1, 1, 0, vec![1]);
}

#[test]
fn preparing_twice_gives_the_same_graph() {
    let mut g = InputGraph::new();
    g.add_edge_bidir(0, 1, 5);
    g.add_edge_bidir(1, 2, 3);
    g.add_edge_bidir(2, 3, 2);
    g.add_edge_bidir(3, 4, 6);
    g.add_edge(0, 4, 2);
    g.add_edge(4, 1, 1);
    g.freeze();
    let first = prepare(&g);
    let second = prepare_with_params(&g, &Params::default());
    assert_eq!(format!("{:?}", first), format!("{:?}", second));
}

#[test]
fn preparing_with_the_node_ordering_gives_the_same_ranks_and_paths() {
    let mut g = InputGraph::new();
    g.add_edge_bidir(0, 1, 5);
    g.add_edge_bidir(1, 2, 3);
    g.add_edge_bidir(2, 3, 2);
    g.add_edge_bidir(3, 4, 6);
    g.add_edge(0, 4, 2);
    g.add_edge(4, 1, 1);
    g.freeze();
    let first = prepare(&g);
    let order = get_node_ordering(&first);
    let second = prepare_with_order(&g, &order).unwrap();
    assert_eq!(first.ranks, second.ranks);
    for s in 0..5 {
        for t in 0..5 {
            assert_eq!(calc_path(&first, s, t), calc_path(&second, s, t));
        }
    }
}

#[test]
fn prepared_graph_holds_the_edges_at_the_node_of_lower_rank() {
    // 1 -> 0 -> 2 with order 0, 1, 2: the shortcut 1 -> 2 replaces both edges
    let mut g = InputGraph::new();
    g.add_edge(1, 0, 9);
    g.add_edge(0, 2, 49);
    g.freeze();
    let fast_graph = prepare_with_order(&g, &vec![0, 1, 2]).unwrap();
    assert_eq!(vec![0, 1, 2], fast_graph.ranks);
    assert_eq!(3, fast_graph.get_num_nodes());
    assert_eq!(2, fast_graph.get_num_out_edges());
    assert_eq!(1, fast_graph.get_num_in_edges());
    assert_eq!(vec![0, 1, 2, 2], fast_graph.first_edge_ids_fwd);
    assert_eq!(vec![0, 1, 1, 1], fast_graph.first_edge_ids_bwd);
    let shortcut = fast_graph.edges_fwd[1];
    assert_eq!((1, 2, 58), (shortcut.base_node, shortcut.adj_node, shortcut.weight));
    assert_eq!((0, 0), (shortcut.replaced_in_edge, shortcut.replaced_out_edge));
    assert!(shortcut.is_shortcut());
    assert!(!fast_graph.edges_fwd[0].is_shortcut());
    assert_eq!(0, fast_graph.begin_out_edges(0));
    assert_eq!(1, fast_graph.end_out_edges(0));
    assert_eq!(0, fast_graph.begin_in_edges(0));
    assert_eq!(1, fast_graph.end_in_edges(0));
}
