use fast_paths::fast_graph::FastGraph;
use fast_paths::fast_graph::FastGraphEdge;
use fast_paths::fast_graph32::FastGraph32;
use fast_paths::heap_item::HeapItem;
use fast_paths::min_heap::MinHeap;
use fast_paths::shortest_path::ShortestPath;
use fast_paths::valid_flags::ValidFlags;
use fast_paths::INVALID_EDGE;
use fast_paths::WEIGHT_MAX;

#[test]
fn set_valid_and_invalidate() {
    let mut flags = ValidFlags::new(5);
    assert!(!flags.is_valid(3));
    flags.set_valid(3);
    assert!(flags.is_valid(3));
    flags.invalidate_all();
    assert!(!flags.is_valid(3));
}

#[test]
fn create() {
    let num_nodes = 5;
    let ranks = vec![286, 45, 480_001, std::usize::MAX, 4468];
    let edges_fwd = vec![
        FastGraphEdge::new(std::usize::MAX, 598, 48, std::usize::MAX, std::usize::MAX),
        FastGraphEdge::new(
            std::usize::MAX,
            std::usize::MAX,
            std::usize::MAX,
            4,
            std::usize::MAX,
        ),
    ];
    let edges_bwd = vec![FastGraphEdge::new(0, 1, 3, 4, std::usize::MAX)];
    let first_edge_ids_fwd = vec![1, std::usize::MAX, std::usize::MAX];
    let first_edge_ids_bwd = vec![1, std::usize::MAX, 5, std::usize::MAX, 9, 10];

    let mut g = FastGraph::new(num_nodes);
    g.ranks = ranks;
    g.edges_fwd = edges_fwd;
    g.first_edge_ids_fwd = first_edge_ids_fwd;
    g.edges_bwd = edges_bwd;
    g.first_edge_ids_bwd = first_edge_ids_bwd;

    assert!(FastGraph32::can_hold(&g));
    let g32 = FastGraph32::new(&g);
    assert_eq!(g32.get_num_nodes(), 5);

    assert_eq!(g32.ranks.len(), 5);
    assert_eq!(g32.ranks[0], 286);
    assert_eq!(g32.ranks[2], 480_001);
    assert_eq!(g32.ranks[3], std::u32::MAX);

    assert_eq!(g32.edges_fwd.len(), 2);
    assert_eq!(g32.edges_fwd[0].base_node, std::u32::MAX);
    assert_eq!(g32.edges_fwd[0].adj_node, 598);
    assert_eq!(g32.edges_fwd[0].weight, 48);
    assert_eq!(g32.edges_fwd[0].replaced_in_edge, std::u32::MAX);
    assert_eq!(g32.edges_fwd[0].replaced_out_edge, std::u32::MAX);

    assert_eq!(g32.edges_fwd[1].base_node, std::u32::MAX);
    assert_eq!(g32.edges_fwd[1].adj_node, std::u32::MAX);
    assert_eq!(g32.edges_fwd[1].weight, std::u32::MAX);
    assert_eq!(g32.edges_fwd[1].replaced_in_edge, 4);
    assert_eq!(g32.edges_fwd[1].replaced_out_edge, std::u32::MAX);

    assert_eq!(g32.edges_bwd.len(), 1);
    assert_eq!(g32.edges_bwd[0].weight, 3);
    assert_eq!(g32.edges_bwd[0].replaced_out_edge, std::u32::MAX);

    assert_eq!(g32.first_edge_ids_fwd.len(), 3);
    assert_eq!(g32.first_edge_ids_fwd[1], std::u32::MAX);
    assert_eq!(g32.first_edge_ids_bwd.len(), 6);
    assert_eq!(g32.first_edge_ids_bwd[3], std::u32::MAX);
    assert_eq!(g32.first_edge_ids_bwd[4], 9);

    // briefly check back-conversion
    let g_from32 = g32.convert_to_usize();
    assert_eq!(g_from32.get_num_nodes(), 5);
    assert_eq!(
        g_from32.ranks,
        vec![286, 45, 480_001, std::usize::MAX, 4468]
    );
    assert_eq!(g_from32.first_edge_ids_fwd[2], std::usize::MAX);
    assert_eq!(g_from32.first_edge_ids_bwd[0], 1);
    assert_eq!(g_from32.first_edge_ids_bwd[1], std::usize::MAX);
    assert_eq!(g_from32.edges_fwd[0].base_node, std::usize::MAX);
    assert_eq!(g_from32.edges_fwd[0].adj_node, 598);
    assert_eq!(g_from32.edges_fwd[0].weight, 48);
    assert_eq!(g_from32.edges_bwd[0].replaced_in_edge, 4);
}

#[test]
fn too_large_numbers_cannot_be_held_in_32_bits() {
    let mut g = FastGraph::new(5);
    g.ranks = vec![5_000_000_000];
    assert!(!FastGraph32::can_hold(&g));
}

#[test]
fn graph_comes_back_unchanged_from_32_bits() {
    let mut g = FastGraph::new(2);
    g.ranks = vec![1, 0];
    g.edges_fwd = vec![FastGraphEdge::new(1, 0, 7, INVALID_EDGE, INVALID_EDGE)];
    g.first_edge_ids_fwd = vec![0, 1, 1];
    g.first_edge_ids_bwd = vec![0, 0, 0];
    let back = FastGraph32::new(&g).convert_to_usize();
    assert_eq!(back.get_num_nodes(), 2);
    assert_eq!(back.ranks, g.ranks);
    assert_eq!(back.first_edge_ids_fwd, g.first_edge_ids_fwd);
    assert_eq!(back.first_edge_ids_bwd, g.first_edge_ids_bwd);
    assert_eq!(back.edges_fwd.len(), 1);
    assert_eq!(back.edges_fwd[0].base_node, 1);
    assert_eq!(back.edges_fwd[0].adj_node, 0);
    assert_eq!(back.edges_fwd[0].weight, 7);
    assert_eq!(back.edges_fwd[0].replaced_in_edge, INVALID_EDGE);
    assert_eq!(back.edges_fwd[0].replaced_out_edge, INVALID_EDGE);
    assert_eq!(back.edges_bwd.len(), 0);
}

#[test]
fn node_ordering_is_the_inverse_of_the_ranks() {
    let mut g = FastGraph::new(4);
    g.ranks = vec![2, 0, 3, 1];
    assert_eq!(vec![1, 3, 0, 2], g.get_node_ordering());
}

#[test]
fn shortcut_names_the_edges_it_replaces() {
    assert!(!FastGraphEdge::new(0, 1, 3, INVALID_EDGE, INVALID_EDGE).is_shortcut());
    assert!(FastGraphEdge::new(0, 1, 3, 4, 5).is_shortcut());
}

#[test]
fn heap_hands_out_the_least_weight_first_and_the_least_node_among_equals() {
    let mut heap = MinHeap::new();
    assert!(heap.is_empty());
    for (weight, node) in vec![(5, 1), (3, 7), (9, 0), (3, 2), (4, 4), (3, 9), (0, 8)] {
        heap.push(HeapItem::new(weight, node));
    }
    assert_eq!(7, heap.len());
    let top = heap.peek().unwrap();
    assert_eq!((0, 8), (top.weight, top.node_id));
    let mut popped = vec![];
    while let Some(item) = heap.pop() {
        popped.push((item.weight, item.node_id));
    }
    assert_eq!(vec![(0, 8), (3, 2), (3, 7), (3, 9), (4, 4), (5, 1), (9, 0)], popped);
    heap.push(HeapItem::new(1, 1));
    heap.clear();
    assert!(heap.pop().is_none());
}

#[test]
fn heap_items_compare_by_weight_only() {
    assert!(HeapItem::new(3, 1) == HeapItem::new(3, 2));
    assert!(HeapItem::new(2, 1) > HeapItem::new(3, 1));
    assert!(HeapItem::new(4, 1) < HeapItem::new(3, 1));
}

#[test]
fn shortest_paths_are_equal_when_ends_and_weights_are() {
    let a = ShortestPath::new(1, 4, 9, vec![1, 2, 4]);
    let b = ShortestPath::new(1, 4, 9, vec![1, 3, 4]);
    assert_eq!(a, b);
    assert!(a != ShortestPath::new(1, 4, 8, vec![1, 2, 4]));
    assert_eq!(&vec![1, 2, 4], a.get_nodes());
    assert_eq!(1, a.get_source());
    assert_eq!(4, a.get_target());
    assert_eq!(9, a.get_weight());
    assert!(a.is_found());
    let none = ShortestPath::none(2, 3);
    assert!(!none.is_found());
    assert_eq!(WEIGHT_MAX, none.get_weight());
    assert_eq!(0, none.get_nodes().len());
    let single = ShortestPath::singular(6);
    assert_eq!(&vec![6], single.get_nodes());
    assert_eq!(0, single.get_weight());
    assert_eq!(ShortestPath::new(6, 6, 0, vec![]), single);
}
