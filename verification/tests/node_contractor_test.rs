use fast_paths::node_contractor::handle_shortcuts;
use fast_paths::node_contractor::relevance;
use fast_paths::node_contractor::calc_relevance;
use fast_paths::node_contractor::Shortcut;
use fast_paths::params::Params;
use fast_paths::preparation_graph::PreparationGraph;
use fast_paths::witness_search::WitnessSearch;
use fast_paths::NodeId;

fn calc_shortcuts(g: &mut PreparationGraph, node: NodeId) -> Vec<Shortcut> {
    let mut witness_search = WitnessSearch::new(g.get_num_nodes());
    handle_shortcuts(g, &mut witness_search, node, false, usize::MAX)
}

#[test]
fn calc_shortcuts_no_witness() {
    // 0 -> 2 -> 3
    // 1 ->/ \-> 4
    let mut g = PreparationGraph::new(5);
    g.add_edge(0, 2, 1);
    g.add_edge(1, 2, 2);
    g.add_edge(2, 3, 3);
    g.add_edge(2, 4, 1);
    let shortcuts = calc_shortcuts(&mut g, 2);
    let expected_shortcuts = vec![
        Shortcut::new(0, 3, 2, 4),
        Shortcut::new(0, 4, 2, 2),
        Shortcut::new(1, 3, 2, 5),
        Shortcut::new(1, 4, 2, 3),
    ];
    assert_eq!(expected_shortcuts, shortcuts);
}

#[test]
fn calc_shortcuts_witness() {
    // 0 -> 1 -> 2
    //  \-> 3 ->/
    let mut g = PreparationGraph::new(4);
    g.add_edge(0, 1, 1);
    g.add_edge(1, 2, 1);
    g.add_edge(0, 3, 1);
    g.add_edge(3, 2, 1);
    let shortcuts = calc_shortcuts(&mut g, 1);
    assert_eq!(0, shortcuts.len());
}

#[test]
fn calc_shortcuts_witness_via_center() {
    // 0 -> 1 -> 2
    // |  /
    // 3 -
    let mut g = PreparationGraph::new(4);
    g.add_edge(0, 1, 10);
    g.add_edge(1, 2, 1);
    g.add_edge(0, 3, 1);
    g.add_edge(3, 1, 1);
    let _shortcuts = calc_shortcuts(&mut g, 1);
    // performance: there is no need for a shortcut 0->1->2, because there is already the
    // (required) shortcut 3->1->2
    let _expected_shortcuts = vec![Shortcut::new(3, 2, 1, 2)];
}

#[test]
fn contract_node() {
    // 0 -> 1 -> 2
    // |  /   \  |
    // 3 --->--- 4
    let mut g = PreparationGraph::new(5);
    g.add_edge(0, 1, 1);
    g.add_edge(1, 2, 1);
    g.add_edge(0, 3, 1);
    g.add_edge(3, 1, 5);
    g.add_edge(1, 4, 4);
    g.add_edge(3, 4, 3);
    g.add_edge(4, 2, 1);
    let mut witness_search = WitnessSearch::new(g.get_num_nodes());
    fast_paths::node_contractor::contract_node(&mut g, &mut witness_search, 1, usize::MAX);
    // there should be a shortcut 0->2, but no shortcuts 0->4, 3->2
    // node 1 should be properly disconnected
    assert_eq!(0, g.get_out_edges(1).len());
    assert_eq!(0, g.get_in_edges(1).len());
    assert_eq!(2, g.get_out_edges(0).len());
    assert_eq!(2, g.get_in_edges(2).len());
}

#[test]
fn calc_priority() {
    //      3
    //      |
    // 0 -> 1 -> 2 -> 5
    //      |
    //      4
    let mut g = PreparationGraph::new(6);
    g.add_edge(0, 1, 1);
    g.add_edge(1, 2, 1);
    g.add_edge(2, 5, 1);
    g.add_edge(3, 1, 1);
    g.add_edge(1, 4, 1);
    let mut witness_search = WitnessSearch::new(g.get_num_nodes());
    let mut priorities = vec![];
    for node in 0..6 {
        priorities.push(calc_relevance(
            &mut g,
            &Params::default(),
            &mut witness_search,
            node,
            0,
            usize::MAX,
        ));
    }
    println!("{:?}", priorities);
    // no shortcuts at the ends: 1000 * 1 / 2; four shortcuts at node 1: 1000 * 5 / 5
    assert_eq!(vec![500, 1000, 666, 500, 500, 500], priorities);
}

#[test]
fn relevance_follows_its_formula() {
    let params = Params::default();
    assert_eq!(1000, relevance(&params, 0, 0, 0, 0));
    assert_eq!(100 * 7 + (1000 * 3 + 1000) / 6, relevance(&params, 7, 3, 2, 3));
    let steep = Params::new(10, 100, 3, 100);
    assert_eq!(10 * 4 + 2000 / 3, relevance(&steep, 4, 1, 1, 1));
    assert_eq!(usize::MAX, relevance(&Params::new(usize::MAX, 1, 1, 1), 2, 0, 0, 0));
}

#[test]
fn added_shortcuts_are_seen_by_later_searches() {
    // 0 -> 2 -> 3 and 1 -> 2, contracting 2 with the shortcuts added
    let mut g = PreparationGraph::new(4);
    g.add_edge(0, 2, 1);
    g.add_edge(1, 2, 2);
    g.add_edge(2, 3, 3);
    let mut witness_search = WitnessSearch::new(g.get_num_nodes());
    let shortcuts = handle_shortcuts(&mut g, &mut witness_search, 2, true, usize::MAX);
    assert_eq!(vec![Shortcut::new(0, 3, 2, 4), Shortcut::new(1, 3, 2, 5)], shortcuts);
    assert_eq!(2, g.get_out_edges(0).len());
    assert_eq!(4, g.get_out_edges(0)[1].weight);
    assert_eq!(2, g.get_out_edges(0)[1].center_node);
}
