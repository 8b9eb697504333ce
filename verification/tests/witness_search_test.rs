use fast_paths::preparation_graph::PreparationGraph;
use fast_paths::witness_search::WitnessSearch;
use fast_paths::INVALID_NODE;
use fast_paths::WEIGHT_MAX;

#[test]
fn witness_search_avoid_node() {
    // 0 -> 1 -> 2
    // |         |
    // 3 -> 4 -> 5
    let mut g = PreparationGraph::new(6);
    g.add_edge(0, 1, 1);
    g.add_edge(1, 2, 1);
    g.add_edge(0, 3, 10);
    g.add_edge(3, 4, 1);
    g.add_edge(4, 5, 1);
    g.add_edge(5, 2, 1);
    let mut ws = WitnessSearch::new(g.get_num_nodes());
    ws.init(0, INVALID_NODE);
    assert_eq!(2, ws.find_max_weight(&g, 2, 2, 100));
    assert_eq!(2, ws.find_max_weight(&g, 2, 2, 100));
    assert_eq!(2, ws.get_settled_nodes());
    ws.init(0, 1);
    assert_eq!(13, ws.find_max_weight(&g, 2, 13, 100));
    assert_eq!(4, ws.get_settled_nodes());
    // calling init again also resets settled nodes
    ws.init(4, 3);
    assert_eq!(2, ws.find_max_weight(&g, 2, 5, 100));
    assert_eq!(2, ws.get_settled_nodes());
}

#[test]
fn witness_search_limit_weight() {
    // 0 -> 1 -> 2 -> 3 -> 4
    let mut g = PreparationGraph::new(5);
    for i in 0..4 {
        g.add_edge(i, i + 1, 1);
    }
    let mut ws = WitnessSearch::new(g.get_num_nodes());
    ws.init(0, INVALID_NODE);
    assert_eq!(3, ws.find_max_weight(&g, 3, 3, 100));
    assert_eq!(3, ws.get_settled_nodes());
    // reset and reduce weight limit to 2. node 3 will not be settled, but we still get 3 as
    // upper bound for the weight of node 3
    ws.init(0, INVALID_NODE);
    assert_eq!(3, ws.find_max_weight(&g, 3, 2, 100));
    assert_eq!(3, ws.get_settled_nodes());
    // .. but not for node 4
    assert_eq!(WEIGHT_MAX, ws.find_max_weight(&g, 4, 2, 100));
    // if the weight has already be calculated no further search is required
    assert_eq!(2, ws.find_max_weight(&g, 2, 2, 100));
    assert_eq!(2, ws.find_max_weight(&g, 2, 2, 100));
    assert_eq!(2, ws.find_max_weight(&g, 2, 2, 100));
    // ... even when the weight limit is smaller than previously
    assert_eq!(2, ws.find_max_weight(&g, 2, 1, 100));
    assert_eq!(3, ws.get_settled_nodes());
    // we can extend the current search space
    assert_eq!(4, ws.find_max_weight(&g, 4, 3, 100));
    assert_eq!(4, ws.find_max_weight(&g, 4, 4, 100));
    assert_eq!(4, ws.find_max_weight(&g, 4, 5, 100));
    assert_eq!(4, ws.get_settled_nodes());
}

#[test]
fn stop_early() {
    // 0 -> 1 -> 2 -> 3
    //  \----------->/
    let mut g = PreparationGraph::new(4);
    g.add_edge(0, 1, 1);
    g.add_edge(1, 2, 1);
    g.add_edge(2, 3, 1);
    g.add_edge(0, 3, 4);
    let mut ws = WitnessSearch::new(g.get_num_nodes());
    ws.init(0, INVALID_NODE);
    // the shortest path weight is 3, but since we set the limit to 10 the alternative path
    // 0->3 with weight 4 that we find earlier is 'good enough' and find_max_weight returns
    // early
    assert_eq!(4, ws.find_max_weight(&g, 3, 10, 100));
    assert_eq!(1, ws.get_settled_nodes());
    // calling the same again still does not trigger an expansion of the search tree
    assert_eq!(4, ws.find_max_weight(&g, 3, 10, 100));
    assert_eq!(1, ws.get_settled_nodes());
    // this is still true when we reduce the weight limit to the weight of the sub-optimal path
    assert_eq!(4, ws.find_max_weight(&g, 3, 4, 100));
    assert_eq!(4, ws.find_max_weight(&g, 3, 4, 100));
    assert_eq!(1, ws.get_settled_nodes());
    // when we further reduce the weight limit the search needs to be more accurate
    assert_eq!(3, ws.find_max_weight(&g, 3, 3, 100));
    // ... even though settling node 3 is still not necessary
    assert_eq!(3, ws.get_settled_nodes());
    // ... and repeating the search yields the same result
    assert_eq!(3, ws.find_max_weight(&g, 3, 3, 100));
    assert_eq!(3, ws.get_settled_nodes());

    // we can also limit the number of settled nodes
    ws.init(0, INVALID_NODE);
    // ... here the weight limit is so large that the alternative path is returned anyway
    assert_eq!(4, ws.find_max_weight(&g, 3, 100, 2));
    assert_eq!(1, ws.get_settled_nodes());
    // ... here the weight limit does not allow the suboptimal weight to be returned, but once
    // the settled_nodes_limit is exceeded it is returned anyway
    assert_eq!(4, ws.find_max_weight(&g, 3, 3, 2));
    assert_eq!(2, ws.get_settled_nodes());
}

#[test]
fn large_edge_weight() {
    // 100 <- 99 <- ... <- 3 -> 2 -> 1
    //                      \-> 0 ->/
    let mut g = PreparationGraph::new(101);
    g.add_edge(3, 2, 100);
    g.add_edge(2, 1, 100);
    g.add_edge(3, 0, 50);
    g.add_edge(0, 1, 50);
    for i in 3..100 {
        g.add_edge(i, i + 1, 1);
    }
    let mut ws = WitnessSearch::new(g.get_num_nodes());
    // going from 3 to 1 while skipping 2 requires travelling along the large weight edge 3->0
    // this means many low weight edges will be visited first which slows down the search
    ws.init(3, 2);
    assert_eq!(100, ws.find_max_weight(&g, 1, 200, usize::MAX));
    assert_eq!(51, ws.get_settled_nodes());
    // we can improve this by limiting the number of settled nodes. however, in this case
    // we won't find the witness and risk inserting an unnecessary shortcut. this might or might
    // not be ok depending on the situation.
    ws.init(3, 2);
    assert_eq!(WEIGHT_MAX, ws.find_max_weight(&g, 1, 200, 5));
    assert_eq!(5, ws.get_settled_nodes());
}

#[test]
fn large_edge_weight_target_touched() {
    // 100 <- 99 <- ... <- 3 -> 2 -> 1
    //                      \-> 0 ->/
    let mut g = PreparationGraph::new(101);
    g.add_edge(3, 2, 100);
    g.add_edge(2, 1, 100);
    g.add_edge(3, 0, 1);
    g.add_edge(0, 1, 99);
    for i in 3..100 {
        g.add_edge(i, i + 1, 1);
    }
    let mut ws = WitnessSearch::new(g.get_num_nodes());
    // going from 3 to 1 while skipping 2 requires travelling the large weight edge 0->1 so
    // before 1 is settled many other nodes will be settled. however, find_max_weight already
    // returns even before node 1 is settled because the tentative weight is small enough
    ws.init(3, 2);
    assert_eq!(100, ws.find_max_weight(&g, 1, 200, usize::MAX));
    // .. just two settled nodes. this is quite important for preparation speed when there are
    // large weight edges
    assert_eq!(2, ws.get_settled_nodes());
}

#[test]
fn larger_limits_do_not_raise_the_bound_beyond_the_weight_limit() {
    // 0 -> 1 -> 2 -> 3
    //  \----------->/
    let mut g = PreparationGraph::new(4);
    g.add_edge(0, 1, 1);
    g.add_edge(1, 2, 1);
    g.add_edge(2, 3, 1);
    g.add_edge(0, 3, 4);
    for (small, large) in vec![(0, 3), (3, 10), (1, 4), (2, 100)] {
        for settled in vec![0, 1, 2, 3, 100] {
            let mut ws = WitnessSearch::new(g.get_num_nodes());
            ws.init(0, INVALID_NODE);
            let with_small = ws.find_max_weight(&g, 3, small, settled);
            ws.init(0, INVALID_NODE);
            let with_large = ws.find_max_weight(&g, 3, large, settled);
            assert!(with_large <= with_small || with_large <= large);
            ws.init(0, INVALID_NODE);
            let with_more = ws.find_max_weight(&g, 3, small, settled + 1);
            assert!(with_more <= with_small);
        }
    }
}

#[test]
fn the_start_node_has_weight_zero() {
    let mut g = PreparationGraph::new(2);
    g.add_edge(0, 1, 5);
    let mut ws = WitnessSearch::new(g.get_num_nodes());
    ws.init(1, 0);
    assert_eq!(0, ws.find_max_weight(&g, 1, 0, 0));
    assert_eq!(0, ws.get_settled_nodes());
}
