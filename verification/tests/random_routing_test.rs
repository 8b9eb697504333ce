use fast_paths::create_calculator;
use fast_paths::dijkstra::Dijkstra;
use fast_paths::input_graph::InputGraph;
use fast_paths::prepare;
use fast_paths::preparation_graph::PreparationGraph;
use fast_paths::shortest_path::ShortestPath;
use fast_paths::NodeId;
use fast_paths::Weight;
use fast_paths::WEIGHT_MAX;
use rand::rngs::StdRng;
use rand::Rng;
use std::time::SystemTime;
use std::time::UNIX_EPOCH;

/// The plain algorithm of Floyd and Warshall, to compare with.
struct FloydWarshall {
    num_nodes: usize,
    matrix: Vec<Weight>,
}

impl FloydWarshall {
    fn new(num_nodes: usize) -> Self {
        FloydWarshall {
            num_nodes,
            matrix: vec![WEIGHT_MAX; num_nodes * num_nodes],
        }
    }

    fn prepare(&mut self, input_graph: &InputGraph) {
        assert_eq!(
            input_graph.get_num_nodes(),
            self.num_nodes,
            "input graph has invalid number of nodes"
        );
        let n = self.num_nodes;
        for e in input_graph.get_edges() {
            self.matrix[e.from * n + e.to] = e.weight;
        }
        for k in 0..n {
            for i in 0..n {
                for j in 0..n {
                    if i == j {
                        self.matrix[i * n + j] = 0;
                    }
                    let weight_ik = self.matrix[i * n + k];
                    let weight_kj = self.matrix[k * n + j];
                    if weight_ik == WEIGHT_MAX || weight_kj == WEIGHT_MAX {
                        continue;
                    }
                    let idx = i * n + j;
                    self.matrix[idx] = std::cmp::min(self.matrix[idx], weight_ik + weight_kj)
                }
            }
        }
    }

    fn calc_weight(&self, source: NodeId, target: NodeId) -> Weight {
        return self.matrix[source * self.num_nodes + target];
    }
}

fn create_seed() -> u64 {
    SystemTime::now().duration_since(UNIX_EPOCH).unwrap().as_nanos() as u64
}

fn create_rng() -> StdRng {
    rand::SeedableRng::seed_from_u64(create_seed())
}

fn random_graph(rng: &mut StdRng, num_nodes: usize, mean_degree: f32) -> InputGraph {
    let num_edges = (mean_degree * num_nodes as f32) as usize;
    let mut result = InputGraph::new();
    let mut edge_count = 0;
    loop {
        let head = rng.gen_range(0, num_nodes);
        let tail = rng.gen_range(0, num_nodes);
        // limit max weight, but otherwise allow duplicates, loops etc. to make sure clean-up
        // inside InputGraph works correctly
        let weight = rng.gen_range(1, 100);
        edge_count += result.add_edge(tail, head, weight);
        if edge_count == num_edges {
            break;
        }
    }
    result.freeze();
    result
}

#[test]
fn calc_weights() {
    // 0 -> 1 -- 3
    // |         |
    // 4 -> 5 -> 6
    //      |    |
    //      7 -> 8
    let mut g = InputGraph::new();
    g.add_edge(0, 1, 6);
    g.add_edge(0, 4, 1);
    g.add_edge(4, 5, 1);
    g.add_edge(5, 7, 1);
    g.add_edge(7, 8, 1);
    g.add_edge(8, 6, 1);
    g.add_edge(6, 3, 1);
    g.add_edge(3, 1, 1);
    g.add_edge(1, 3, 1);
    g.add_edge(5, 6, 4);
    g.freeze();
    let mut fw = FloydWarshall::new(g.get_num_nodes());
    fw.prepare(&g);
    assert_eq!(fw.calc_weight(0, 3), 6);
    assert_eq!(fw.calc_weight(5, 3), 4);
    assert_eq!(fw.calc_weight(1, 1), 0);
    assert_eq!(fw.calc_weight(5, 5), 0);
    assert_eq!(fw.calc_weight(6, 5), WEIGHT_MAX);
    assert_eq!(fw.calc_weight(8, 0), WEIGHT_MAX);
}

fn run_test_on_random_graph() {
    const NUM_NODES: usize = 50;
    const NUM_QUERIES: usize = 1_000;
    const MEAN_DEGREE: f32 = 2.0;

    let mut rng = create_rng();
    let input_graph = random_graph(&mut rng, NUM_NODES, MEAN_DEGREE);
    let fast_graph = prepare(&input_graph);
    let mut path_calculator = create_calculator(&fast_graph);

    let dijkstra_graph = PreparationGraph::from_input_graph(&input_graph);
    let mut dijkstra = Dijkstra::new(input_graph.get_num_nodes());

    let mut fw = FloydWarshall::new(input_graph.get_num_nodes());
    fw.prepare(&input_graph);

    let mut num_different_paths = 0;
    for _i in 0..NUM_QUERIES {
        let source = rng.gen_range(0, input_graph.get_num_nodes());
        let target = rng.gen_range(0, input_graph.get_num_nodes());
        let path_fast = path_calculator
            .calc_path(&fast_graph, source, target)
            .unwrap_or(ShortestPath::none(source, target));
        let path_dijkstra = dijkstra
            .calc_path(&dijkstra_graph, source, target)
            .unwrap_or(ShortestPath::none(source, target));
        let weight_fast = path_fast.get_weight();
        let weight_dijkstra = path_dijkstra.get_weight();
        let weight_fw = fw.calc_weight(source, target);
        assert_eq!(
            weight_fw, weight_fast,
            "\nNo agreement for routing query from: {} to: {}\nFloyd-Warshall: {}\nCH: {}\
             \n Failing graph:\n{:?}",
            source, target, weight_fw, weight_fast, input_graph
        );
        assert_eq!(
            path_dijkstra, path_fast,
            "\nNo agreement for routing query from: {} to: {}\nDijkstra: {}\nCH: {}\
             \n Failing graph:\n{:?}",
            source, target, weight_dijkstra, weight_fast, input_graph
        );
        if path_dijkstra.get_nodes() != path_fast.get_nodes() {
            num_different_paths += 1;
        }
    }
    if num_different_paths as f32 > 0.1 * NUM_QUERIES as f32 {
        panic!(
            "too many different paths: {}, out of {}, a few different paths can be expected \
                because of unambiguous shortest paths, but if there are too many something is \
                wrong",
            num_different_paths, NUM_QUERIES
        );
    }
}

#[test]
fn routing_on_random_graph() {
    const REPEATS: usize = 100;
    for _i in 0..REPEATS {
        run_test_on_random_graph();
    }
}

#[test]
fn multi_source_routing_on_random_graph() {
    const REPEATS: usize = 100;
    for _ in 0..REPEATS {
        const NUM_NODES: usize = 50;
        const NUM_QUERIES: usize = 1_000;
        const MEAN_DEGREE: f32 = 2.0;
        const NUM_SOURCES: usize = 3;

        let mut rng = create_rng();
        let input_graph = random_graph(&mut rng, NUM_NODES, MEAN_DEGREE);
        let fast_graph = prepare(&input_graph);
        let mut path_calculator = create_calculator(&fast_graph);

        let dijkstra_graph = PreparationGraph::from_input_graph(&input_graph);
        let mut dijkstra = Dijkstra::new(input_graph.get_num_nodes());

        let mut num_different_paths = 0;
        for _ in 0..NUM_QUERIES {
            // This may pick duplicate source nodes, and even duplicate source nodes with
            // different weights; anyway that shouldn't break anything.
            let sources: Vec<(NodeId, Weight)> = (0..NUM_SOURCES)
                .map(|_| {
                    (
                        rng.gen_range(0, input_graph.get_num_nodes()),
                        // sometimes use sources nodes with max weight
                        if rng.gen_range(0, 100) < 3 {
                            WEIGHT_MAX
                        } else {
                            rng.gen_range(0, 100)
                        },
                    )
                })
                .collect();
            let target = rng.gen_range(0, input_graph.get_num_nodes());
            let fast_path = path_calculator.calc_path_multiple_endpoints(
                &fast_graph,
                sources.clone(),
                target,
            );
            let dijkstra_paths: Vec<(Option<ShortestPath>, Weight)> = sources
                .iter()
                .map(|(source, weight)| {
                    (
                        dijkstra.calc_path(&dijkstra_graph, *source, target),
                        *weight,
                    )
                })
                .collect();

            let found_dijkstras: Vec<(ShortestPath, usize)> = dijkstra_paths
                .into_iter()
                .filter(|(p, w)| p.is_some() && *w < WEIGHT_MAX)
                .map(|(p, w)| (p.unwrap(), w))
                .collect();

            // We have to make sure fast_path is as short as the shortest of all dijkstra_paths
            let shortest_dijkstra_weight = found_dijkstras
                .iter()
                .map(|(p, w)| p.get_weight() + w)
                .min();

            if shortest_dijkstra_weight.is_none() {
                assert!(fast_path.is_none());
                return;
            }

            assert!(fast_path.is_some());
            let f = fast_path.unwrap();
            let w = shortest_dijkstra_weight.unwrap();
            assert_eq!(w, f.get_weight(),
                       "\nfast_path's weight {} does not match the weight of the shortest Dijkstra path {}.\
                           \nsources: {:?}\
                           \ntargets: {}\
                           \nFailing graph:\n{:?}",
                       f.get_weight(), w, sources, target, input_graph);

            // There can be multiple options with the same weight. fast_path has to match
            // at least one of them
            let matching_dijkstras: Vec<(ShortestPath, Weight)> = found_dijkstras
                .into_iter()
                .filter(|(p, w)| {
                    p.get_weight() + w == f.get_weight()
                        && p.get_source() == f.get_source()
                        && p.get_target() == f.get_target()
                })
                .collect();

            assert!(
                matching_dijkstras.len() > 0,
                "There has to be at least one Dijkstra path with source,target and weight equal to fast_path"
            );

            // one of the matching Dijkstra's should have the same nodes as fast_path, but in
            // some rare cases this can be the case
            if !matching_dijkstras
                .into_iter()
                .any(|(p, _)| p.get_nodes() == f.get_nodes())
            {
                num_different_paths += 1;
            }
        }
        if num_different_paths as f32 > 0.1 * NUM_QUERIES as f32 {
            panic!(
                "too many different paths: {}, out of {}, a few different paths can be expected \
                    because of unambiguous shortest paths, but if there are too many something is \
                    wrong",
                num_different_paths, NUM_QUERIES
            );
        }
    }
}

#[test]
fn deterministic_result() {
    const NUM_NODES: usize = 50;
    const MEAN_DEGREE: f32 = 2.0;

    // Repeat a few times to reduce test flakiness.
    for _ in 0..10 {
        let mut rng = create_rng();
        let input_graph = random_graph(&mut rng, NUM_NODES, MEAN_DEGREE);
        let serialized1 = format!("{:?}", prepare(&input_graph));
        let serialized2 = format!("{:?}", prepare(&input_graph));
        if serialized1 != serialized2 {
            panic!("Preparing and serializing the same graph twice produced different results");
        }
    }
}

#[test]
fn found_paths_follow_edges_whose_weights_add_up() {
    const NUM_NODES: usize = 40;
    const MEAN_DEGREE: f32 = 2.5;

    for _ in 0..10 {
        let mut rng = create_rng();
        let input_graph = random_graph(&mut rng, NUM_NODES, MEAN_DEGREE);
        let fast_graph = prepare(&input_graph);
        let mut path_calculator = create_calculator(&fast_graph);
        for source in 0..input_graph.get_num_nodes() {
            for target in 0..input_graph.get_num_nodes() {
                let path = match path_calculator.calc_path(&fast_graph, source, target) {
                    Some(path) => path,
                    None => continue,
                };
                let nodes = path.get_nodes();
                assert_eq!(nodes[0], source);
                assert_eq!(nodes[nodes.len() - 1], target);
                assert_eq!(path.get_source(), source);
                assert_eq!(path.get_target(), target);
                let mut sum: Weight = 0;
                for i in 1..nodes.len() {
                    let edge = input_graph
                        .get_edges()
                        .iter()
                        .find(|e| e.from == nodes[i - 1] && e.to == nodes[i])
                        .expect("no edge between two nodes of the path");
                    sum += edge.weight;
                }
                assert_eq!(sum, path.get_weight());
            }
        }
    }
}

#[test]
fn several_sources_give_the_least_weight_of_them_all() {
    const NUM_NODES: usize = 30;
    const MEAN_DEGREE: f32 = 2.5;

    for _ in 0..10 {
        let mut rng = create_rng();
        let input_graph = random_graph(&mut rng, NUM_NODES, MEAN_DEGREE);
        let n = input_graph.get_num_nodes();
        let fast_graph = prepare(&input_graph);
        let mut path_calculator = create_calculator(&fast_graph);
        let mut fw = FloydWarshall::new(n);
        fw.prepare(&input_graph);
        for target in 0..n {
            let first = rng.gen_range(0, n);
            let second = (first + 1 + rng.gen_range(0, n - 1)) % n;
            let sources: Vec<(NodeId, Weight)> =
                vec![(first, rng.gen_range(0, 50)), (second, rng.gen_range(0, 50))];
            let least = sources
                .iter()
                .filter(|(s, _)| fw.calc_weight(*s, target) < WEIGHT_MAX)
                .map(|(s, w)| fw.calc_weight(*s, target) + w)
                .min();
            let found =
                path_calculator.calc_path_multiple_endpoints(&fast_graph, sources.clone(), target);
            assert_eq!(least, found.map(|p| p.get_weight()));
        }
    }
}
