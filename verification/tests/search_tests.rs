use procon::graph::{BFS, DiGraph, Dijkstra, Edge, UnGraph};

#[test]
fn bfs_four_node_scenario() {
    // 4 nodes, directed edges (0,1), (1,2), (3,0), (3,1), root 0.
    let edges = vec![Edge::new(0, 1), Edge::new(1, 2), Edge::new(3, 0), Edge::new(3, 1)];
    let graph = DiGraph::with_edges(4, &edges);
    let algo = BFS::with_graph(&graph, 0);
    assert_eq!(algo.root(), 0);
    assert_eq!(algo.distance(), &vec![Some(0), Some(1), Some(2), None]);
    assert_eq!(algo.through(), &vec![None, Some(0), Some(1), None]);
}

#[test]
fn bfs_rerun_overwrites_previous_result() {
    let edges = vec![Edge::new(0, 1), Edge::new(1, 2), Edge::new(3, 0), Edge::new(3, 1)];
    let graph = DiGraph::with_edges(4, &edges);
    let mut algo = BFS::with_graph(&graph, 0);
    algo.read(&graph, 3);
    assert_eq!(algo.root(), 3);
    assert_eq!(algo.distance(), &vec![Some(1), Some(1), Some(2), Some(0)]);
    assert_eq!(algo.through(), &vec![Some(2), Some(3), Some(1), None]);
}

#[test]
fn bfs_on_an_undirected_path() {
    let edges = vec![Edge::new(0, 1), Edge::new(1, 2)];
    let graph = UnGraph::with_edges(3, &edges);
    let algo = BFS::with_graph(&graph, 2);
    assert_eq!(algo.distance(), &vec![Some(2), Some(1), Some(0)]);
    assert_eq!(algo.through(), &vec![Some(0), Some(1), None]);
}

#[test]
fn weighted_search_matches_bfs_on_unit_weights() {
    // Same graph as the four-node scenario, uniform weight 1 per
    // edge: identical distances.
    let edges = vec![Edge::new(0, 1), Edge::new(1, 2), Edge::new(3, 0), Edge::new(3, 1)];
    let graph = DiGraph::with_edges(4, &edges);
    let weights: Vec<u64> = vec![1, 1, 1, 1];
    let algo = Dijkstra::with_graph(&graph, 0, &weights);
    assert_eq!(algo.root(), 0);
    assert_eq!(algo.distance(), &vec![Some(0), Some(1), Some(2), None]);
    assert_eq!(algo.through(), &vec![None, Some(0), Some(1), None]);
}

#[test]
fn weighted_search_prefers_the_lighter_path() {
    let edges = vec![
        Edge::new(0, 1),
        Edge::new(0, 2),
        Edge::new(2, 1),
        Edge::new(1, 3),
        Edge::new(2, 3),
        Edge::new(3, 4),
        Edge::new(0, 4),
    ];
    let weights: Vec<u64> = vec![7, 2, 3, 1, 8, 2, 20];
    let graph = DiGraph::with_edges(5, &edges);
    let algo = Dijkstra::with_graph(&graph, 0, &weights);
    assert_eq!(algo.distance(), &vec![Some(0), Some(5), Some(2), Some(6), Some(8)]);
    assert_eq!(algo.through(), &vec![None, Some(2), Some(1), Some(3), Some(5)]);
}

/// The least total weight over every path from `root`, found by
/// exhaustive depth-first enumeration of simple paths.
fn brute_force_distances(
    n: usize,
    edges: &[(usize, usize)],
    weights: &[u64],
    root: usize,
) -> Vec<Option<u64>> {
    let mut adjacency: Vec<Vec<(usize, u64)>> = vec![Vec::new(); n];
    for (k, (u, v)) in edges.iter().enumerate() {
        adjacency[*u].push((*v, weights[k]));
    }
    let mut best: Vec<Option<u64>> = vec![None; n];
    let mut visited: Vec<bool> = vec![false; n];
    explore(&adjacency, &mut visited, root, 0, &mut best);
    best
}

fn explore(
    adjacency: &Vec<Vec<(usize, u64)>>,
    visited: &mut Vec<bool>,
    node: usize,
    cost: u64,
    best: &mut Vec<Option<u64>>,
) {
    if best[node].map_or(true, |b| cost < b) {
        best[node] = Some(cost);
    }
    visited[node] = true;
    for (next, w) in adjacency[node].clone() {
        if !visited[next] {
            explore(adjacency, visited, next, cost + w, best);
        }
    }
    visited[node] = false;
}

#[test]
fn weighted_search_agrees_with_brute_force_enumeration() {
    // With non-negative weights the computed distance to every
    // reachable node is the minimum path weight, checked here against
    // exhaustive path enumeration on small graphs.
    let cases: Vec<(usize, Vec<(usize, usize)>, Vec<u64>, usize)> = vec![
        (
            5,
            vec![(0, 1), (0, 2), (2, 1), (1, 3), (2, 3), (3, 4), (0, 4)],
            vec![7, 2, 3, 1, 8, 2, 20],
            0,
        ),
        (
            6,
            vec![(0, 1), (1, 2), (2, 5), (0, 3), (3, 4), (4, 5), (1, 4), (2, 2)],
            vec![3, 4, 9, 5, 2, 6, 0, 0],
            0,
        ),
        (4, vec![(0, 1), (1, 0), (2, 3)], vec![1, 1, 1], 1),
        (3, vec![(0, 1), (0, 1), (1, 2)], vec![9, 4, 1], 0),
    ];
    for (n, pairs, weights, root) in cases {
        let edges: Vec<Edge> = pairs.iter().map(|(u, v)| Edge::new(*u, *v)).collect();
        let graph = DiGraph::with_edges(n, &edges);
        let algo = Dijkstra::with_graph(&graph, root, &weights);
        let expected = brute_force_distances(n, &pairs, &weights, root);
        assert_eq!(algo.distance(), &expected);
    }
}

#[test]
fn weighted_search_on_an_undirected_graph() {
    let edges = vec![Edge::new(0, 1), Edge::new(1, 2), Edge::new(0, 2)];
    let weights: Vec<u64> = vec![2, 3, 10];
    let graph = UnGraph::with_edges(3, &edges);
    let algo = Dijkstra::with_graph(&graph, 2, &weights);
    assert_eq!(algo.distance(), &vec![Some(5), Some(3), Some(0)]);
}

#[test]
fn bfs_distances_step_by_single_hops() {
    // Every reached node at distance d > 0 has a predecessor edge
    // whose other endpoint sits at distance d - 1.
    let edges = vec![
        Edge::new(0, 1),
        Edge::new(0, 2),
        Edge::new(1, 3),
        Edge::new(2, 3),
        Edge::new(3, 4),
        Edge::new(4, 0),
    ];
    let graph = DiGraph::with_edges(5, &edges);
    let algo = BFS::with_graph(&graph, 0);
    let distance = algo.distance();
    let through = algo.through();
    for t in 0..5 {
        if t == 0 {
            assert_eq!(through[t], None);
            continue;
        }
        if let Some(d) = distance[t] {
            let e = through[t].expect("a reached node has a predecessor edge");
            let edge = graph.edges()[e];
            let m = if edge.target() == t { edge.source() } else { edge.target() };
            assert_eq!(distance[m], Some(d - 1));
        } else {
            assert_eq!(through[t], None);
        }
    }
}

#[test]
fn weighted_search_drops_sums_that_do_not_fit() {
    // A relaxation whose candidate weight exceeds the weight type is
    // dropped, so the node behind it stays unreached.
    let edges = vec![Edge::new(0, 1), Edge::new(1, 2)];
    let weights: Vec<u64> = vec![u64::MAX, 5];
    let graph = DiGraph::with_edges(3, &edges);
    let algo = Dijkstra::with_graph(&graph, 0, &weights);
    assert_eq!(algo.distance(), &vec![Some(0), Some(u64::MAX), None]);
    assert_eq!(algo.through(), &vec![None, Some(0), None]);
}

#[test]
fn searches_handle_self_loops_and_parallel_edges() {
    let edges = vec![Edge::new(0, 0), Edge::new(0, 1), Edge::new(0, 1)];
    let weights: Vec<u64> = vec![3, 9, 4];
    let graph = DiGraph::with_edges(2, &edges);
    let algo = Dijkstra::with_graph(&graph, 0, &weights);
    assert_eq!(algo.distance(), &vec![Some(0), Some(4)]);
    assert_eq!(algo.through(), &vec![None, Some(2)]);
    let bfs = BFS::with_graph(&graph, 0);
    assert_eq!(bfs.distance(), &vec![Some(0), Some(1)]);
    assert_eq!(bfs.through(), &vec![None, Some(1)]);
}
