use procon::graph::{DiGraph, Edge, UnGraph};

#[test]
fn edge_reverse_swaps_endpoints() {
    let e = Edge::new(2, 5);
    assert_eq!(e.source(), 2);
    assert_eq!(e.target(), 5);
    let r = e.reverse();
    assert_eq!(r, Edge::new(5, 2));
    // The original is unchanged.
    assert_eq!(e, Edge::new(2, 5));
}

#[test]
fn directed_graph_adjacency_in_insertion_order() {
    let mut graph = DiGraph::with_nodes(4);
    graph.add_edge(Edge::new(0, 1));
    graph.add_edge(Edge::new(0, 3));
    let out = graph.out_edges(0);
    assert_eq!(out[0], (Edge::new(0, 1), 0));
    assert_eq!(out[1], (Edge::new(0, 3), 1));
    assert_eq!(graph.out_edges(1).len(), 0);
    assert_eq!(graph.in_edges(1), &vec![(Edge::new(0, 1), 0)]);
    assert_eq!(graph.n_nodes(), 4);
    assert_eq!(graph.n_edges(), 2);
    assert_eq!(graph.edges(), &vec![Edge::new(0, 1), Edge::new(0, 3)]);
}

#[test]
fn undirected_graph_adjacency_in_insertion_order() {
    let mut graph = UnGraph::with_nodes(4);
    graph.add_edge(Edge::new(0, 1));
    graph.add_edge(Edge::new(0, 3));
    let out = graph.out_edges(0);
    assert_eq!(out[0], (Edge::new(0, 1), 0));
    assert_eq!(out[1], (Edge::new(0, 3), 1));
    assert_eq!(graph.n_edges(), 2);
}

#[test]
fn undirected_adjacency_is_symmetric() {
    // For every added edge (u, v), v appears in u's out-adjacency and
    // u appears in v's out-adjacency, both under the same edge index.
    let mut graph = UnGraph::with_nodes(5);
    let pairs = [(0usize, 1usize), (1, 2), (2, 0), (3, 4), (1, 1)];
    for (u, v) in pairs {
        graph.add_edge(Edge::new(u, v));
    }
    for (k, (u, v)) in pairs.iter().enumerate() {
        assert!(graph.out_edges(*u).contains(&(Edge::new(*u, *v), k)));
        assert!(graph.out_edges(*v).contains(&(Edge::new(*v, *u), k)));
        assert!(graph.in_edges(*u).contains(&(Edge::new(*v, *u), k)));
        assert!(graph.in_edges(*v).contains(&(Edge::new(*u, *v), k)));
    }
}

#[test]
fn with_edges_builds_the_same_graph_as_repeated_add_edge() {
    let edges = vec![Edge::new(0, 1), Edge::new(1, 2), Edge::new(3, 0), Edge::new(3, 1)];
    let built = DiGraph::with_edges(4, &edges);
    let mut grown = DiGraph::with_nodes(4);
    for e in &edges {
        grown.add_edge(*e);
    }
    assert_eq!(built.edges(), grown.edges());
    for node in 0..4 {
        assert_eq!(built.out_edges(node), grown.out_edges(node));
        assert_eq!(built.in_edges(node), grown.in_edges(node));
    }

    let undirected = UnGraph::with_edges(3, &vec![Edge::new(0, 2)]);
    assert_eq!(undirected.n_edges(), 1);
    assert_eq!(undirected.out_edges(2), &vec![(Edge::new(2, 0), 0)]);
}
