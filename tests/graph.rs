use heap_graph::graph::{Graph, NodeNotInGraph, UndirectedGraph};

fn neighbours(graph: &UndirectedGraph, node: &str) -> Vec<(String, i32)> {
    graph
        .adjacency_table()
        .iter()
        .find(|(n, _)| n == node)
        .unwrap()
        .1
        .iter()
        .map(|(n, w)| (n.clone(), *w))
        .collect()
}

fn edge(a: &str, b: &str, w: i32) -> (String, String, i32) {
    (String::from(a), String::from(b), w)
}

#[test]
fn test_add_edge() {
    let mut graph = UndirectedGraph::new();
    graph.add_edge(("a", "b", 5));
    graph.add_edge(("b", "c", 10));
    graph.add_edge(("c", "a", 7));

    let expected_edges = [
        edge("a", "b", 5),
        edge("b", "a", 5),
        edge("c", "a", 7),
        edge("a", "c", 7),
        edge("b", "c", 10),
        edge("c", "b", 10),
    ];

    for e in expected_edges.iter() {
        assert!(graph.edges().contains(e), "Edge {:?} not found", e);
    }
}

#[test]
fn test_add_node() {
    let mut graph = UndirectedGraph::new();
    assert!(graph.add_node("a"), "Node 'a' should be added successfully");
    assert!(!graph.add_node("a"), "Node 'a' should not be added again");
    assert!(graph.contains("a"), "Node 'a' should be in the graph");
}

#[test]
fn test_nodes_and_edges() {
    let mut graph = UndirectedGraph::new();
    graph.add_edge(("a", "b", 5));
    graph.add_edge(("b", "c", 10));

    let nodes: Vec<String> = graph.nodes();
    assert_eq!(nodes.len(), 3, "There should be 3 nodes in the graph");
    assert!(nodes.contains(&String::from("a")), "Node 'a' should be in the graph");
    assert!(nodes.contains(&String::from("b")), "Node 'b' should be in the graph");
    assert!(nodes.contains(&String::from("c")), "Node 'c' should be in the graph");

    let edges = graph.edges();
    assert_eq!(edges.len(), 4, "There should be 4 edges in the graph");
    assert!(edges.contains(&edge("a", "b", 5)), "Edge ('a', 'b', 5) should be in the graph");
    assert!(edges.contains(&edge("b", "a", 5)), "Edge ('b', 'a', 5) should be in the graph");
    assert!(edges.contains(&edge("b", "c", 10)), "Edge ('b', 'c', 10) should be in the graph");
    assert!(edges.contains(&edge("c", "b", 10)), "Edge ('c', 'b', 10) should be in the graph");
}

#[test]
fn test_neighbours() {
    let mut graph = UndirectedGraph::new();
    graph.add_edge(("a", "b", 5));
    graph.add_edge(("a", "c", 7));
    graph.add_edge(("b", "c", 10));

    let a_neighbours = neighbours(&graph, "a");
    assert!(a_neighbours.contains(&(String::from("b"), 5)));
    assert!(a_neighbours.contains(&(String::from("c"), 7)));

    let b_neighbours = neighbours(&graph, "b");
    assert!(b_neighbours.contains(&(String::from("a"), 5)));
    assert!(b_neighbours.contains(&(String::from("c"), 10)));
}

#[test]
fn triangle_has_three_nodes_and_six_directed_edges() {
    let mut graph = UndirectedGraph::new();
    graph.add_edge(("a", "b", 5));
    graph.add_edge(("b", "c", 10));
    graph.add_edge(("c", "a", 7));
    let mut nodes = graph.nodes();
    nodes.sort();
    assert_eq!(nodes, vec![String::from("a"), String::from("b"), String::from("c")]);
    assert_eq!(graph.edges().len(), 6);
}

#[test]
fn add_node_twice_leaves_graph_unchanged() {
    let mut graph = UndirectedGraph::new();
    graph.add_edge(("x", "y", -3));
    assert!(graph.add_node("z"));
    assert_eq!(graph.nodes().len(), 3);
    let edges_before = graph.edges();
    assert!(!graph.add_node("z"));
    assert!(!graph.add_node("x"));
    assert_eq!(graph.nodes().len(), 3);
    assert_eq!(graph.edges(), edges_before);
    assert!(neighbours(&graph, "z").is_empty());
}

#[test]
fn self_loop_is_listed_twice_on_its_node() {
    let mut graph = UndirectedGraph::new();
    graph.add_edge(("a", "a", 4));
    assert_eq!(graph.nodes(), vec![String::from("a")]);
    assert_eq!(neighbours(&graph, "a"), vec![(String::from("a"), 4), (String::from("a"), 4)]);
    assert_eq!(graph.edges().len(), 2);
}

#[test]
fn parallel_edges_are_kept() {
    let mut graph = UndirectedGraph::new();
    graph.add_edge(("p", "q", 1));
    graph.add_edge(("q", "p", 2));
    assert_eq!(neighbours(&graph, "p"), vec![(String::from("q"), 1), (String::from("q"), 2)]);
    assert_eq!(neighbours(&graph, "q"), vec![(String::from("p"), 1), (String::from("p"), 2)]);
    assert_eq!(graph.nodes().len(), 2);
}

#[test]
fn node_count_is_distinct_endpoints() {
    let mut graph = UndirectedGraph::new();
    graph.add_edge(("a", "b", 1));
    graph.add_edge(("b", "a", 1));
    graph.add_edge(("c", "c", 0));
    graph.add_edge(("a", "d", 2));
    assert_eq!(graph.nodes().len(), 4);
}

#[test]
fn empty_graph_contains_nothing() {
    let graph = UndirectedGraph::new();
    assert!(!graph.contains("a"));
    assert!(graph.nodes().is_empty());
    assert!(graph.edges().is_empty());
}

#[test]
fn node_not_in_graph_message() {
    assert_eq!(NodeNotInGraph.message(), "accessing a node that is not in the graph");
}
