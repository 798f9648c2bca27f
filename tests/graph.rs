use heap_graph::graph::{Graph, NodeNotInGraph, UndirectedGraph};

#[test]
fn test_add_edge() {
    let mut graph = UndirectedGraph::new();
    graph.add_edge(("a", "b", 5));
    graph.add_edge(("b", "c", 10));
    graph.add_edge(("c", "a", 7));
    let expected_edges = [
        (String::from("a"), String::from("b"), 5),
        (String::from("b"), String::from("a"), 5),
        (String::from("c"), String::from("a"), 7),
        (String::from("a"), String::from("c"), 7),
        (String::from("b"), String::from("c"), 10),
        (String::from("c"), String::from("b"), 10),
    ];
    for edge in expected_edges.iter() {
        assert_eq!(graph.edges().contains(edge), true);
    }
}

fn edge(a: &str, b: &str, w: i32) -> (String, String, i32) {
    (String::from(a), String::from(b), w)
}

#[test]
fn triangle_has_exactly_six_directed_edges() {
    let mut graph = UndirectedGraph::new();
    graph.add_edge(("a", "b", 5));
    graph.add_edge(("b", "c", 10));
    graph.add_edge(("c", "a", 7));
    let mut got = graph.edges();
    got.sort();
    let mut want = vec![
        edge("a", "b", 5),
        edge("b", "a", 5),
        edge("b", "c", 10),
        edge("c", "b", 10),
        edge("c", "a", 7),
        edge("a", "c", 7),
    ];
    want.sort();
    assert_eq!(got, want);
}

#[test]
fn every_edge_appears_both_ways() {
    let mut graph = UndirectedGraph::new();
    graph.add_edge(("x", "y", -4));
    graph.add_edge(("y", "z", 0));
    graph.add_edge(("w", "x", 12));
    let all = graph.edges();
    for (a, b, w) in &all {
        assert!(all.contains(&(b.clone(), a.clone(), *w)));
    }
    assert_eq!(all.len(), 6);
}

#[test]
fn add_node_twice() {
    let mut graph = UndirectedGraph::new();
    assert!(graph.add_node("n"));
    assert_eq!(graph.nodes().len(), 1);
    assert!(!graph.add_node("n"));
    assert_eq!(graph.nodes().len(), 1);
    assert!(graph.contains("n"));
    assert!(!graph.contains("m"));
    assert!(graph.edges().is_empty());
}

#[test]
fn readding_edge_replaces_weight() {
    let mut graph = UndirectedGraph::new();
    graph.add_edge(("a", "b", 5));
    graph.add_edge(("a", "c", 1));
    graph.add_edge(("b", "a", 9));
    let all = graph.edges();
    assert_eq!(all.len(), 4);
    assert!(all.contains(&edge("a", "b", 9)));
    assert!(all.contains(&edge("b", "a", 9)));
    assert!(!all.contains(&edge("a", "b", 5)));
    assert!(!all.contains(&edge("b", "a", 5)));
    assert!(all.contains(&edge("a", "c", 1)));
}

#[test]
fn add_edge_creates_missing_nodes() {
    let mut graph = UndirectedGraph::new();
    graph.add_node("a");
    graph.add_edge(("a", "q", 3));
    let mut nodes = graph.nodes();
    nodes.sort();
    assert_eq!(nodes, vec![String::from("a"), String::from("q")]);
    assert!(graph.contains("q"));
}

#[test]
fn self_loop_is_one_entry() {
    let mut graph = UndirectedGraph::new();
    graph.add_edge(("s", "s", 2));
    assert_eq!(graph.edges(), vec![edge("s", "s", 2)]);
    graph.add_edge(("s", "s", 6));
    assert_eq!(graph.edges(), vec![edge("s", "s", 6)]);
}

#[test]
fn empty_graph() {
    let graph = UndirectedGraph::new();
    assert!(graph.nodes().is_empty());
    assert!(graph.edges().is_empty());
    assert!(!graph.contains(""));
}

#[test]
fn node_not_in_graph_message() {
    let e = NodeNotInGraph;
    assert_eq!(e.message(), "accessing a node that is not in the graph");
}
