use graph_lib::graph::Graph;
use graph_lib::point::Point;

fn edge_keys(g: &Graph, id: &str) -> Vec<String> {
    let i = g.find(id).expect("node present");
    g.nodes()[i].edges().iter().map(|e| e.0.clone()).collect()
}

fn edge_weight(g: &Graph, id: &str, other: &str) -> Option<u64> {
    let i = g.find(id)?;
    g.nodes()[i]
        .edges()
        .iter()
        .find(|e| e.0 == other)
        .map(|e| e.1)
}

#[test]
fn add_node_and_len() {
    let mut g = Graph::new();
    assert_eq!(g.len(), 0);
    g.add_node("A", Point::new(0, 0));
    g.add_node("B", Point::new(0, 3));
    assert_eq!(g.len(), 2);
    assert!(g.contains_node("A"));
    assert!(g.contains_node("B"));
    assert!(!g.contains_node("C"));
}

#[test]
fn with_capacity_starts_empty() {
    let g = Graph::with_capacity(16);
    assert_eq!(g.len(), 0);
}

#[test]
fn add_node_replaces_and_clears_edges() {
    let mut g = Graph::new();
    g.add_node("A", Point::new(0, 0));
    g.add_node("B", Point::new(0, 3));
    g.add_edge("A", "B");
    assert_eq!(edge_weight(&g, "A", "B"), Some(3));
    // replacing A drops A's edges but keeps B's edge to A
    g.add_node("A", Point::new(1, 1));
    assert_eq!(g.len(), 2);
    assert_eq!(edge_keys(&g, "A").len(), 0);
    assert_eq!(edge_weight(&g, "B", "A"), Some(3));
    let i = g.find("A").unwrap();
    assert_eq!(g.nodes()[i].point().row(), 1);
    assert_eq!(g.nodes()[i].point().col(), 1);
}

#[test]
fn add_edge_is_symmetric_with_euclidean_weight() {
    let mut g = Graph::new();
    g.add_node("A", Point::new(0, 0));
    g.add_node("B", Point::new(0, 3));
    g.add_node("C", Point::new(4, 3));
    g.add_edge("A", "B");
    g.add_edge("B", "C");
    assert_eq!(edge_weight(&g, "A", "B"), Some(3));
    assert_eq!(edge_weight(&g, "B", "A"), Some(3));
    assert_eq!(edge_weight(&g, "B", "C"), Some(4));
    assert_eq!(edge_weight(&g, "C", "B"), Some(4));
    assert_eq!(edge_weight(&g, "A", "C"), None);
}

#[test]
fn add_edge_missing_id_is_silent_noop() {
    let mut g = Graph::new();
    g.add_node("A", Point::new(0, 0));
    g.add_edge("A", "Z");
    g.add_edge("Z", "A");
    g.add_edge("Y", "Z");
    assert_eq!(g.len(), 1);
    assert_eq!(edge_keys(&g, "A").len(), 0);
}

#[test]
fn add_edge_overwrites_prior_weight_without_duplicates() {
    let mut g = Graph::new();
    g.add_node("A", Point::new(0, 0));
    g.add_node("B", Point::new(0, 3));
    g.add_edge("A", "B");
    g.add_edge("A", "B");
    assert_eq!(edge_keys(&g, "A"), vec!["B".to_string()]);
    assert_eq!(edge_keys(&g, "B"), vec!["A".to_string()]);
}

#[test]
fn add_directed_edge_touches_one_side() {
    let mut g = Graph::new();
    g.add_node("A", Point::new(0, 0));
    g.add_node("B", Point::new(0, 3));
    g.add_directed_edge("A", "B");
    assert_eq!(edge_weight(&g, "A", "B"), Some(3));
    assert_eq!(edge_weight(&g, "B", "A"), None);
}

#[test]
fn remove_edge_returns_weight_and_leaves_no_reference() {
    let mut g = Graph::new();
    g.add_node("A", Point::new(0, 0));
    g.add_node("B", Point::new(0, 3));
    g.add_edge("A", "B");
    assert_eq!(g.remove_edge("A", "B"), Some(3));
    assert_eq!(g.remove_edge("B", "A"), Some(3));
    assert_eq!(edge_keys(&g, "A").len(), 0);
    assert_eq!(edge_keys(&g, "B").len(), 0);
    // removing again finds nothing
    assert_eq!(g.remove_edge("A", "B"), None);
    assert_eq!(g.remove_edge("Z", "A"), None);
}

#[test]
fn remove_node_cascades_every_edge_to_it() {
    let mut g = Graph::new();
    g.add_node("A", Point::new(0, 0));
    g.add_node("B", Point::new(0, 3));
    g.add_node("C", Point::new(4, 3));
    g.add_edge("A", "B");
    g.add_edge("B", "C");
    g.add_edge("A", "C");
    let removed = g.remove_node("B").expect("B was present");
    assert_eq!(removed.id(), "B");
    assert_eq!(g.len(), 2);
    assert!(!g.contains_node("B"));
    // no surviving node still references B
    assert_eq!(edge_keys(&g, "A"), vec!["C".to_string()]);
    assert_eq!(edge_keys(&g, "C"), vec!["A".to_string()]);
    // the removed node keeps its other edges
    let kept: Vec<String> = removed.edges().iter().map(|e| e.0.clone()).collect();
    assert_eq!(kept, vec!["A".to_string(), "C".to_string()]);
}

#[test]
fn remove_node_absent_returns_none() {
    let mut g = Graph::new();
    g.add_node("A", Point::new(0, 0));
    assert!(g.remove_node("Z").is_none());
    assert_eq!(g.len(), 1);
}

#[test]
fn neighbor_mapping_is_sorted_lexicographically() {
    let mut g = Graph::new();
    g.add_node("x", Point::new(0, 0));
    g.add_node("c", Point::new(0, 1));
    g.add_node("a", Point::new(0, 2));
    g.add_node("b", Point::new(0, 3));
    g.add_edge("x", "c");
    g.add_edge("x", "a");
    g.add_edge("x", "b");
    assert_eq!(
        edge_keys(&g, "x"),
        vec!["a".to_string(), "b".to_string(), "c".to_string()]
    );
}
