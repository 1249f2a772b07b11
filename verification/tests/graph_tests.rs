use labeled_graph::graph::Graph;

fn sample_directed() -> Graph {
    let mut g = Graph::new(true);
    g.add_vertex("A");
    g.add_vertex("B");
    g.add_vertex("C");
    g.add_vertex("D");
    g.add_edge("A", "B", "connects", 4);
    g.add_edge("B", "C", "connects", 3);
    g.add_edge("C", "D", "connects", 2);
    g.add_edge("A", "D", "connects", 10);
    g
}

#[test]
fn new_graph_is_empty() {
    let g = Graph::new(true);
    assert_eq!(g.vertex_count(), 0);
    assert!(g.is_directed());
    let u = Graph::new(false);
    assert!(!u.is_directed());
}

#[test]
fn neighbors_present_in_insertion_order() {
    let g = sample_directed();
    let ns = g.get_neighbors("A").unwrap();
    assert_eq!(ns.len(), 2);
    assert_eq!(ns[0].to, "B");
    assert_eq!(ns[0].relationship, "connects");
    assert_eq!(ns[0].weight, 4);
    assert_eq!(ns[1].to, "D");
    assert_eq!(ns[1].weight, 10);
}

#[test]
fn neighbors_absent_vertex_is_none() {
    let g = sample_directed();
    assert!(g.get_neighbors("Z").is_none());
}

#[test]
fn add_vertex_is_idempotent() {
    let mut g = Graph::new(true);
    g.add_vertex("a");
    g.add_vertex("a");
    assert_eq!(g.vertex_count(), 1);
    assert_eq!(g.vertex_id_at(0).as_str(), "a");
}

#[test]
fn add_edge_creates_both_endpoints() {
    let mut g = Graph::new(true);
    g.add_edge("x", "y", "r", 1);
    assert_eq!(g.vertex_count(), 2);
    let ys = g.get_neighbors("y").unwrap();
    assert!(ys.is_empty());
}

#[test]
fn undirected_edge_is_mirrored() {
    let mut g = Graph::new(false);
    g.add_edge("a", "b", "knows", 7);
    let back = g.get_neighbors("b").unwrap();
    assert_eq!(back.len(), 1);
    assert_eq!(back[0].to, "a");
    assert_eq!(back[0].relationship, "knows");
    assert_eq!(back[0].weight, 7);
}

#[test]
fn undirected_self_loop_doubles() {
    let mut g = Graph::new(false);
    g.add_edge("a", "a", "self", 1);
    let ns = g.get_neighbors("a").unwrap();
    assert_eq!(ns.len(), 2);
}

#[test]
fn duplicate_edges_are_kept() {
    let mut g = Graph::new(true);
    g.add_edge("a", "b", "r", 1);
    g.add_edge("a", "b", "r", 1);
    assert_eq!(g.get_neighbors("a").unwrap().len(), 2);
}

#[test]
fn neighbors_by_relationship_filters_in_order() {
    let mut g = Graph::new(true);
    g.add_edge("a", "b", "likes", 1);
    g.add_edge("a", "c", "hates", 2);
    g.add_edge("a", "d", "likes", 3);
    let liked = g.get_neighbors_by_relationship("a", "likes");
    assert_eq!(liked, vec!["b".to_string(), "d".to_string()]);
    let hated = g.get_neighbors_by_relationship("a", "hates");
    assert_eq!(hated, vec!["c".to_string()]);
}

#[test]
fn neighbors_by_relationship_unknown_vertex_is_empty() {
    let g = sample_directed();
    let r = g.get_neighbors_by_relationship("Z", "connects");
    assert!(r.is_empty());
    let none = g.get_neighbors_by_relationship("A", "no-such-label");
    assert!(none.is_empty());
}
