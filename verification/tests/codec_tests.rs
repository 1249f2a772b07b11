use labeled_graph::codec::{from_json, to_json, PersistError};
use labeled_graph::graph::Graph;

#[test]
fn empty_graph_encodes_exactly() {
    let g = Graph::new(true);
    assert_eq!(to_json(&g), "{\"vertices\":{},\"directed\":true}");
    let u = Graph::new(false);
    assert_eq!(to_json(&u), "{\"vertices\":{},\"directed\":false}");
}

#[test]
fn small_graph_encodes_exactly() {
    let mut g = Graph::new(true);
    g.add_edge("a", "b", "r", 12);
    assert_eq!(
        to_json(&g),
        "{\"vertices\":{\"a\":[{\"to\":\"b\",\"relationship\":\"r\",\"weight\":12}],\"b\":[]},\"directed\":true}"
    );
}

#[test]
fn escaping_quotes_and_backslashes() {
    let mut g = Graph::new(true);
    g.add_vertex("a\"b");
    g.add_vertex("c\\d");
    let json = to_json(&g);
    assert_eq!(json, "{\"vertices\":{\"a\\\"b\":[],\"c\\\\d\":[]},\"directed\":true}");
    let back = from_json(&json).unwrap();
    assert_eq!(back.vertex_count(), 2);
    assert_eq!(back.vertex_id_at(0).as_str(), "a\"b");
    assert_eq!(back.vertex_id_at(1).as_str(), "c\\d");
}

#[test]
fn round_trip_preserves_structure() {
    let mut g = Graph::new(true);
    g.add_vertex("A");
    g.add_edge("A", "B", "connects", 4);
    g.add_edge("B", "C", "likes", 3);
    g.add_edge("A", "C", "connects", 10);
    let json = to_json(&g);
    let back = from_json(&json).unwrap();
    assert_eq!(back.is_directed(), g.is_directed());
    assert_eq!(back.vertex_count(), g.vertex_count());
    for i in 0..g.vertex_count() {
        let id = g.vertex_id_at(i).clone();
        let orig = g.get_neighbors(&id).unwrap();
        let loaded = back.get_neighbors(&id).unwrap();
        assert_eq!(orig.len(), loaded.len());
        for (a, b) in orig.iter().zip(loaded.iter()) {
            assert_eq!(a.to, b.to);
            assert_eq!(a.relationship, b.relationship);
            assert_eq!(a.weight, b.weight);
        }
    }
    // the round trip is exact: encoding again gives the same document
    assert_eq!(to_json(&back), json);
}

#[test]
fn round_trip_undirected_graph() {
    let mut g = Graph::new(false);
    g.add_edge("x", "y", "near", 1);
    let json = to_json(&g);
    let back = from_json(&json).unwrap();
    assert!(!back.is_directed());
    assert_eq!(to_json(&back), json);
}

#[test]
fn round_trip_unicode_identifiers() {
    let mut g = Graph::new(true);
    g.add_edge("αλφα", "βήτα", "σχέση", 42);
    let json = to_json(&g);
    let back = from_json(&json).unwrap();
    assert_eq!(to_json(&back), json);
}

#[test]
fn parse_rejects_garbage() {
    assert!(matches!(from_json("garbage"), Err(PersistError::ParseError)));
    assert!(matches!(from_json(""), Err(PersistError::ParseError)));
}

#[test]
fn parse_rejects_truncated_document() {
    let mut g = Graph::new(true);
    g.add_edge("a", "b", "r", 1);
    let json = to_json(&g);
    let truncated = &json[..json.len() - 3];
    assert!(matches!(from_json(truncated), Err(PersistError::ParseError)));
}

#[test]
fn parse_rejects_trailing_content() {
    let doc = "{\"vertices\":{},\"directed\":true} ";
    assert!(matches!(from_json(doc), Err(PersistError::ParseError)));
}

#[test]
fn parse_rejects_duplicate_vertex_key() {
    let doc = "{\"vertices\":{\"a\":[],\"a\":[]},\"directed\":true}";
    assert!(matches!(from_json(doc), Err(PersistError::ParseError)));
}

#[test]
fn parse_rejects_oversized_weight() {
    let doc = "{\"vertices\":{\"a\":[{\"to\":\"a\",\"relationship\":\"r\",\"weight\":99999999999999999999}]},\"directed\":true}";
    assert!(matches!(from_json(doc), Err(PersistError::ParseError)));
}

#[test]
fn parse_accepts_weight_at_limit() {
    let doc = "{\"vertices\":{\"a\":[{\"to\":\"a\",\"relationship\":\"r\",\"weight\":18446744073709551615}]},\"directed\":false}";
    let g = from_json(doc).unwrap();
    assert_eq!(g.get_neighbors("a").unwrap()[0].weight, u64::MAX);
}

#[test]
fn parse_rejects_bad_escape() {
    let doc = "{\"vertices\":{\"a\\n\":[]},\"directed\":true}";
    assert!(matches!(from_json(doc), Err(PersistError::ParseError)));
}
