use labeled_graph::algorithms::{bfs, dfs, dijkstra, Dist};
use labeled_graph::graph::Graph;

fn sample_directed() -> Graph {
    let mut g = Graph::new(true);
    g.add_vertex("A");
    g.add_vertex("B");
    g.add_vertex("C");
    g.add_vertex("D");
    g.add_edge("A", "B", "connects", 4);
    g.add_edge("B", "C", "connects", 3);
    g.add_edge("C", "D", "connects", 2);
    g.add_edge("A", "D", "connects", 10);
    g
}

fn dist_at(res: &[(String, Dist)], id: &str) -> Dist {
    for (k, d) in res {
        if k == id {
            return *d;
        }
    }
    panic!("missing entry");
}

#[test]
fn dfs_preorder_on_sample() {
    let g = sample_directed();
    let order = dfs(&g, "A");
    assert_eq!(order, vec!["A", "B", "C", "D"]);
}

#[test]
fn bfs_level_order_on_sample() {
    let g = sample_directed();
    let order = bfs(&g, "A");
    assert_eq!(order, vec!["A", "B", "D", "C"]);
}

#[test]
fn bfs_visits_in_nondecreasing_hop_order() {
    // hop counts from A: A = 0, B = 1, D = 1, C = 2
    let g = sample_directed();
    let order = bfs(&g, "A");
    let hops = |v: &str| -> usize {
        match v {
            "A" => 0,
            "B" | "D" => 1,
            "C" => 2,
            _ => usize::MAX,
        }
    };
    for w in order.windows(2) {
        assert!(hops(&w[0]) <= hops(&w[1]));
    }
}

#[test]
fn dfs_and_bfs_visit_same_set() {
    let mut g = Graph::new(true);
    g.add_edge("a", "b", "r", 1);
    g.add_edge("a", "c", "r", 1);
    g.add_edge("c", "d", "r", 1);
    g.add_edge("d", "a", "r", 1);
    g.add_vertex("island");
    let mut d = dfs(&g, "a");
    let mut b = bfs(&g, "a");
    d.sort();
    b.sort();
    assert_eq!(d, b);
    assert_eq!(d, vec!["a", "b", "c", "d"]);
}

#[test]
fn traversal_from_absent_start_visits_only_start() {
    let g = sample_directed();
    assert_eq!(dfs(&g, "Z"), vec!["Z"]);
    assert_eq!(bfs(&g, "Z"), vec!["Z"]);
}

#[test]
fn traversal_visits_each_vertex_once_despite_cycles() {
    let mut g = Graph::new(false);
    g.add_edge("a", "b", "r", 1);
    g.add_edge("b", "c", "r", 1);
    g.add_edge("c", "a", "r", 1);
    let d = dfs(&g, "a");
    let b = bfs(&g, "a");
    assert_eq!(d.len(), 3);
    assert_eq!(b.len(), 3);
}

#[test]
fn dijkstra_prefers_cheaper_indirect_path() {
    let g = sample_directed();
    let res = dijkstra(&g, "A");
    assert_eq!(res.len(), 4);
    assert_eq!(dist_at(&res, "A"), Dist::Fin(0));
    assert_eq!(dist_at(&res, "B"), Dist::Fin(4));
    assert_eq!(dist_at(&res, "C"), Dist::Fin(7));
    assert_eq!(dist_at(&res, "D"), Dist::Fin(9));
}

#[test]
fn dijkstra_unreachable_vertex_is_infinite() {
    let mut g = Graph::new(true);
    g.add_edge("a", "b", "r", 5);
    g.add_vertex("far");
    let res = dijkstra(&g, "a");
    assert_eq!(dist_at(&res, "a"), Dist::Fin(0));
    assert_eq!(dist_at(&res, "b"), Dist::Fin(5));
    assert_eq!(dist_at(&res, "far"), Dist::Inf);
}

#[test]
fn dijkstra_absent_start_gets_zero_entry() {
    let mut g = Graph::new(true);
    g.add_edge("a", "b", "r", 5);
    let res = dijkstra(&g, "nowhere");
    assert_eq!(res.len(), 3);
    assert_eq!(dist_at(&res, "nowhere"), Dist::Fin(0));
    assert_eq!(dist_at(&res, "a"), Dist::Inf);
    assert_eq!(dist_at(&res, "b"), Dist::Inf);
}

#[test]
fn dijkstra_zero_weight_edges() {
    let mut g = Graph::new(true);
    g.add_edge("a", "b", "r", 0);
    g.add_edge("b", "c", "r", 0);
    let res = dijkstra(&g, "a");
    assert_eq!(dist_at(&res, "c"), Dist::Fin(0));
}

#[test]
fn dijkstra_on_undirected_graph() {
    let mut g = Graph::new(false);
    g.add_edge("a", "b", "r", 2);
    g.add_edge("b", "c", "r", 2);
    let res = dijkstra(&g, "c");
    assert_eq!(dist_at(&res, "a"), Dist::Fin(4));
    assert_eq!(dist_at(&res, "b"), Dist::Fin(2));
}
