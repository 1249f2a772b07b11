//! Traversals over a borrowed, unmodified graph: depth-first and
//! breadth-first orders, and single-source shortest distances.

use vstd::prelude::*;
use vstd::set_lib::lemma_len_subset;
use crate::graph::{AdjView, Edge, EdgeView, Graph, closed_adj, edges_of, has_vertex, str_eq, vertex_index};

verus! {

broadcast use vstd::set::group_set_axioms, vstd::seq_lib::seq_to_set_is_finite;

/// The identifiers of a sequence of stored strings.
pub open spec fn seq_ids(v: Seq<String>) -> Seq<Seq<char>> {
    v.map(|i: int, s: String| s@)
}

/// No identifier occurs twice.
pub open spec fn distinct_seq(s: Seq<Seq<char>>) -> bool {
    forall|i: int, j: int| 0 <= i < j < s.len() ==> s[i] != s[j]
}

/// Some edge leads from `u` to `v`.
pub open spec fn has_edge(adj: AdjView, u: Seq<char>, v: Seq<char>) -> bool {
    exists|k: int| 0 <= k < edges_of(adj, u).len() && edges_of(adj, u)[k].to == v
}

/// `p` is a walk: nonempty, and consecutive vertices are joined by edges.
pub open spec fn is_path(adj: AdjView, p: Seq<Seq<char>>) -> bool {
    p.len() >= 1 && forall|i: int| 0 <= i < p.len() - 1 ==> has_edge(adj, #[trigger] p[i], p[i + 1])
}

/// Some walk leads from `s` to `v` (trivially true for `v == s`).
pub open spec fn reaches(adj: AdjView, s: Seq<char>, v: Seq<char>) -> bool {
    exists|p: Seq<Seq<char>>| is_path(adj, p) && p.first() == s && p.last() == v
}

/// Every edge leaving `u` has its destination in `vis`.
pub open spec fn expanded(adj: AdjView, vis: Seq<Seq<char>>, u: Seq<char>) -> bool {
    forall|k: int|
        0 <= k < edges_of(adj, u).len() ==> vis.contains(#[trigger] edges_of(adj, u)[k].to)
}

/// What a traversal returns: a nonempty order starting at `start`, without
/// repetition, visiting exactly the vertices that `start` reaches.
pub open spec fn traversal_ok(adj: AdjView, start: Seq<char>, order: Seq<String>) -> bool {
    &&& order.len() >= 1
    &&& seq_ids(order)[0] == start
    &&& distinct_seq(seq_ids(order))
    &&& forall|i: int| 0 <= i < order.len() ==> reaches(adj, start, #[trigger] seq_ids(order)[i])
    &&& forall|v: Seq<char>| reaches(adj, start, v) ==> seq_ids(order).contains(v)
}

pub proof fn lemma_reaches_refl(adj: AdjView, s: Seq<char>)
    ensures
        reaches(adj, s, s),
{
    let p = seq![s];
    assert(is_path(adj, p));
    assert(p.first() == s && p.last() == s);
}

pub proof fn lemma_reaches_edge(adj: AdjView, s: Seq<char>, u: Seq<char>, v: Seq<char>)
    requires
        reaches(adj, s, u),
        has_edge(adj, u, v),
    ensures
        reaches(adj, s, v),
{
    let p = choose|p: Seq<Seq<char>>| is_path(adj, p) && p.first() == s && p.last() == u;
    let q = p.push(v);
    assert(is_path(adj, q)) by {
        assert forall|i: int| 0 <= i < q.len() - 1 implies has_edge(adj, #[trigger] q[i], q[i + 1]) by {
            if i < p.len() - 1 {
                assert(q[i] == p[i] && q[i + 1] == p[i + 1]);
            } else {
                assert(q[i] == p.last() && q[i + 1] == v);
            }
        }
    }
    assert(q.first() == s && q.last() == v);
}

pub proof fn lemma_reaches_trans(adj: AdjView, s: Seq<char>, u: Seq<char>, v: Seq<char>)
    requires
        reaches(adj, s, u),
        reaches(adj, u, v),
    ensures
        reaches(adj, s, v),
{
    let p = choose|p: Seq<Seq<char>>| is_path(adj, p) && p.first() == s && p.last() == u;
    let q = choose|q: Seq<Seq<char>>| is_path(adj, q) && q.first() == u && q.last() == v;
    if q.len() == 1 {
        assert(u == v);
    } else {
        let r = p + q.subrange(1, q.len() as int);
        assert(r.len() == p.len() + q.len() - 1);
        assert(is_path(adj, r)) by {
            assert forall|i: int| 0 <= i < r.len() - 1 implies has_edge(
                adj,
                #[trigger] r[i],
                r[i + 1],
            ) by {
                if i < p.len() - 1 {
                    assert(r[i] == p[i] && r[i + 1] == p[i + 1]);
                } else if i == p.len() - 1 {
                    assert(r[i] == p.last());
                    assert(r[i + 1] == q[1]);
                    assert(has_edge(adj, q[0], q[1]));
                } else {
                    assert(r[i] == q[i - p.len() + 1]);
                    assert(r[i + 1] == q[i - p.len() + 2]);
                    assert(has_edge(adj, q[i - p.len() + 1], q[i - p.len() + 2]));
                }
            }
        }
        assert(r.first() == s);
        assert(r.last() == q.last());
    }
}

/// A set of vertices that contains the head of a walk and is closed under
/// outgoing edges contains the walk's end.
pub proof fn lemma_path_in_closed_set(adj: AdjView, vis: Seq<Seq<char>>, p: Seq<Seq<char>>)
    requires
        is_path(adj, p),
        vis.contains(p.first()),
        forall|i: int| 0 <= i < vis.len() ==> expanded(adj, vis, #[trigger] vis[i]),
    ensures
        vis.contains(p.last()),
    decreases p.len(),
{
    if p.len() == 1 {
    } else {
        let q = p.drop_last();
        assert(is_path(adj, q)) by {
            assert forall|i: int| 0 <= i < q.len() - 1 implies has_edge(
                adj,
                #[trigger] q[i],
                q[i + 1],
            ) by {
                assert(q[i] == p[i] && q[i + 1] == p[i + 1]);
                assert(has_edge(adj, p[i], p[i + 1]));
            }
        }
        assert(q.first() == p.first());
        lemma_path_in_closed_set(adj, vis, q);
        let u = q.last();
        let i = choose|i: int| 0 <= i < vis.len() && vis[i] == u;
        assert(expanded(adj, vis, u));
        assert(has_edge(adj, p[p.len() - 2], p[p.len() - 1]));
        let k = choose|k: int|
            0 <= k < edges_of(adj, u).len() && edges_of(adj, u)[k].to == p.last();
        assert(vis.contains(edges_of(adj, u)[k].to));
    }
}

/// All edge destinations of the whole structure, as one sequence.
pub open spec fn targets_seq(adj: AdjView) -> Seq<Seq<char>>
    decreases adj.len(),
{
    if adj.len() == 0 {
        Seq::empty()
    } else {
        targets_seq(adj.drop_last()) + adj.last().1.map(|k: int, e: EdgeView| e.to)
    }
}

pub proof fn lemma_targets_seq(adj: AdjView)
    ensures
        forall|i: int, k: int|
            0 <= i < adj.len() && 0 <= k < adj[i].1.len() ==> targets_seq(adj).contains(
                #[trigger] adj[i].1[k].to,
            ),
    decreases adj.len(),
{
    if adj.len() == 0 {
    } else {
        let pre = adj.drop_last();
        lemma_targets_seq(pre);
        assert forall|i: int, k: int|
            0 <= i < adj.len() && 0 <= k < adj[i].1.len() implies targets_seq(adj).contains(
            #[trigger] adj[i].1[k].to,
        ) by {
            let ts = targets_seq(adj);
            if i < adj.len() - 1 {
                assert(pre[i] == adj[i]);
                assert(targets_seq(pre).contains(adj[i].1[k].to));
                let j = choose|j: int|
                    0 <= j < targets_seq(pre).len() && targets_seq(pre)[j] == adj[i].1[k].to;
                assert(ts[j] == adj[i].1[k].to);
            } else {
                let m = adj.last().1.map(|k: int, e: EdgeView| e.to);
                assert(m[k] == adj[i].1[k].to);
                assert(ts[targets_seq(pre).len() + k] == m[k]);
            }
        }
    }
}

/// The traversal bound: a finite set closed under edge destinations.
pub open spec fn bound_ok(adj: AdjView, bnd: Set<Seq<char>>) -> bool {
    &&& bnd.finite()
    &&& forall|u: Seq<char>, w: Seq<char>| #[trigger] has_edge(adj, u, w) ==> bnd.contains(w)
}

/// The visited list keeps distinct identifiers that all lie in the bound.
pub open spec fn visited_ok(vis: Seq<String>, bnd: Set<Seq<char>>) -> bool {
    &&& distinct_seq(seq_ids(vis))
    &&& forall|i: int| 0 <= i < vis.len() ==> bnd.contains(#[trigger] seq_ids(vis)[i])
}

proof fn lemma_bound_from_graph(adj: AdjView, start: Seq<char>)
    ensures
        bound_ok(adj, targets_seq(adj).to_set().insert(start)),
        targets_seq(adj).to_set().insert(start).contains(start),
{
    let bnd = targets_seq(adj).to_set().insert(start);
    lemma_targets_seq(adj);
    assert forall|u: Seq<char>, w: Seq<char>| #[trigger] has_edge(adj, u, w) implies bnd.contains(
        w,
    ) by {
        let k = choose|k: int| 0 <= k < edges_of(adj, u).len() && edges_of(adj, u)[k].to == w;
        assert(has_vertex(adj, u));
        let i = vertex_index(adj, u);
        assert(0 <= i < adj.len() && adj[i].0 == u);
        assert(adj[i].1[k].to == w);
        assert(targets_seq(adj).contains(w));
    }
}

/// Growing a visited list by appending keeps everything it contained.
proof fn lemma_ids_prefix(vis1: Seq<String>, vis2: Seq<String>)
    requires
        vis1.len() <= vis2.len(),
        forall|i: int| 0 <= i < vis1.len() ==> vis2[i] == #[trigger] vis1[i],
    ensures
        forall|x: Seq<char>| seq_ids(vis1).contains(x) ==> seq_ids(vis2).contains(x),
        seq_ids(vis1).to_set().subset_of(seq_ids(vis2).to_set()),
        seq_ids(vis1).to_set().len() <= seq_ids(vis2).to_set().len(),
        forall|adj: AdjView, u: Seq<char>|
            #[trigger] expanded(adj, seq_ids(vis1), u) ==> expanded(adj, seq_ids(vis2), u),
{
    assert forall|x: Seq<char>| seq_ids(vis1).contains(x) implies seq_ids(vis2).contains(x) by {
        let i = choose|i: int| 0 <= i < seq_ids(vis1).len() && seq_ids(vis1)[i] == x;
        assert(seq_ids(vis2)[i] == x);
    }
    lemma_len_subset(seq_ids(vis1).to_set(), seq_ids(vis2).to_set());
}

/// Whether `id` already stands in the visited list.
fn contains_id(v: &Vec<String>, id: &str) -> (r: bool)
    ensures
        r == seq_ids(v@).contains(id@),
{
    let n = v.len();
    let mut k: usize = 0;
    while k < n
        invariant
            n == v@.len(),
            k <= n,
            forall|j: int| 0 <= j < k ==> seq_ids(v@)[j] != id@,
        decreases n - k,
    {
        if str_eq(v[k].as_str(), id) {
            proof {
                assert(seq_ids(v@)[k as int] == id@);
            }
            return true;
        }
        k = k + 1;
    }
    proof {
        if seq_ids(v@).contains(id@) {
            let j = choose|j: int| 0 <= j < seq_ids(v@).len() && seq_ids(v@)[j] == id@;
            assert(false);
        }
    }
    false
}

/// Visits `v` if it is new: records it, then recurses into each outgoing
/// edge's destination in adjacency-list order.
fn dfs_visit(g: &Graph, v: &str, visited: &mut Vec<String>, Ghost(bnd): Ghost<Set<Seq<char>>>)
    requires
        g.wf(),
        bound_ok(g@.adj, bnd),
        bnd.contains(v@),
        visited_ok(old(visited)@, bnd),
    ensures
        old(visited)@.len() <= final(visited)@.len(),
        forall|i: int| 0 <= i < old(visited)@.len() ==> final(visited)@[i] == #[trigger] old(
            visited,
        )@[i],
        visited_ok(final(visited)@, bnd),
        seq_ids(final(visited)@).contains(v@),
        old(visited)@.len() < final(visited)@.len() ==> seq_ids(final(visited)@)[old(
            visited,
        )@.len() as int] == v@,
        forall|i: int|
            old(visited)@.len() <= i < final(visited)@.len() ==> reaches(
                g@.adj,
                v@,
                #[trigger] seq_ids(final(visited)@)[i],
            ),
        forall|i: int|
            0 <= i < final(visited)@.len() ==> (i < old(visited)@.len() || expanded(
                g@.adj,
                seq_ids(final(visited)@),
                #[trigger] seq_ids(final(visited)@)[i],
            )),
    decreases bnd.len() - seq_ids(visited@).to_set().len(), 0int, 0int,
{
    let ghost adj = g@.adj;
    let ghost vis0 = visited@;
    if !contains_id(visited, v) {
        visited.push(v.to_owned());
        let ghost vis1 = visited@;
        proof {
            assert(seq_ids(vis1) =~= seq_ids(vis0).push(v@));
            lemma_ids_prefix(vis0, vis1);
            assert(distinct_seq(seq_ids(vis1))) by {
                assert forall|i: int, j: int| 0 <= i < j < seq_ids(vis1).len() implies seq_ids(
                    vis1,
                )[i] != seq_ids(vis1)[j] by {
                    if j == vis0.len() {
                        if seq_ids(vis1)[i] == v@ {
                            assert(seq_ids(vis0)[i] == v@);
                        }
                    }
                }
            }
            assert(!seq_ids(vis0).contains(v@));
            seq_ids(vis0).lemma_push_to_set_commute(v@);
            assert(seq_ids(vis1).to_set() == seq_ids(vis0).to_set().insert(v@));
            assert(seq_ids(vis1).to_set().len() == seq_ids(vis0).to_set().len() + 1);
            lemma_len_subset(seq_ids(vis1).to_set(), bnd);
            assert(seq_ids(vis1)[vis0.len() as int] == v@);
            assert(seq_ids(vis1).contains(v@));
        }
        dfs_edges(g, v, 0, visited, Ghost(bnd));
        proof {
            let vis2 = visited@;
            lemma_ids_prefix(vis1, vis2);
            assert forall|i: int| 0 <= i < vis0.len() implies vis2[i] == vis0[i] by {
                assert(vis1[i] == vis0[i]);
                assert(vis2[i] == vis1[i]);
            }
            assert(seq_ids(vis2).contains(v@)) by {
                assert(seq_ids(vis1)[vis0.len() as int] == v@);
            }
            lemma_reaches_refl(adj, v@);
            assert forall|i: int| vis0.len() <= i < vis2.len() implies reaches(
                adj,
                v@,
                #[trigger] seq_ids(vis2)[i],
            ) by {
                if i == vis0.len() {
                    assert(seq_ids(vis2)[i] == v@);
                }
            }
            assert forall|i: int| 0 <= i < vis2.len() implies (i < vis0.len() || expanded(
                adj,
                seq_ids(vis2),
                #[trigger] seq_ids(vis2)[i],
            )) by {
                if i == vis0.len() {
                    assert(seq_ids(vis2)[i] == v@);
                    assert(expanded(adj, seq_ids(vis2), v@));
                }
            }
        }
    } else {
        proof {
            assert(visited@ =~= vis0);
        }
    }
}

/// Recurses into the destinations of `v`'s edges, from index `k` on.
fn dfs_edges(
    g: &Graph,
    v: &str,
    k: usize,
    visited: &mut Vec<String>,
    Ghost(bnd): Ghost<Set<Seq<char>>>,
)
    requires
        g.wf(),
        bound_ok(g@.adj, bnd),
        bnd.contains(v@),
        visited_ok(old(visited)@, bnd),
        seq_ids(old(visited)@).contains(v@),
        k <= edges_of(g@.adj, v@).len(),
        forall|j: int|
            0 <= j < k ==> seq_ids(old(visited)@).contains(
                #[trigger] edges_of(g@.adj, v@)[j].to,
            ),
    ensures
        old(visited)@.len() <= final(visited)@.len(),
        forall|i: int| 0 <= i < old(visited)@.len() ==> final(visited)@[i] == #[trigger] old(
            visited,
        )@[i],
        visited_ok(final(visited)@, bnd),
        forall|i: int|
            old(visited)@.len() <= i < final(visited)@.len() ==> reaches(
                g@.adj,
                v@,
                #[trigger] seq_ids(final(visited)@)[i],
            ),
        forall|i: int|
            0 <= i < final(visited)@.len() ==> (i < old(visited)@.len() || expanded(
                g@.adj,
                seq_ids(final(visited)@),
                #[trigger] seq_ids(final(visited)@)[i],
            )),
        forall|j: int|
            0 <= j < edges_of(g@.adj, v@).len() ==> seq_ids(final(visited)@).contains(
                #[trigger] edges_of(g@.adj, v@)[j].to,
            ),
    decreases
            bnd.len() - seq_ids(visited@).to_set().len(),
            edges_of(g@.adj, v@).len() - k,
            1int,
{
    let ghost adj = g@.adj;
    let ghost es = edges_of(adj, v@);
    let ghost vis0 = visited@;
    proof {
        lemma_len_subset(seq_ids(vis0).to_set(), bnd);
    }
    match g.get_neighbors(v) {
        Some(row) => {
            proof {
                assert(row@.map(|i: int, e: Edge| e@) == es);
            }
            if k < row.len() {
                let t = row[k].to.clone();
                proof {
                    assert(row@[k as int]@ == es[k as int]);
                    assert(t@ == es[k as int].to);
                    assert(has_edge(adj, v@, t@)) by {
                        assert(edges_of(adj, v@)[k as int].to == t@);
                    }
                    assert(bnd.contains(t@));
                }
                dfs_visit(g, t.as_str(), visited, Ghost(bnd));
                let ghost vis1 = visited@;
                proof {
                    lemma_ids_prefix(vis0, vis1);
                    lemma_len_subset(seq_ids(vis1).to_set(), bnd);
                    lemma_reaches_refl(adj, v@);
                    lemma_reaches_edge(adj, v@, v@, t@);
                    assert forall|i: int| vis0.len() <= i < vis1.len() implies reaches(
                        adj,
                        v@,
                        #[trigger] seq_ids(vis1)[i],
                    ) by {
                        lemma_reaches_trans(adj, v@, t@, seq_ids(vis1)[i]);
                    }
                    assert(seq_ids(vis1).contains(v@)) by {
                        let i = choose|i: int|
                            0 <= i < seq_ids(vis0).len() && seq_ids(vis0)[i] == v@;
                        assert(seq_ids(vis1)[i] == v@);
                    }
                    assert forall|j: int| 0 <= j < k + 1 implies seq_ids(vis1).contains(
                        #[trigger] es[j].to,
                    ) by {
                        if j < k {
                            assert(seq_ids(vis0).contains(es[j].to));
                        } else {
                            assert(es[j].to == t@);
                        }
                    }
                }
                dfs_edges(g, v, k + 1, visited, Ghost(bnd));
                proof {
                    let vis2 = visited@;
                    lemma_ids_prefix(vis1, vis2);
                    assert forall|i: int| vis0.len() <= i < vis2.len() implies reaches(
                        adj,
                        v@,
                        #[trigger] seq_ids(vis2)[i],
                    ) by {
                        if i < vis1.len() {
                            assert(seq_ids(vis2)[i] == seq_ids(vis1)[i]);
                            assert(reaches(adj, v@, seq_ids(vis1)[i]));
                        }
                    }
                    assert forall|i: int| 0 <= i < vis2.len() implies (i < vis0.len() || expanded(
                        adj,
                        seq_ids(vis2),
                        #[trigger] seq_ids(vis2)[i],
                    )) by {
                        if vis0.len() <= i < vis1.len() {
                            assert(seq_ids(vis2)[i] == seq_ids(vis1)[i]);
                            assert(expanded(adj, seq_ids(vis1), seq_ids(vis1)[i]));
                        }
                    }
                }
            } else {
                proof {
                    assert(visited@ =~= vis0);
                }
            }
        },
        None => {
            proof {
                assert(es =~= Seq::<EdgeView>::empty());
                assert(visited@ =~= vis0);
            }
        },
    }
}

/// Depth-first traversal from `start`: the returned order visits `start`
/// first and then, once each, every vertex reachable from it, recursing into
/// each outgoing edge's destination in adjacency-list order.
pub fn dfs(g: &Graph, start: &str) -> (order: Vec<String>)
    requires
        g.wf(),
    ensures
        traversal_ok(g@.adj, start@, order@),
{
    let ghost adj = g@.adj;
    let ghost bnd = targets_seq(adj).to_set().insert(start@);
    proof {
        lemma_bound_from_graph(adj, start@);
    }
    let mut visited: Vec<String> = Vec::new();
    proof {
        assert(seq_ids(visited@) =~= Seq::<Seq<char>>::empty());
    }
    dfs_visit(g, start, &mut visited, Ghost(bnd));
    proof {
        assert(visited@.len() >= 1) by {
            assert(seq_ids(visited@).contains(start@));
        }
        assert(seq_ids(visited@)[0] == start@);
        assert forall|v: Seq<char>| reaches(adj, start@, v) implies seq_ids(visited@).contains(
            v,
        ) by {
            let p = choose|p: Seq<Seq<char>>|
                is_path(adj, p) && p.first() == start@ && p.last() == v;
            lemma_path_in_closed_set(adj, seq_ids(visited@), p);
        }
    }
    visited
}

/// A walk of at most `h` steps leads from `s` to `v`.
pub open spec fn hops_at_most(adj: AdjView, s: Seq<char>, v: Seq<char>, h: int) -> bool {
    exists|p: Seq<Seq<char>>|
        is_path(adj, p) && p.first() == s && p.last() == v && p.len() <= h + 1
}

/// The depth of entry `j` in a discovery forest given by parent indices.
pub open spec fn level_of(par: Seq<int>, j: int) -> nat
    decreases j,
{
    if 0 <= j < par.len() && 0 <= par[j] < j {
        level_of(par, par[j]) + 1
    } else {
        0
    }
}

/// A breadth-first discovery record over a visit order: every entry after
/// the first was discovered through an edge out of an earlier entry, parent
/// indices never step back (first-in-first-out discovery), the order covers
/// everything reachable, and each edge's destination was discovered no later
/// than by the edge's source.
pub open spec fn bfs_forest_ok(
    adj: AdjView,
    start: Seq<char>,
    ids: Seq<Seq<char>>,
    par: Seq<int>,
) -> bool {
    &&& par.len() == ids.len()
    &&& ids.len() >= 1
    &&& ids[0] == start
    &&& distinct_seq(ids)
    &&& par[0] == -1
    &&& forall|j: int| 1 <= j < par.len() ==> 0 <= #[trigger] par[j] < j
    &&& forall|j: int| 1 <= j < par.len() ==> has_edge(adj, ids[#[trigger] par[j]], ids[j])
    &&& forall|a: int, b: int| #![trigger par[a], par[b]] 0 <= a < b < par.len() ==> par[a] <= par[b]
    &&& forall|v: Seq<char>| reaches(adj, start, v) ==> ids.contains(v)
    &&& forall|i: int, k: int|
        0 <= i < ids.len() && 0 <= k < edges_of(adj, ids[i]).len() ==> exists|j: int|
            #![auto]
            0 <= j < ids.len() && ids[j] == (#[trigger] edges_of(adj, ids[i])[k]).to && par[j]
                <= i
}

/// Strict order on discovery keys: parent index first, then the edge index
/// within the parent's adjacency list.
pub open spec fn key_lt(p1: int, k1: int, p2: int, k2: int) -> bool {
    p1 < p2 || (p1 == p2 && k1 < k2)
}

pub open spec fn key_le(p1: int, k1: int, p2: int, k2: int) -> bool {
    p1 < p2 || (p1 == p2 && k1 <= k2)
}

/// A first-in-first-out discovery record: on top of `bfs_forest_ok`, each
/// entry after the first also records which edge of its parent discovered it
/// (`kdx`); the discovery keys (parent index, edge index) grow strictly
/// along the visit order, and every edge of a visited vertex has its
/// destination discovered at a key no later than that edge's own.  These
/// clauses pin the exact first-in-first-out order of `bfs`: swapping any two
/// visits, even two children of one parent, breaks them.
pub open spec fn bfs_fifo_ok(
    adj: AdjView,
    start: Seq<char>,
    ids: Seq<Seq<char>>,
    par: Seq<int>,
    kdx: Seq<int>,
) -> bool {
    &&& bfs_forest_ok(adj, start, ids, par)
    &&& kdx.len() == ids.len()
    &&& kdx[0] == -1
    &&& forall|j: int|
        1 <= j < ids.len() ==> 0 <= #[trigger] kdx[j] < edges_of(adj, ids[par[j]]).len()
    &&& forall|j: int|
        1 <= j < ids.len() ==> edges_of(adj, ids[#[trigger] par[j]])[kdx[j]].to == ids[j]
    &&& forall|a: int, b: int|
        #![trigger par[a], par[b]]
        1 <= a < b < ids.len() ==> key_lt(par[a], kdx[a], par[b], kdx[b])
    &&& forall|i: int, k: int|
        0 <= i < ids.len() && 0 <= k < edges_of(adj, ids[i]).len() ==> exists|j: int|
            #![auto]
            0 <= j < ids.len() && ids[j] == (#[trigger] edges_of(adj, ids[i])[k]).to && key_le(
                par[j],
                kdx[j],
                i,
                k,
            )
}

proof fn lemma_level_monotone(par: Seq<int>, a: int, b: int)
    requires
        par.len() >= 1,
        par[0] == -1,
        forall|j: int| 1 <= j < par.len() ==> 0 <= #[trigger] par[j] < j,
        forall|x: int, y: int| #![trigger par[x], par[y]] 0 <= x < y < par.len() ==> par[x] <= par[y],
        0 <= a <= b < par.len(),
    ensures
        level_of(par, a) <= level_of(par, b),
    decreases b,
{
    if a == b {
    } else {
        let pb = par[b];
        assert(0 <= pb < b);
        assert(level_of(par, b) == level_of(par, pb) + 1);
        if a <= pb {
            lemma_level_monotone(par, a, pb);
        } else {
            let pa = par[a];
            assert(pa <= pb);
            assert(0 <= pa < a);
            assert(level_of(par, a) == level_of(par, pa) + 1);
            lemma_level_monotone(par, pa, pb);
        }
    }
}

proof fn lemma_level_upper(
    adj: AdjView,
    start: Seq<char>,
    ids: Seq<Seq<char>>,
    par: Seq<int>,
    j: int,
)
    requires
        bfs_forest_ok(adj, start, ids, par),
        0 <= j < ids.len(),
    ensures
        hops_at_most(adj, start, ids[j], level_of(par, j) as int),
    decreases j,
{
    if j == 0 {
        let p = seq![start];
        assert(is_path(adj, p));
        assert(level_of(par, 0) == 0);
        assert(p.first() == start && p.last() == ids[0] && p.len() <= 1);
    } else {
        let pj = par[j];
        assert(0 <= pj < j);
        lemma_level_upper(adj, start, ids, par, pj);
        let p = choose|p: Seq<Seq<char>>|
            is_path(adj, p) && p.first() == start && p.last() == ids[pj] && p.len() <= level_of(
                par,
                pj,
            ) + 1;
        let q = p.push(ids[j]);
        assert(has_edge(adj, ids[pj], ids[j]));
        assert(is_path(adj, q)) by {
            assert forall|i: int| 0 <= i < q.len() - 1 implies has_edge(
                adj,
                #[trigger] q[i],
                q[i + 1],
            ) by {
                if i < p.len() - 1 {
                    assert(q[i] == p[i] && q[i + 1] == p[i + 1]);
                } else {
                    assert(q[i] == p.last() && q[i + 1] == ids[j]);
                }
            }
        }
        assert(level_of(par, j) == level_of(par, pj) + 1);
        assert(q.first() == start && q.last() == ids[j] && q.len() <= level_of(par, j) + 1);
    }
}

proof fn lemma_level_lower(
    adj: AdjView,
    start: Seq<char>,
    ids: Seq<Seq<char>>,
    par: Seq<int>,
    p: Seq<Seq<char>>,
    j: int,
)
    requires
        bfs_forest_ok(adj, start, ids, par),
        is_path(adj, p),
        p.first() == start,
        0 <= j < ids.len(),
        ids[j] == p.last(),
    ensures
        level_of(par, j) <= p.len() - 1,
    decreases p.len(),
{
    if p.len() == 1 {
        assert(ids[j] == ids[0]);
        if j != 0 {
            assert(ids[0] != ids[j]);
            assert(false);
        }
        assert(level_of(par, 0) == 0);
    } else {
        let q = p.drop_last();
        assert(is_path(adj, q)) by {
            assert forall|i: int| 0 <= i < q.len() - 1 implies has_edge(
                adj,
                #[trigger] q[i],
                q[i + 1],
            ) by {
                assert(q[i] == p[i] && q[i + 1] == p[i + 1]);
                assert(has_edge(adj, p[i], p[i + 1]));
            }
        }
        let u = q.last();
        assert(q.first() == start);
        assert(reaches(adj, start, u));
        assert(ids.contains(u));
        let i = choose|i: int| 0 <= i < ids.len() && ids[i] == u;
        lemma_level_lower(adj, start, ids, par, q, i);
        assert(has_edge(adj, u, p.last())) by {
            assert(has_edge(adj, p[p.len() - 2], p[p.len() - 1]));
        }
        let k = choose|k: int|
            0 <= k < edges_of(adj, u).len() && edges_of(adj, u)[k].to == p.last();
        assert(edges_of(adj, ids[i])[k].to == p.last());
        let j2 = choose|j2: int|
            #![auto]
            0 <= j2 < ids.len() && ids[j2] == edges_of(adj, ids[i])[k].to && par[j2] <= i;
        assert(j2 == j) by {
            assert(ids[j2] == ids[j]);
        }
        if j != 0 {
            let pj = par[j];
            assert(0 <= pj < j);
            assert(pj <= i);
            lemma_level_monotone(par, pj, i);
            assert(level_of(par, j) == level_of(par, pj) + 1);
        }
    }
}

/// Breadth-first visits come in non-decreasing order of hop count: whenever
/// a later entry of the visit order can be reached from `start` within `h`
/// steps, every earlier entry can be reached within `h` steps as well.
pub proof fn lemma_bfs_hop_order(
    adj: AdjView,
    start: Seq<char>,
    ids: Seq<Seq<char>>,
    par: Seq<int>,
    i: int,
    j: int,
    h: int,
)
    requires
        bfs_forest_ok(adj, start, ids, par),
        0 <= i <= j < ids.len(),
        hops_at_most(adj, start, ids[j], h),
    ensures
        hops_at_most(adj, start, ids[i], h),
{
    let p = choose|p: Seq<Seq<char>>|
        is_path(adj, p) && p.first() == start && p.last() == ids[j] && p.len() <= h + 1;
    lemma_level_lower(adj, start, ids, par, p, j);
    lemma_level_monotone(par, i, j);
    lemma_level_upper(adj, start, ids, par, i);
    let p2 = choose|p2: Seq<Seq<char>>|
        is_path(adj, p2) && p2.first() == start && p2.last() == ids[i] && p2.len() <= level_of(
            par,
            i,
        ) + 1;
    assert(p2.len() <= h + 1);
}

/// Breadth-first traversal from `start`: the returned order visits `start`
/// first and then, once each, every vertex reachable from it; each vertex is
/// discovered through the adjacency lists in first-in-first-out order: a
/// discovery record exists (`bfs_fifo_ok`) that pins the exact visit order,
/// and by `lemma_bfs_hop_order` the visits come in non-decreasing order of
/// hop count from `start`.
#[verifier::rlimit(100)]
pub fn bfs(g: &Graph, start: &str) -> (order: Vec<String>)
    requires
        g.wf(),
    ensures
        traversal_ok(g@.adj, start@, order@),
        exists|par: Seq<int>| bfs_forest_ok(g@.adj, start@, seq_ids(order@), par),
        exists|par: Seq<int>, kdx: Seq<int>| bfs_fifo_ok(g@.adj, start@, seq_ids(order@), par, kdx),
{
    let ghost adj = g@.adj;
    let ghost bnd = targets_seq(adj).to_set().insert(start@);
    proof {
        lemma_bound_from_graph(adj, start@);
        lemma_reaches_refl(adj, start@);
    }
    let mut order: Vec<String> = Vec::new();
    order.push(start.to_owned());
    let ghost mut par: Seq<int> = seq![-1int];
    let ghost mut kdx: Seq<int> = seq![-1int];
    proof {
        assert(seq_ids(order@) =~= seq![start@]);
    }
    let mut qi: usize = 0;
    while qi < order.len()
        invariant
            g.wf(),
            adj == g@.adj,
            bound_ok(adj, bnd),
            qi <= order@.len(),
            order@.len() >= 1,
            seq_ids(order@)[0] == start@,
            visited_ok(order@, bnd),
            forall|i: int|
                0 <= i < order@.len() ==> reaches(adj, start@, #[trigger] seq_ids(order@)[i]),
            forall|i: int| 0 <= i < qi ==> expanded(adj, seq_ids(order@), #[trigger] seq_ids(order@)[i]),
            par.len() == order@.len(),
            par[0] == -1,
            forall|j: int| 1 <= j < par.len() ==> 0 <= #[trigger] par[j] < j,
            forall|j: int| 0 <= j < par.len() ==> #[trigger] par[j] < qi as int,
            forall|j: int|
                1 <= j < par.len() ==> has_edge(
                    adj,
                    seq_ids(order@)[#[trigger] par[j]],
                    seq_ids(order@)[j],
                ),
            forall|a: int, b: int|
                #![trigger par[a], par[b]]
                0 <= a < b < par.len() ==> par[a] <= par[b],
            forall|i: int, k: int|
                0 <= i < qi && 0 <= k < edges_of(adj, seq_ids(order@)[i]).len()
                    ==> exists|j: int|
                    #![auto]
                    0 <= j < order@.len() && seq_ids(order@)[j] == (#[trigger] edges_of(
                        adj,
                        seq_ids(order@)[i],
                    )[k]).to && par[j] <= i,
            kdx.len() == par.len(),
            kdx[0] == -1,
            forall|j: int|
                1 <= j < par.len() ==> 0 <= #[trigger] kdx[j] < edges_of(
                    adj,
                    seq_ids(order@)[par[j]],
                ).len(),
            forall|j: int|
                1 <= j < par.len() ==> edges_of(adj, seq_ids(order@)[#[trigger] par[j]])[kdx[
                    j
                ]].to == seq_ids(order@)[j],
            forall|a: int, b: int|
                #![trigger par[a], par[b]]
                1 <= a < b < par.len() ==> key_lt(par[a], kdx[a], par[b], kdx[b]),
            forall|i: int, k: int|
                0 <= i < qi && 0 <= k < edges_of(adj, seq_ids(order@)[i]).len()
                    ==> exists|j: int|
                    #![auto]
                    0 <= j < order@.len() && seq_ids(order@)[j] == (#[trigger] edges_of(
                        adj,
                        seq_ids(order@)[i],
                    )[k]).to && key_le(par[j], kdx[j], i, k),
        decreases bnd.len() - seq_ids(order@).to_set().len(), order@.len() - qi,
    {
        let ghost order0 = order@;
        proof {
            lemma_len_subset(seq_ids(order@).to_set(), bnd);
        }
        let cur = order[qi].clone();
        let ghost cu = cur@;
        proof {
            assert(seq_ids(order@)[qi as int] == cu);
            assert(reaches(adj, start@, cu));
        }
        match g.get_neighbors(cur.as_str()) {
            Some(row) => {
                let ghost es = edges_of(adj, cu);
                proof {
                    assert(row@.map(|i: int, e: Edge| e@) == es);
                }
                let n = row.len();
                let mut k: usize = 0;
                while k < n
                    invariant
                        g.wf(),
                        adj == g@.adj,
                        bound_ok(adj, bnd),
                        es == edges_of(adj, cu),
                        n == row@.len(),
                        row@.map(|i: int, e: Edge| e@) == es,
                        k <= n,
                        order0.len() <= order@.len(),
                        forall|i: int| 0 <= i < order0.len() ==> order@[i] == #[trigger] order0[i],
                        order@.len() >= 1,
                        seq_ids(order@)[0] == start@,
                        visited_ok(order@, bnd),
                        reaches(adj, start@, cu),
                        forall|i: int|
                            0 <= i < order@.len() ==> reaches(
                                adj,
                                start@,
                                #[trigger] seq_ids(order@)[i],
                            ),
                        forall|j: int| 0 <= j < k ==> seq_ids(order@).contains(#[trigger] es[j].to),
                        par.len() == order@.len(),
                        par[0] == -1,
                        (qi as int) < order0.len(),
                        cu == seq_ids(order@)[qi as int],
                        forall|j: int| 1 <= j < par.len() ==> 0 <= #[trigger] par[j] < j,
                        forall|j: int| 0 <= j < par.len() ==> #[trigger] par[j] <= qi as int,
                        forall|j: int|
                            1 <= j < par.len() ==> has_edge(
                                adj,
                                seq_ids(order@)[#[trigger] par[j]],
                                seq_ids(order@)[j],
                            ),
                        forall|a: int, b: int|
                            #![trigger par[a], par[b]]
                            0 <= a < b < par.len() ==> par[a] <= par[b],
                        forall|i: int, k2: int|
                            0 <= i < qi && 0 <= k2 < edges_of(adj, seq_ids(order@)[i]).len()
                                ==> exists|j: int|
                                #![auto]
                                0 <= j < order@.len() && seq_ids(order@)[j] == (#[trigger] edges_of(
                                    adj,
                                    seq_ids(order@)[i],
                                )[k2]).to && par[j] <= i,
                        forall|j: int|
                            0 <= j < k ==> exists|jj: int|
                                #![auto]
                                0 <= jj < order@.len() && seq_ids(order@)[jj] == (#[trigger] es[j]).to
                                    && par[jj] <= qi as int,
                        kdx.len() == par.len(),
                        kdx[0] == -1,
                        forall|j: int|
                            1 <= j < par.len() ==> 0 <= #[trigger] kdx[j] < edges_of(
                                adj,
                                seq_ids(order@)[par[j]],
                            ).len(),
                        forall|j: int|
                            1 <= j < par.len() ==> edges_of(
                                adj,
                                seq_ids(order@)[#[trigger] par[j]],
                            )[kdx[j]].to == seq_ids(order@)[j],
                        forall|a: int, b: int|
                            #![trigger par[a], par[b]]
                            1 <= a < b < par.len() ==> key_lt(par[a], kdx[a], par[b], kdx[b]),
                        forall|j: int|
                            0 <= j < par.len() ==> key_lt(
                                #[trigger] par[j],
                                kdx[j],
                                qi as int,
                                k as int,
                            ),
                        forall|i: int, k2: int|
                            0 <= i < qi && 0 <= k2 < edges_of(adj, seq_ids(order@)[i]).len()
                                ==> exists|j: int|
                                #![auto]
                                0 <= j < order@.len() && seq_ids(order@)[j] == (#[trigger] edges_of(
                                    adj,
                                    seq_ids(order@)[i],
                                )[k2]).to && key_le(par[j], kdx[j], i, k2),
                        forall|j: int|
                            0 <= j < k ==> exists|jj: int|
                                #![auto]
                                0 <= jj < order@.len() && seq_ids(order@)[jj] == (
                                #[trigger] es[j]).to && key_le(par[jj], kdx[jj], qi as int, j),
                    decreases n - k,
                {
                    let ghost before = order@;
                    let t = row[k].to.clone();
                    proof {
                        assert(row@[k as int]@ == es[k as int]);
                        assert(t@ == es[k as int].to);
                        assert(has_edge(adj, cu, t@)) by {
                            assert(edges_of(adj, cu)[k as int].to == t@);
                        }
                        lemma_reaches_edge(adj, start@, cu, t@);
                        assert(bnd.contains(t@));
                    }
                    if !contains_id(&order, t.as_str()) {
                        order.push(t);
                        proof {
                            let par0 = par;
                            par = par.push(qi as int);
                            let kdx0 = kdx;
                            kdx = kdx.push(k as int);
                            assert(seq_ids(order@) =~= seq_ids(before).push(es[k as int].to));
                            lemma_ids_prefix(before, order@);
                            assert(par[0] == -1);
                            let newj = before.len() as int;
                            assert(par[newj] == qi as int && 0 <= qi < newj);
                            assert(seq_ids(order@)[qi as int] == cu);
                            assert(seq_ids(order@)[newj] == es[k as int].to);
                            assert forall|j: int| 1 <= j < par.len() implies has_edge(
                                adj,
                                seq_ids(order@)[#[trigger] par[j]],
                                seq_ids(order@)[j],
                            ) by {
                                if j < newj {
                                    assert(par[j] == par0[j]);
                                    assert(seq_ids(order@)[j] == seq_ids(before)[j]);
                                    assert(seq_ids(order@)[par0[j]] == seq_ids(before)[par0[j]]);
                                } else {
                                    assert(has_edge(adj, cu, es[k as int].to));
                                }
                            }
                            assert forall|i: int, k2: int|
                                0 <= i < qi && 0 <= k2 < edges_of(adj, seq_ids(order@)[i]).len()
                                    implies exists|j: int|
                                    #![auto]
                                    0 <= j < order@.len() && seq_ids(order@)[j] == (
                                    #[trigger] edges_of(adj, seq_ids(order@)[i])[k2]).to && par[j]
                                        <= i by {
                                assert(seq_ids(order@)[i] == seq_ids(before)[i]);
                                let j = choose|j: int|
                                    #![auto]
                                    0 <= j < before.len() && seq_ids(before)[j] == (edges_of(
                                        adj,
                                        seq_ids(before)[i],
                                    )[k2]).to && par0[j] <= i;
                                assert(seq_ids(order@)[j] == seq_ids(before)[j]);
                                assert(par[j] == par0[j]);
                            }
                            assert forall|j: int| 0 <= j < k + 1 implies exists|jj: int|
                                #![auto]
                                0 <= jj < order@.len() && seq_ids(order@)[jj] == (
                                #[trigger] es[j]).to && par[jj] <= qi as int by {
                                if j < k {
                                    let jj = choose|jj: int|
                                        #![auto]
                                        0 <= jj < before.len() && seq_ids(before)[jj] == es[j].to
                                            && par0[jj] <= qi as int;
                                    assert(seq_ids(order@)[jj] == seq_ids(before)[jj]);
                                    assert(par[jj] == par0[jj]);
                                } else {
                                    assert(seq_ids(order@)[newj] == es[j].to && par[newj]
                                        <= qi as int);
                                }
                            }
                            assert(kdx[0] == -1);
                            assert(kdx[newj] == k as int);
                            assert forall|j: int| 1 <= j < par.len() implies 0 <= #[trigger] kdx[
                                j
                            ] < edges_of(adj, seq_ids(order@)[par[j]]).len() by {
                                if j < newj {
                                    assert(kdx[j] == kdx0[j] && par[j] == par0[j]);
                                    assert(seq_ids(order@)[par0[j]] == seq_ids(before)[par0[j]]);
                                } else {
                                    assert(edges_of(adj, seq_ids(order@)[qi as int]) == es);
                                }
                            }
                            assert forall|j: int| 1 <= j < par.len() implies edges_of(
                                adj,
                                seq_ids(order@)[#[trigger] par[j]],
                            )[kdx[j]].to == seq_ids(order@)[j] by {
                                if j < newj {
                                    assert(kdx[j] == kdx0[j] && par[j] == par0[j]);
                                    assert(seq_ids(order@)[j] == seq_ids(before)[j]);
                                    assert(seq_ids(order@)[par0[j]] == seq_ids(before)[par0[j]]);
                                } else {
                                    assert(edges_of(adj, seq_ids(order@)[qi as int]) == es);
                                    assert(es[k as int].to == seq_ids(order@)[newj]);
                                }
                            }
                            assert forall|a: int, b: int|
                                #![trigger par[a], par[b]]
                                1 <= a < b < par.len() implies key_lt(
                                par[a],
                                kdx[a],
                                par[b],
                                kdx[b],
                            ) by {
                                if b == newj {
                                    assert(key_lt(par0[a], kdx0[a], qi as int, k as int));
                                } else {
                                    assert(par[a] == par0[a] && kdx[a] == kdx0[a]);
                                    assert(par[b] == par0[b] && kdx[b] == kdx0[b]);
                                }
                            }
                            assert forall|j: int| 0 <= j < par.len() implies key_lt(
                                #[trigger] par[j],
                                kdx[j],
                                qi as int,
                                k as int + 1,
                            ) by {
                                if j < newj {
                                    assert(key_lt(par0[j], kdx0[j], qi as int, k as int));
                                }
                            }
                            assert forall|i: int, k2: int|
                                0 <= i < qi && 0 <= k2 < edges_of(adj, seq_ids(order@)[i]).len()
                                    implies exists|j: int|
                                    #![auto]
                                    0 <= j < order@.len() && seq_ids(order@)[j] == (
                                    #[trigger] edges_of(adj, seq_ids(order@)[i])[k2]).to && key_le(
                                        par[j],
                                        kdx[j],
                                        i,
                                        k2,
                                    ) by {
                                assert(seq_ids(order@)[i] == seq_ids(before)[i]);
                                let j = choose|j: int|
                                    #![auto]
                                    0 <= j < before.len() && seq_ids(before)[j] == (edges_of(
                                        adj,
                                        seq_ids(before)[i],
                                    )[k2]).to && key_le(par0[j], kdx0[j], i, k2);
                                assert(seq_ids(order@)[j] == seq_ids(before)[j]);
                                assert(par[j] == par0[j] && kdx[j] == kdx0[j]);
                            }
                            assert forall|j: int| 0 <= j < k + 1 implies exists|jj: int|
                                #![auto]
                                0 <= jj < order@.len() && seq_ids(order@)[jj] == (
                                #[trigger] es[j]).to && key_le(
                                    par[jj],
                                    kdx[jj],
                                    qi as int,
                                    j,
                                ) by {
                                if j < k {
                                    let jj = choose|jj: int|
                                        #![auto]
                                        0 <= jj < before.len() && seq_ids(before)[jj] == es[j].to
                                            && key_le(par0[jj], kdx0[jj], qi as int, j);
                                    assert(seq_ids(order@)[jj] == seq_ids(before)[jj]);
                                    assert(par[jj] == par0[jj] && kdx[jj] == kdx0[jj]);
                                } else {
                                    assert(seq_ids(order@)[newj] == es[j].to);
                                    assert(key_le(par[newj], kdx[newj], qi as int, j));
                                }
                            }
                            assert forall|i: int| 0 <= i < order@.len() implies reaches(
                                adj,
                                start@,
                                #[trigger] seq_ids(order@)[i],
                            ) by {
                                if i < before.len() {
                                    assert(seq_ids(order@)[i] == seq_ids(before)[i]);
                                } else {
                                    assert(seq_ids(order@)[i] == es[k as int].to);
                                }
                            }
                            assert forall|j: int| 0 <= j < k + 1 implies seq_ids(order@).contains(
                                #[trigger] es[j].to,
                            ) by {
                                if j < k {
                                    assert(seq_ids(before).contains(es[j].to));
                                } else {
                                    assert(seq_ids(order@).last() == es[k as int].to);
                                }
                            }
                        }
                    } else {
                        proof {
                            assert forall|j: int| 0 <= j < k + 1 implies seq_ids(order@).contains(
                                #[trigger] es[j].to,
                            ) by {}
                            assert forall|j: int| 0 <= j < k + 1 implies exists|jj: int|
                                #![auto]
                                0 <= jj < order@.len() && seq_ids(order@)[jj] == (
                                #[trigger] es[j]).to && par[jj] <= qi as int by {
                                if j == k {
                                    let jj = choose|jj: int|
                                        0 <= jj < seq_ids(order@).len() && seq_ids(order@)[jj]
                                            == es[k as int].to;
                                    assert(par[jj] <= qi as int);
                                }
                            }
                            assert forall|j: int| 0 <= j < k + 1 implies exists|jj: int|
                                #![auto]
                                0 <= jj < order@.len() && seq_ids(order@)[jj] == (
                                #[trigger] es[j]).to && key_le(
                                    par[jj],
                                    kdx[jj],
                                    qi as int,
                                    j,
                                ) by {
                                if j == k {
                                    let jj = choose|jj: int|
                                        0 <= jj < seq_ids(order@).len() && seq_ids(order@)[jj]
                                            == es[k as int].to;
                                    assert(key_lt(par[jj], kdx[jj], qi as int, k as int));
                                }
                            }
                        }
                    }
                    k = k + 1;
                }
                proof {
                    lemma_ids_prefix(order0, order@);
                    assert(expanded(adj, seq_ids(order@), cu));
                    assert forall|i: int, k2: int|
                        0 <= i < qi + 1 && 0 <= k2 < edges_of(adj, seq_ids(order@)[i]).len()
                            implies exists|j: int|
                            #![auto]
                            0 <= j < order@.len() && seq_ids(order@)[j] == (#[trigger] edges_of(
                                adj,
                                seq_ids(order@)[i],
                            )[k2]).to && par[j] <= i by {
                        if i == qi {
                            assert(seq_ids(order@)[i] == cu);
                            assert(edges_of(adj, seq_ids(order@)[i]) == es);
                        }
                    }
                    assert forall|i: int, k2: int|
                        0 <= i < qi + 1 && 0 <= k2 < edges_of(adj, seq_ids(order@)[i]).len()
                            implies exists|j: int|
                            #![auto]
                            0 <= j < order@.len() && seq_ids(order@)[j] == (#[trigger] edges_of(
                                adj,
                                seq_ids(order@)[i],
                            )[k2]).to && key_le(par[j], kdx[j], i, k2) by {
                        if i == qi {
                            assert(seq_ids(order@)[i] == cu);
                            assert(edges_of(adj, seq_ids(order@)[i]) == es);
                        }
                    }
                    assert forall|i: int| 0 <= i < qi + 1 implies expanded(
                        adj,
                        seq_ids(order@),
                        #[trigger] seq_ids(order@)[i],
                    ) by {
                        if i < qi {
                            assert(seq_ids(order0)[i] == seq_ids(order@)[i]);
                            assert(expanded(adj, seq_ids(order0), seq_ids(order0)[i]));
                        } else {
                            assert(seq_ids(order@)[i] == cu);
                        }
                    }
                    if order@.len() == order0.len() {
                        assert(order@ =~= order0);
                    } else {
                        assert(seq_ids(order0).to_set().len() < seq_ids(order@).to_set().len())
                            by {
                            let newid = seq_ids(order@)[order0.len() as int];
                            assert(!seq_ids(order0).contains(newid)) by {
                                if seq_ids(order0).contains(newid) {
                                    let j = choose|j: int|
                                        0 <= j < order0.len() && seq_ids(order0)[j] == newid;
                                    assert(seq_ids(order@)[j] == newid);
                                }
                            }
                            assert(seq_ids(order@).to_set().contains(newid));
                            assert(!seq_ids(order0).to_set().contains(newid));
                            lemma_ids_prefix(order0, order@);
                            lemma_len_subset(
                                seq_ids(order0).to_set().insert(newid),
                                seq_ids(order@).to_set(),
                            );
                        }
                    }
                }
            },
            None => {
                proof {
                    assert(edges_of(adj, cu) =~= Seq::<EdgeView>::empty());
                    assert(expanded(adj, seq_ids(order@), cu));
                    assert forall|i: int| 0 <= i < qi + 1 implies expanded(
                        adj,
                        seq_ids(order@),
                        #[trigger] seq_ids(order@)[i],
                    ) by {}
                    assert forall|i: int, k2: int|
                        0 <= i < qi + 1 && 0 <= k2 < edges_of(adj, seq_ids(order@)[i]).len()
                            implies exists|j: int|
                            #![auto]
                            0 <= j < order@.len() && seq_ids(order@)[j] == (#[trigger] edges_of(
                                adj,
                                seq_ids(order@)[i],
                            )[k2]).to && par[j] <= i by {
                        if i == qi {
                            assert(seq_ids(order@)[i] == cu);
                            assert(edges_of(adj, seq_ids(order@)[i]).len() == 0);
                        }
                    }
                    assert forall|i: int, k2: int|
                        0 <= i < qi + 1 && 0 <= k2 < edges_of(adj, seq_ids(order@)[i]).len()
                            implies exists|j: int|
                            #![auto]
                            0 <= j < order@.len() && seq_ids(order@)[j] == (#[trigger] edges_of(
                                adj,
                                seq_ids(order@)[i],
                            )[k2]).to && key_le(par[j], kdx[j], i, k2) by {
                        if i == qi {
                            assert(seq_ids(order@)[i] == cu);
                            assert(edges_of(adj, seq_ids(order@)[i]).len() == 0);
                        }
                    }
                }
            },
        }
        qi = qi + 1;
        proof {
            lemma_ids_prefix(order0, order@);
            lemma_len_subset(seq_ids(order@).to_set(), bnd);
        }
    }
    proof {
        assert forall|v: Seq<char>| reaches(adj, start@, v) implies seq_ids(order@).contains(
            v,
        ) by {
            let p = choose|p: Seq<Seq<char>>|
                is_path(adj, p) && p.first() == start@ && p.last() == v;
            assert(seq_ids(order@).contains(start@)) by {
                assert(seq_ids(order@)[0] == start@);
            }
            lemma_path_in_closed_set(adj, seq_ids(order@), p);
        }
        assert(bfs_forest_ok(adj, start@, seq_ids(order@), par));
        assert(bfs_fifo_ok(adj, start@, seq_ids(order@), par, kdx));
    }
    order
}

/// Depth-first and breadth-first traversal visit the same vertices: any two
/// orders that satisfy `traversal_ok` for the same graph and start vertex
/// hold exactly the same set of identifiers; only the order may differ.
pub proof fn lemma_traversals_visit_same_set(
    adj: AdjView,
    start: Seq<char>,
    a: Seq<String>,
    b: Seq<String>,
)
    requires
        traversal_ok(adj, start, a),
        traversal_ok(adj, start, b),
    ensures
        seq_ids(a).to_set() == seq_ids(b).to_set(),
{
    assert forall|x: Seq<char>| #[trigger] seq_ids(a).contains(x) implies seq_ids(b).contains(
        x,
    ) by {
        let i = choose|i: int| 0 <= i < seq_ids(a).len() && seq_ids(a)[i] == x;
        assert(reaches(adj, start, seq_ids(a)[i]));
    }
    assert forall|x: Seq<char>| #[trigger] seq_ids(b).contains(x) implies seq_ids(a).contains(
        x,
    ) by {
        let i = choose|i: int| 0 <= i < seq_ids(b).len() && seq_ids(b)[i] == x;
        assert(reaches(adj, start, seq_ids(b)[i]));
    }
    assert(seq_ids(a).to_set() =~= seq_ids(b).to_set());
}

/// A shortest-path distance: finite, or unreachable.
#[derive(Clone, Copy, Debug, PartialEq, Eq, Structural)]
pub enum Dist {
    Fin(u64),
    Inf,
}

/// `a` is at most the mathematical value `w`.
pub open spec fn dist_le_int(a: Dist, w: int) -> bool {
    match a {
        Dist::Fin(x) => x <= w,
        Dist::Inf => false,
    }
}

/// Strict order on distances, with `Inf` greatest.
pub open spec fn dist_lt_spec(a: Dist, b: Dist) -> bool {
    match b {
        Dist::Inf => !(a is Inf),
        Dist::Fin(y) => match a {
            Dist::Fin(x) => x < y,
            Dist::Inf => false,
        },
    }
}

pub open spec fn dist_le(a: Dist, b: Dist) -> bool {
    !dist_lt_spec(b, a)
}

/// `a <= b + w`, except that a sum beyond `u64::MAX` imposes nothing.
pub open spec fn dist_add_le(a: Dist, b: Dist, w: u64) -> bool {
    match b {
        Dist::Inf => true,
        Dist::Fin(x) => x + w > u64::MAX || dist_le_int(a, x + w),
    }
}

fn dist_lt(a: Dist, b: Dist) -> (r: bool)
    ensures
        r == dist_lt_spec(a, b),
{
    match b {
        Dist::Inf => match a {
            Dist::Fin(_) => true,
            Dist::Inf => false,
        },
        Dist::Fin(y) => match a {
            Dist::Fin(x) => x < y,
            Dist::Inf => false,
        },
    }
}

/// The total weight of a walk's edge weights.
pub open spec fn sum_w(ws: Seq<u64>) -> int
    decreases ws.len(),
{
    if ws.len() == 0 {
        0
    } else {
        sum_w(ws.drop_last()) + ws.last()
    }
}

proof fn lemma_sum_w_nonneg(ws: Seq<u64>)
    ensures
        sum_w(ws) >= 0,
    decreases ws.len(),
{
    if ws.len() > 0 {
        lemma_sum_w_nonneg(ws.drop_last());
    }
}

/// Some edge of weight `w` leads from `u` to `v`.
pub open spec fn has_edge_w(adj: AdjView, u: Seq<char>, v: Seq<char>, w: u64) -> bool {
    exists|k: int|
        0 <= k < edges_of(adj, u).len() && edges_of(adj, u)[k].to == v && edges_of(adj, u)[
            k
        ].weight == w
}

/// `p` is a walk whose `i`-th step uses an edge of weight `ws[i]`.
pub open spec fn is_wpath(adj: AdjView, p: Seq<Seq<char>>, ws: Seq<u64>) -> bool {
    p.len() == ws.len() + 1 && forall|i: int|
        0 <= i < ws.len() ==> has_edge_w(adj, #[trigger] p[i], p[i + 1], ws[i])
}

proof fn lemma_wpath_extend(adj: AdjView, p: Seq<Seq<char>>, ws: Seq<u64>, v: Seq<char>, w: u64)
    requires
        is_wpath(adj, p, ws),
        has_edge_w(adj, p.last(), v, w),
    ensures
        is_wpath(adj, p.push(v), ws.push(w)),
        sum_w(ws.push(w)) == sum_w(ws) + w,
        p.push(v).first() == p.first(),
        p.push(v).last() == v,
{
    let p2 = p.push(v);
    let ws2 = ws.push(w);
    assert forall|i: int| 0 <= i < ws2.len() implies has_edge_w(
        adj,
        #[trigger] p2[i],
        p2[i + 1],
        ws2[i],
    ) by {
        if i < ws.len() {
            assert(p2[i] == p[i] && p2[i + 1] == p[i + 1] && ws2[i] == ws[i]);
        } else {
            assert(p2[i] == p.last() && p2[i + 1] == v && ws2[i] == w);
        }
    }
    assert(ws2.drop_last() =~= ws);
}

/// The identifiers of a distance table.
pub open spec fn res_ids(res: Seq<(String, Dist)>) -> Seq<Seq<char>> {
    res.map(|i: int, pr: (String, Dist)| pr.0@)
}

/// The row index of `id` in a distance table (meaningful when present and
/// identifiers are distinct).
pub open spec fn res_index(res: Seq<(String, Dist)>, id: Seq<char>) -> int {
    choose|i: int| 0 <= i < res.len() && res[i].0@ == id
}

/// The distance recorded for `id`; `Inf` when `id` is absent.
pub open spec fn dist_of(res: Seq<(String, Dist)>, id: Seq<char>) -> Dist {
    if res_ids(res).contains(id) {
        res[res_index(res, id)].1
    } else {
        Dist::Inf
    }
}

/// The recorded finite distances are realized by actual walks.
pub open spec fn realizable(adj: AdjView, start: Seq<char>, pr: (String, Dist)) -> bool {
    match pr.1 {
        Dist::Fin(d) => exists|p: Seq<Seq<char>>, ws: Seq<u64>|
            is_wpath(adj, p, ws) && p.first() == start && p.last() == pr.0@ && sum_w(ws) == d,
        Dist::Inf => true,
    }
}

/// The standing facts of a distance table: distinct keys, keys are exactly
/// the vertices together with `start`, `start` at distance zero, and every
/// finite entry realized by a walk.
pub open spec fn dists_ok(adj: AdjView, start: Seq<char>, res: Seq<(String, Dist)>) -> bool {
    &&& distinct_seq(res_ids(res))
    &&& forall|id: Seq<char>|
        #[trigger] res_ids(res).contains(id) <==> (has_vertex(adj, id) || id == start)
    &&& forall|i: int| 0 <= i < res.len() && (#[trigger] res[i].0)@ == start ==> res[i].1 == Dist::Fin(0)
    &&& forall|i: int| 0 <= i < res.len() ==> realizable(adj, start, #[trigger] res[i])
}

/// What `dijkstra` returns: the standing facts, and no recorded distance
/// exceeds the weight of any walk from `start` (so each entry is exactly the
/// least walk weight whenever that weight fits in `u64`, and `Inf` exactly
/// when no such walk exists).
pub open spec fn dist_result_ok(adj: AdjView, start: Seq<char>, res: Seq<(String, Dist)>) -> bool {
    &&& dists_ok(adj, start, res)
    &&& forall|i: int, p: Seq<Seq<char>>, ws: Seq<u64>|
        #![trigger res[i].1, is_wpath(adj, p, ws)]
        0 <= i < res.len() && is_wpath(adj, p, ws) && p.first() == start && p.last() == res[i].0@
            && sum_w(ws) <= u64::MAX ==> dist_le_int(res[i].1, sum_w(ws))
}

/// Every row whose edges are all relaxed bounds its neighbours' distances.
pub open spec fn row_relaxed(adj: AdjView, res: Seq<(String, Dist)>, i: int) -> bool {
    forall|k: int|
        0 <= k < edges_of(adj, res[i].0@).len() ==> dist_add_le(
            dist_of(res, (#[trigger] edges_of(adj, res[i].0@)[k]).to),
            res[i].1,
            edges_of(adj, res[i].0@)[k].weight,
        )
}

/// In a table where `start` is zero and every row is relaxed, no recorded
/// distance exceeds the weight of any walk from `start` that fits in `u64`.
proof fn lemma_fixpoint_optimal(
    adj: AdjView,
    start: Seq<char>,
    res: Seq<(String, Dist)>,
    p: Seq<Seq<char>>,
    ws: Seq<u64>,
)
    requires
        distinct_seq(res_ids(res)),
        forall|id: Seq<char>|
            #[trigger] res_ids(res).contains(id) <==> (has_vertex(adj, id) || id == start),
        forall|i: int|
            0 <= i < res.len() && (#[trigger] res[i].0)@ == start ==> res[i].1 == Dist::Fin(0),
        forall|i: int| 0 <= i < res.len() ==> row_relaxed(adj, res, i),
        is_wpath(adj, p, ws),
        p.first() == start,
        sum_w(ws) <= u64::MAX,
    ensures
        dist_le_int(dist_of(res, p.last()), sum_w(ws)),
    decreases p.len(),
{
    lemma_sum_w_nonneg(ws);
    if p.len() == 1 {
        assert(p.last() == start);
        assert(res_ids(res).contains(start));
        let j = res_index(res, start);
        assert(0 <= j < res.len() && res[j].0@ == start);
        assert(res[j].1 == Dist::Fin(0));
        assert(dist_of(res, start) == res[j].1);
    } else {
        let p1 = p.drop_last();
        let ws1 = ws.drop_last();
        let wlast = ws.last();
        assert(is_wpath(adj, p1, ws1)) by {
            assert forall|i: int| 0 <= i < ws1.len() implies has_edge_w(
                adj,
                #[trigger] p1[i],
                p1[i + 1],
                ws1[i],
            ) by {
                assert(p1[i] == p[i] && p1[i + 1] == p[i + 1] && ws1[i] == ws[i]);
                assert(has_edge_w(adj, p[i], p[i + 1], ws[i]));
            }
        }
        lemma_sum_w_nonneg(ws1);
        assert(has_edge_w(adj, p1.last(), p.last(), wlast)) by {
            assert(p1.last() == p[p.len() - 2] && p.last() == p[p.len() - 1]);
            assert(has_edge_w(adj, p[ws.len() - 1], p[ws.len() as int], ws[ws.len() - 1]));
        }
        lemma_fixpoint_optimal(adj, start, res, p1, ws1);
        let u = p1.last();
        let du = dist_of(res, u);
        assert(dist_le_int(du, sum_w(ws1)));
        let x = du->Fin_0;
        let k = choose|k: int|
            0 <= k < edges_of(adj, u).len() && edges_of(adj, u)[k].to == p.last() && edges_of(
                adj,
                u,
            )[k].weight == wlast;
        assert(has_vertex(adj, u));
        assert(res_ids(res).contains(u));
        let j = res_index(res, u);
        assert(0 <= j < res.len() && res[j].0@ == u);
        assert(res[j].1 == du);
        assert(row_relaxed(adj, res, j));
        assert(dist_add_le(dist_of(res, edges_of(adj, u)[k].to), res[j].1, wlast));
        assert(x + wlast <= sum_w(ws1) + wlast);
        assert(sum_w(ws1) + wlast == sum_w(ws));
    }
}

/// How many entries are `true`.
pub open spec fn count_true(s: Seq<bool>) -> int
    decreases s.len(),
{
    if s.len() == 0 {
        0
    } else {
        count_true(s.drop_last()) + if s.last() {
            1int
        } else {
            0int
        }
    }
}

proof fn lemma_count_true_bounds(s: Seq<bool>)
    ensures
        0 <= count_true(s) <= s.len(),
    decreases s.len(),
{
    if s.len() > 0 {
        lemma_count_true_bounds(s.drop_last());
    }
}

proof fn lemma_count_true_update(s: Seq<bool>, m: int)
    requires
        0 <= m < s.len(),
        !s[m],
    ensures
        count_true(s.update(m, true)) == count_true(s) + 1,
    decreases s.len(),
{
    let s2 = s.update(m, true);
    if m == s.len() - 1 {
        assert(s2.drop_last() =~= s.drop_last());
        assert(s2.last());
    } else {
        lemma_count_true_update(s.drop_last(), m);
        assert(s2.drop_last() =~= s.drop_last().update(m, true));
        assert(s2.last() == s.last());
    }
}

proof fn lemma_count_true_all(s: Seq<bool>)
    requires
        forall|j: int| 0 <= j < s.len() ==> s[j],
    ensures
        count_true(s) == s.len(),
    decreases s.len(),
{
    if s.len() > 0 {
        lemma_count_true_all(s.drop_last());
    }
}

proof fn lemma_count_true_full(s: Seq<bool>)
    requires
        count_true(s) == s.len(),
    ensures
        forall|j: int| 0 <= j < s.len() ==> s[j],
    decreases s.len(),
{
    if s.len() > 0 {
        lemma_count_true_bounds(s.drop_last());
        lemma_count_true_full(s.drop_last());
        assert forall|j: int| 0 <= j < s.len() implies s[j] by {
            if j < s.len() - 1 {
                assert(s.drop_last()[j]);
            }
        }
    }
}

/// The standing facts preserved by one successful relaxation update:
/// row `ti` of the table drops to `dm + w`.
proof fn lemma_after_update(
    adj: AdjView,
    start: Seq<char>,
    dpre: Seq<(String, Dist)>,
    dnew: Seq<(String, Dist)>,
    dist1: Seq<(String, Dist)>,
    done1: Seq<bool>,
    m: int,
    ti: int,
    dm: u64,
    w: u64,
    es: Seq<EdgeView>,
    k: int,
)
    requires
        0 <= m < dist1.len(),
        dist1.len() == dpre.len(),
        done1.len() == dist1.len(),
        es == edges_of(adj, dist1[m].0@),
        0 <= k < es.len(),
        es[k].weight == w,
        dist1[m].1 == Dist::Fin(dm),
        !done1[m],
        dm + w <= u64::MAX,
        0 <= ti < dpre.len(),
        dpre[ti].0@ == es[k].to,
        ti == res_index(dpre, es[k].to),
        dist_lt_spec(Dist::Fin((dm + w) as u64), dpre[ti].1),
        !done1.update(m, true)[ti],
        dnew == dpre.update(ti, (dpre[ti].0, Dist::Fin((dm + w) as u64))),
        dists_ok(adj, start, dpre),
        forall|j: int| 0 <= j < dist1.len() ==> (#[trigger] dpre[j]).0 == dist1[j].0,
        forall|j: int|
            0 <= j < dist1.len() && done1.update(m, true)[j] ==> (#[trigger] dpre[j]).1
                == dist1[j].1,
        forall|j: int| 0 <= j < dist1.len() ==> dist_le((#[trigger] dpre[j]).1, dist1[j].1),
        forall|j: int|
            0 <= j < dist1.len() && !done1[j] ==> dist_le(dist1[m].1, (#[trigger] dist1[j]).1),
        forall|a: int, b: int|
            0 <= a < dist1.len() && 0 <= b < dist1.len() && done1[a] && !done1[b] ==> dist_le(
                (#[trigger] dist1[a]).1,
                (#[trigger] dist1[b]).1,
            ),
        forall|a: int, b: int|
            0 <= a < dist1.len() && 0 <= b < dist1.len() && done1.update(m, true)[a]
                && !done1.update(m, true)[b] ==> dist_le(
                (#[trigger] dpre[a]).1,
                (#[trigger] dpre[b]).1,
            ),
        forall|a: int| 0 <= a < dist1.len() && done1[a] ==> row_relaxed(adj, dpre, a),
        forall|j: int|
            0 <= j < k ==> dist_add_le(
                dist_of(dpre, (#[trigger] es[j]).to),
                Dist::Fin(dm),
                es[j].weight,
            ),
    ensures
        dists_ok(adj, start, dnew),
        forall|j: int| 0 <= j < dist1.len() ==> (#[trigger] dnew[j]).0 == dist1[j].0,
        forall|j: int|
            0 <= j < dist1.len() && done1.update(m, true)[j] ==> (#[trigger] dnew[j]).1
                == dist1[j].1,
        forall|j: int| 0 <= j < dist1.len() ==> dist_le((#[trigger] dnew[j]).1, dist1[j].1),
        forall|a: int, b: int|
            0 <= a < dist1.len() && 0 <= b < dist1.len() && done1.update(m, true)[a]
                && !done1.update(m, true)[b] ==> dist_le(
                (#[trigger] dnew[a]).1,
                (#[trigger] dnew[b]).1,
            ),
        forall|a: int| 0 <= a < dist1.len() && done1[a] ==> row_relaxed(adj, dnew, a),
        forall|j: int|
            0 <= j < k + 1 ==> dist_add_le(
                dist_of(dnew, (#[trigger] es[j]).to),
                Dist::Fin(dm),
                es[j].weight,
            ),
{
    let nd = (dm + w) as u64;
    let t = es[k].to;
    assert(res_ids(dnew) =~= res_ids(dpre));
    assert forall|id: Seq<char>| #[trigger] res_ids(dnew).contains(id) implies res_index(
        dnew,
        id,
    ) == res_index(dpre, id) && dist_le(dist_of(dnew, id), dist_of(dpre, id)) by {
        let j1 = res_index(dnew, id);
        let j2 = res_index(dpre, id);
        assert(0 <= j1 < dnew.len() && dnew[j1].0@ == id);
        assert(0 <= j2 < dpre.len() && dpre[j2].0@ == id);
        assert(res_ids(dnew)[j1] == id && res_ids(dnew)[j2] == id);
    }
    // the start row keeps distance zero
    assert forall|j: int| 0 <= j < dnew.len() && (#[trigger] dnew[j].0)@ == start implies dnew[
        j
    ].1 == Dist::Fin(0) by {
        if j == ti {
            assert(dpre[j].1 == Dist::Fin(0));
        }
    }
    // realizability of the one changed row
    assert forall|j: int| 0 <= j < dnew.len() implies realizable(adj, start, #[trigger] dnew[j]) by {
        if j == ti {
            assert(dpre[m].1 == dist1[m].1);
            assert(realizable(adj, start, dpre[m]));
            let (p0, ws0) = choose|p0: Seq<Seq<char>>, ws0: Seq<u64>|
                is_wpath(adj, p0, ws0) && p0.first() == start && p0.last() == dpre[m].0@ && sum_w(
                    ws0,
                ) == dm;
            assert(has_edge_w(adj, p0.last(), t, w)) by {
                assert(edges_of(adj, dist1[m].0@)[k].to == t);
            }
            lemma_wpath_extend(adj, p0, ws0, t, w);
            assert(sum_w(ws0.push(w)) == nd);
            assert(dnew[j].0@ == t);
        } else {
            assert(realizable(adj, start, dpre[j]));
        }
    }
    // greedy order kept
    assert forall|a: int, b: int|
        0 <= a < dist1.len() && 0 <= b < dist1.len() && done1.update(m, true)[a] && !done1.update(
            m,
            true,
        )[b] implies dist_le((#[trigger] dnew[a]).1, (#[trigger] dnew[b]).1) by {
        if b == ti {
            if a == m {
            } else {
                assert(done1[a] && !done1[m]);
                assert(dist_le(dist1[a].1, dist1[m].1));
            }
        } else {
            assert(dist_le(dpre[a].1, dpre[b].1));
        }
    }
    // rows already relaxed stay relaxed
    assert forall|a: int| 0 <= a < dist1.len() && done1[a] implies row_relaxed(adj, dnew, a) by {
        assert(row_relaxed(adj, dpre, a));
        assert forall|kk: int| 0 <= kk < edges_of(adj, dnew[a].0@).len() implies dist_add_le(
            dist_of(dnew, (#[trigger] edges_of(adj, dnew[a].0@)[kk]).to),
            dnew[a].1,
            edges_of(adj, dnew[a].0@)[kk].weight,
        ) by {
            let tt = edges_of(adj, dnew[a].0@)[kk].to;
            assert(dnew[a].0 == dpre[a].0);
            assert(dist_add_le(dist_of(dpre, tt), dpre[a].1, edges_of(adj, dpre[a].0@)[kk].weight));
            assert(dnew[a].1 == dpre[a].1);
        }
    }
    // progress on this row's edges
    assert forall|j: int| 0 <= j < k + 1 implies dist_add_le(
        dist_of(dnew, (#[trigger] es[j]).to),
        Dist::Fin(dm),
        es[j].weight,
    ) by {
        if j < k {
            assert(dist_add_le(dist_of(dpre, es[j].to), Dist::Fin(dm), es[j].weight));
        } else {
            assert(res_ids(dnew)[ti] == t);
            assert(res_ids(dnew).contains(t));
            assert(res_index(dnew, t) == ti) by {
                let j2 = res_index(dnew, t);
                assert(0 <= j2 < dnew.len() && dnew[j2].0@ == t);
                assert(res_ids(dnew)[j2] == t);
            }
            assert(dist_of(dnew, t) == Dist::Fin(nd));
        }
    }
}

/// One relaxation step of `dijkstra`: edge `k` of the just-finalized row
/// `m`, leading to `t` with weight `w`, lowers the recorded distance of `t` when
/// the new value is smaller; all the standing facts of the loop are kept.
#[verifier::rlimit(100)]
fn relax_edge(
    g: &Graph,
    dist: &mut Vec<(String, Dist)>,
    t: &str,
    w: u64,
    dm: u64,
    m: usize,
    Ghost(start): Ghost<Seq<char>>,
    Ghost(done1): Ghost<Seq<bool>>,
    Ghost(dist1): Ghost<Seq<(String, Dist)>>,
    Ghost(es): Ghost<Seq<EdgeView>>,
    Ghost(k): Ghost<int>,
)
    requires
        g.wf(),
        closed_adj(g@.adj),
        old(dist)@.len() == dist1.len(),
        done1.len() == dist1.len(),
        m < dist1.len(),
        es == edges_of(g@.adj, dist1[m as int].0@),
        0 <= k < es.len(),
        es[k].to == t@,
        es[k].weight == w,
        dist1[m as int].1 == Dist::Fin(dm),
        !done1[m as int],
        forall|j: int| 0 <= j < dist1.len() ==> (#[trigger] old(dist)@[j]).0 == dist1[j].0,
        forall|j: int|
            0 <= j < dist1.len() && done1.update(m as int, true)[j] ==> (#[trigger] old(
                dist,
            )@[j]).1 == dist1[j].1,
        forall|j: int| 0 <= j < dist1.len() ==> dist_le((#[trigger] old(dist)@[j]).1, dist1[j].1),
        forall|j: int|
            0 <= j < dist1.len() && !done1[j] ==> dist_le(
                dist1[m as int].1,
                (#[trigger] dist1[j]).1,
            ),
        forall|a: int, b: int|
            0 <= a < dist1.len() && 0 <= b < dist1.len() && done1[a] && !done1[b] ==> dist_le(
                (#[trigger] dist1[a]).1,
                (#[trigger] dist1[b]).1,
            ),
        dists_ok(g@.adj, start, old(dist)@),
        forall|a: int, b: int|
            0 <= a < dist1.len() && 0 <= b < dist1.len() && done1.update(m as int, true)[a]
                && !done1.update(m as int, true)[b] ==> dist_le(
                (#[trigger] old(dist)@[a]).1,
                (#[trigger] old(dist)@[b]).1,
            ),
        forall|a: int| 0 <= a < dist1.len() && done1[a] ==> row_relaxed(g@.adj, old(dist)@, a),
        forall|j: int|
            0 <= j < k ==> dist_add_le(
                dist_of(old(dist)@, (#[trigger] es[j]).to),
                Dist::Fin(dm),
                es[j].weight,
            ),
    ensures
        final(dist)@.len() == dist1.len(),
        forall|j: int| 0 <= j < dist1.len() ==> (#[trigger] final(dist)@[j]).0 == dist1[j].0,
        forall|j: int|
            0 <= j < dist1.len() && done1.update(m as int, true)[j] ==> (#[trigger] final(dist)@[j]).1 == dist1[j].1,
        forall|j: int| 0 <= j < dist1.len() ==> dist_le((#[trigger] final(dist)@[j]).1, dist1[j].1),
        dists_ok(g@.adj, start, final(dist)@),
        forall|a: int, b: int|
            0 <= a < dist1.len() && 0 <= b < dist1.len() && done1.update(m as int, true)[a]
                && !done1.update(m as int, true)[b] ==> dist_le(
                (#[trigger] final(dist)@[a]).1,
                (#[trigger] final(dist)@[b]).1,
            ),
        forall|a: int| 0 <= a < dist1.len() && done1[a] ==> row_relaxed(g@.adj, final(dist)@, a),
        forall|j: int|
            0 <= j < k + 1 ==> dist_add_le(
                dist_of(final(dist)@, (#[trigger] es[j]).to),
                Dist::Fin(dm),
                es[j].weight,
            ),
{
    let ghost adj = g@.adj;
    let ghost done2 = done1.update(m as int, true);
    let ghost dpre = dist@;
    proof {
        assert(has_vertex(adj, t@)) by {
            assert(has_vertex(adj, dist1[m as int].0@)) by {
                assert(res_ids(dpre).contains(dist1[m as int].0@)) by {
                    assert(res_ids(dpre)[m as int] == dist1[m as int].0@);
                }
            }
            let vi = vertex_index(adj, dist1[m as int].0@);
            assert(adj[vi].1[k].to == t@);
        }
        assert(res_ids(dpre).contains(t@));
    }
    let ti = match find_res_index(dist, t) {
        Some(ti) => ti,
        None => vstd::pervasive::unreached(),
    };
    proof {
        assert(res_index(dpre, t@) == ti) by {
            let j2 = res_index(dpre, t@);
            assert(0 <= j2 < dpre.len() && dpre[j2].0@ == t@);
            assert(res_ids(dpre)[j2] == t@ && res_ids(dpre)[ti as int] == t@);
        }
        assert(dist_of(dpre, t@) == dpre[ti as int].1);
    }
    if w <= u64::MAX - dm {
        let nd = dm + w;
        let cur = dist[ti].1;
        if dist_lt(Dist::Fin(nd), cur) {
            proof {
                if done2[ti as int] {
                    if ti == m {
                        assert(dpre[ti as int].1 == Dist::Fin(dm));
                        assert(false);
                    } else {
                        assert(done1[ti as int]);
                        assert(dist_le(dist1[ti as int].1, dist1[m as int].1));
                        assert(dpre[ti as int].1 == dist1[ti as int].1);
                        assert(false);
                    }
                }
            }
            dist[ti].1 = Dist::Fin(nd);
            proof {
                assert(dist@ =~= dpre.update(ti as int, (dpre[ti as int].0, Dist::Fin(nd))));
                lemma_after_update(
                    adj,
                    start,
                    dpre,
                    dist@,
                    dist1,
                    done1,
                    m as int,
                    ti as int,
                    dm,
                    w,
                    es,
                    k,
                );
            }
        } else {
            proof {
                assert(dist_add_le(dist_of(dist@, es[k].to), Dist::Fin(dm), w)) by {
                    assert(dist_of(dist@, t@) == cur);
                    assert(!dist_lt_spec(Dist::Fin(nd), cur));
                }
                assert forall|j: int| 0 <= j < k + 1 implies dist_add_le(
                    dist_of(dist@, (#[trigger] es[j]).to),
                    Dist::Fin(dm),
                    es[j].weight,
                ) by {}
            }
        }
    } else {
        proof {
            assert(dm + w > u64::MAX);
            assert forall|j: int| 0 <= j < k + 1 implies dist_add_le(
                dist_of(dist@, (#[trigger] es[j]).to),
                Dist::Fin(dm),
                es[j].weight,
            ) by {}
        }
    }
}

/// Single-source shortest distances from `start` by the classic
/// unvisited-set greedy-relaxation method: every known vertex starts at
/// `Inf` and `start` at zero; the unfinalized vertex of least distance is
/// finalized and its outgoing edges relaxed, until none is left.  The result
/// maps every vertex (plus `start`, even when unknown) to the least total
/// weight of any walk from `start`, `Inf` when none exists; a least weight
/// beyond `u64::MAX` is reported as `Inf`.
#[verifier::rlimit(100)]
pub fn dijkstra(g: &Graph, start: &str) -> (res: Vec<(String, Dist)>)
    requires
        g.wf(),
        closed_adj(g@.adj),
    ensures
        dist_result_ok(g@.adj, start@, res@),
{
    let ghost adj = g@.adj;
    let mut dist: Vec<(String, Dist)> = Vec::new();
    let nv = g.vertices.len();
    let mut i: usize = 0;
    while i < nv
        invariant
            g.wf(),
            adj == g@.adj,
            nv == g.vertices@.len(),
            i <= nv,
            dist@.len() == i,
            forall|j: int| 0 <= j < i ==> (#[trigger] dist@[j]).0@ == adj[j].0 && dist@[j].1 == Dist::Inf,
        decreases nv - i,
    {
        dist.push((g.vertices[i].0.clone(), Dist::Inf));
        i = i + 1;
    }
    proof {
        assert forall|id: Seq<char>| #[trigger] res_ids(dist@).contains(id) <==> has_vertex(
            adj,
            id,
        ) by {
            if res_ids(dist@).contains(id) {
                let j = choose|j: int| 0 <= j < dist@.len() && res_ids(dist@)[j] == id;
                assert(adj[j].0 == id);
            }
            if has_vertex(adj, id) {
                let j = vertex_index(adj, id);
                assert(res_ids(dist@)[j] == id);
            }
        }
        assert(distinct_seq(res_ids(dist@)));
    }
    match find_res_index(&dist, start) {
        Some(si) => {
            let ghost d0 = dist@;
            dist[si].1 = Dist::Fin(0);
            proof {
                assert(dist@ =~= d0.update(si as int, (d0[si as int].0, Dist::Fin(0))));
                assert(res_ids(dist@) =~= res_ids(d0));
            }
        },
        None => {
            let ghost d0 = dist@;
            dist.push((start.to_owned(), Dist::Fin(0)));
            proof {
                assert forall|id: Seq<char>| #[trigger] res_ids(dist@).contains(id) <==> (
                has_vertex(adj, id) || id == start@) by {
                    if res_ids(dist@).contains(id) {
                        let j = choose|j: int|
                            0 <= j < res_ids(dist@).len() && res_ids(dist@)[j] == id;
                        if j < d0.len() {
                            assert(res_ids(d0)[j] == id);
                            assert(res_ids(d0).contains(id));
                        } else {
                            assert(id == start@);
                        }
                    }
                    if has_vertex(adj, id) {
                        assert(res_ids(d0).contains(id));
                        let j = choose|j: int|
                            0 <= j < res_ids(d0).len() && res_ids(d0)[j] == id;
                        assert(res_ids(dist@)[j] == id);
                    }
                    if id == start@ {
                        assert(res_ids(dist@)[d0.len() as int] == start@);
                    }
                }
                assert(distinct_seq(res_ids(dist@))) by {
                    assert forall|a: int, b: int|
                        0 <= a < b < dist@.len() implies res_ids(dist@)[a] != res_ids(
                        dist@,
                    )[b] by {
                        if b == d0.len() {
                            if res_ids(dist@)[a] == start@ {
                                assert(res_ids(d0)[a] == start@);
                            }
                        }
                    }
                }
            }
        },
    }
    proof {
        assert(dists_ok(adj, start@, dist@)) by {
            assert forall|j: int| 0 <= j < dist@.len() && (#[trigger] dist@[j].0)@ == start@
                implies dist@[j].1 == Dist::Fin(0) by {
                assert(res_ids(dist@)[j] == start@);
            }
            assert forall|j: int| 0 <= j < dist@.len() implies realizable(
                adj,
                start@,
                #[trigger] dist@[j],
            ) by {
                if dist@[j].1 is Fin {
                    assert(dist@[j].0@ == start@);
                    let p = seq![start@];
                    let ws = Seq::<u64>::empty();
                    assert(is_wpath(adj, p, ws));
                    assert(p.first() == start@ && p.last() == dist@[j].0@ && sum_w(ws) == 0);
                }
            }
        }
    }
    let n = dist.len();
    let mut done: Vec<bool> = Vec::new();
    let mut i2: usize = 0;
    while i2 < n
        invariant
            i2 <= n,
            done@.len() == i2,
            forall|j: int| 0 <= j < i2 ==> !(#[trigger] done@[j]),
            count_true(done@) == 0,
        decreases n - i2,
    {
        let ghost dn0 = done@;
        done.push(false);
        proof {
            assert(done@.drop_last() =~= dn0);
        }
        i2 = i2 + 1;
    }
    let mut remaining: usize = n;
    while remaining > 0
        invariant
            g.wf(),
            adj == g@.adj,
            closed_adj(adj),
            dist@.len() == n,
            done@.len() == n,
            remaining == n - count_true(done@),
            0 <= count_true(done@) <= n,
            dists_ok(adj, start@, dist@),
            forall|a: int, b: int|
                0 <= a < n && 0 <= b < n && done@[a] && !done@[b] ==> dist_le(
                    (#[trigger] dist@[a]).1,
                    (#[trigger] dist@[b]).1,
                ),
            forall|a: int| 0 <= a < n && done@[a] ==> row_relaxed(adj, dist@, a),
        decreases remaining,
    {
        let ghost dist1 = dist@;
        let ghost done1 = done@;
        let mut best: usize = 0;
        let mut found = false;
        let mut s: usize = 0;
        while s < n
            invariant
                n == dist@.len(),
                n == done@.len(),
                s <= n,
                found ==> best < s && !done@[best as int],
                found ==> forall|j: int|
                    0 <= j < s && !done@[j] ==> dist_le(dist@[best as int].1, (#[trigger] dist@[j]).1),
                !found ==> forall|j: int| 0 <= j < s ==> done@[j],
            decreases n - s,
        {
            if !done[s] {
                if !found || dist_lt(dist[s].1, dist[best].1) {
                    best = s;
                    found = true;
                }
            }
            s = s + 1;
        }
        if !found {
            proof {
                lemma_count_true_all(done@);
            }
        }
        let m = best;
        proof {
            assert(found);
            lemma_count_true_update(done@, m as int);
        }
        done[m] = true;
        remaining = remaining - 1;
        proof {
            assert(done@ =~= done1.update(m as int, true));
            assert forall|a: int, b: int|
                0 <= a < n && 0 <= b < n && done@[a] && !done@[b] implies dist_le(
                (#[trigger] dist@[a]).1,
                (#[trigger] dist@[b]).1,
            ) by {
                if a == m {
                    assert(!done1[b]);
                } else {
                    assert(done1[a] && !done1[b]);
                }
            }
        }
        let mdist = dist[m].1;
        let mid = dist[m].0.clone();
        proof {
            assert(mid@ == dist@[m as int].0@);
        }
        if let Dist::Fin(dm) = mdist {
            match g.get_neighbors(mid.as_str()) {
                Some(row) => {
                    let ghost es = edges_of(adj, dist1[m as int].0@);
                    proof {
                        assert(row@.map(|q: int, e: Edge| e@) == es);
                    }
                    let rn = row.len();
                    let mut k: usize = 0;
                    while k < rn
                        invariant
                            g.wf(),
                            adj == g@.adj,
                            closed_adj(adj),
                            dist@.len() == n,
                            done@.len() == n,
                            k <= rn,
                            m < n,
                            done@ == done1.update(m as int, true),
                            dist1.len() == n,
                            done1.len() == n,
                            !done1[m as int],
                            es == edges_of(adj, dist1[m as int].0@),
                            rn == es.len(),
                            rn == row@.len(),
                            row@.map(|q: int, e: Edge| e@) == es,
                            forall|j: int| 0 <= j < n ==> (#[trigger] dist@[j]).0 == dist1[j].0,
                            dist1[m as int].1 == Dist::Fin(dm),
                            forall|j: int|
                                0 <= j < n && done@[j] ==> (#[trigger] dist@[j]).1 == dist1[j].1,
                            forall|j: int|
                                0 <= j < n ==> dist_le((#[trigger] dist@[j]).1, dist1[j].1),
                            forall|j: int|
                                0 <= j < n && !done1[j] ==> dist_le(
                                    dist1[m as int].1,
                                    (#[trigger] dist1[j]).1,
                                ),
                            forall|a: int, b: int|
                                0 <= a < n && 0 <= b < n && done1[a] && !done1[b] ==> dist_le(
                                    (#[trigger] dist1[a]).1,
                                    (#[trigger] dist1[b]).1,
                                ),
                            dists_ok(adj, start@, dist@),
                            forall|a: int, b: int|
                                0 <= a < n && 0 <= b < n && done@[a] && !done@[b] ==> dist_le(
                                    (#[trigger] dist@[a]).1,
                                    (#[trigger] dist@[b]).1,
                                ),
                            forall|a: int| 0 <= a < n && done1[a] ==> row_relaxed(adj, dist@, a),
                            forall|j: int|
                                0 <= j < k ==> dist_add_le(
                                    dist_of(dist@, (#[trigger] es[j]).to),
                                    Dist::Fin(dm),
                                    es[j].weight,
                                ),
                        decreases rn - k,
                    {
                        let t = row[k].to.clone();
                        let w = row[k].weight;
                        proof {
                            assert(row@[k as int]@ == es[k as int]);
                        }
                        relax_edge(
                            g,
                            &mut dist,
                            t.as_str(),
                            w,
                            dm,
                            m,
                            Ghost(start@),
                            Ghost(done1),
                            Ghost(dist1),
                            Ghost(es),
                            Ghost(k as int),
                        );
                        k = k + 1;
                    }
                    proof {
                        assert forall|a: int| 0 <= a < n && done@[a] implies row_relaxed(
                            adj,
                            dist@,
                            a,
                        ) by {
                            if a == m {
                                assert(dist@[m as int].0 == dist1[m as int].0);
                                assert(dist@[m as int].1 == Dist::Fin(dm));
                                assert forall|kk: int|
                                    0 <= kk < edges_of(adj, dist@[m as int].0@).len() implies
                                    dist_add_le(
                                    dist_of(
                                        dist@,
                                        (#[trigger] edges_of(adj, dist@[m as int].0@)[kk]).to,
                                    ),
                                    dist@[m as int].1,
                                    edges_of(adj, dist@[m as int].0@)[kk].weight,
                                ) by {
                                    assert(dist_add_le(
                                        dist_of(dist@, es[kk].to),
                                        Dist::Fin(dm),
                                        es[kk].weight,
                                    ));
                                }
                            } else {
                                assert(done1[a]);
                            }
                        }
                    }
                },
                None => {
                    proof {
                        assert(!has_vertex(adj, dist1[m as int].0@));
                        assert(edges_of(adj, dist1[m as int].0@) =~= Seq::<EdgeView>::empty());
                        assert forall|a: int| 0 <= a < n && done@[a] implies row_relaxed(
                            adj,
                            dist@,
                            a,
                        ) by {
                            if a == m {
                                assert(edges_of(adj, dist@[a].0@).len() == 0);
                            } else {
                                assert(done1[a]);
                            }
                        }
                    }
                },
            }
        } else {
            proof {
                assert(dist@[m as int].1 == Dist::Inf);
                assert forall|a: int| 0 <= a < n && done@[a] implies row_relaxed(
                    adj,
                    dist@,
                    a,
                ) by {
                    if a == m {
                        assert forall|kk: int|
                            0 <= kk < edges_of(adj, dist@[a].0@).len() implies dist_add_le(
                            dist_of(dist@, (#[trigger] edges_of(adj, dist@[a].0@)[kk]).to),
                            dist@[a].1,
                            edges_of(adj, dist@[a].0@)[kk].weight,
                        ) by {}
                    } else {
                        assert(done1[a]);
                    }
                }
            }
        }
        proof {
            lemma_count_true_bounds(done@);
        }
    }
    proof {
        lemma_count_true_full(done@);
        assert forall|i: int, p: Seq<Seq<char>>, ws: Seq<u64>|
            #![trigger dist@[i].1, is_wpath(adj, p, ws)]
            0 <= i < dist@.len() && is_wpath(adj, p, ws) && p.first() == start@ && p.last()
                == dist@[i].0@ && sum_w(ws) <= u64::MAX implies dist_le_int(
            dist@[i].1,
            sum_w(ws),
        ) by {
            assert forall|a: int| 0 <= a < dist@.len() implies row_relaxed(adj, dist@, a) by {
                assert(done@[a]);
            }
            lemma_fixpoint_optimal(adj, start@, dist@, p, ws);
            assert(res_ids(dist@)[i] == dist@[i].0@);
            assert(res_index(dist@, dist@[i].0@) == i) by {
                let j2 = res_index(dist@, dist@[i].0@);
                assert(0 <= j2 < dist@.len() && res_ids(dist@)[j2] == dist@[i].0@);
            }
            assert(dist_of(dist@, p.last()) == dist@[i].1);
        }
    }
    dist
}

/// The row of `id` in a distance table, if any.
fn find_res_index(res: &Vec<(String, Dist)>, id: &str) -> (r: Option<usize>)
    ensures
        match r {
            Some(i) => i < res@.len() && res@[i as int].0@ == id@,
            None => !res_ids(res@).contains(id@),
        },
{
    let n = res.len();
    let mut k: usize = 0;
    while k < n
        invariant
            n == res@.len(),
            k <= n,
            forall|j: int| 0 <= j < k ==> res@[j].0@ != id@,
        decreases n - k,
    {
        if str_eq(res[k].0.as_str(), id) {
            return Some(k);
        }
        k = k + 1;
    }
    proof {
        if res_ids(res@).contains(id@) {
            let j = choose|j: int| 0 <= j < res_ids(res@).len() && res_ids(res@)[j] == id@;
            assert(false);
        }
    }
    None
}

} // verus!
