//! The graph data structure: vertices keyed by string identifiers, each owning
//! an ordered adjacency list of outgoing edges.

use vstd::prelude::*;

verus! {

/// A directed arc: destination vertex identifier, a free-form relationship
/// label, and a non-negative integer weight.  Edges have no identity beyond
/// their fields; duplicates are permitted.
#[derive(Debug, Clone)]
pub struct Edge {
    pub to: String,
    pub relationship: String,
    pub weight: u64,
}

/// Mathematical image of an [`Edge`].
pub struct EdgeView {
    pub to: Seq<char>,
    pub relationship: Seq<char>,
    pub weight: u64,
}

impl View for Edge {
    type V = EdgeView;

    open spec fn view(&self) -> EdgeView {
        EdgeView { to: self.to@, relationship: self.relationship@, weight: self.weight }
    }
}

/// Mathematical image of the adjacency structure: rows of vertex identifier
/// and outgoing edges, in insertion order.
pub type AdjView = Seq<(Seq<char>, Seq<EdgeView>)>;

/// The image of one stored adjacency row.
pub open spec fn row_view(p: (String, Vec<Edge>)) -> (Seq<char>, Seq<EdgeView>) {
    (p.0@, p.1@.map(|i: int, e: Edge| e@))
}

/// Mathematical image of a [`Graph`].
pub struct GraphView {
    pub adj: AdjView,
    pub directed: bool,
}

/// A labeled multigraph: a mapping from vertex identifier to the ordered
/// sequence of its outgoing edges, together with a directedness flag.
/// Insertion order of vertices and of each adjacency list is preserved.
#[derive(Debug, Clone)]
pub struct Graph {
    pub vertices: Vec<(String, Vec<Edge>)>,
    pub directed: bool,
}

impl View for Graph {
    type V = GraphView;

    open spec fn view(&self) -> GraphView {
        GraphView {
            adj: self.vertices@.map(|i: int, p: (String, Vec<Edge>)| row_view(p)),
            directed: self.directed,
        }
    }
}

/// `id` names a vertex of the adjacency structure.
pub open spec fn has_vertex(adj: AdjView, id: Seq<char>) -> bool {
    exists|i: int| 0 <= i < adj.len() && adj[i].0 == id
}

/// The row index of vertex `id` (meaningful only when `has_vertex` holds and
/// identifiers are distinct).
pub open spec fn vertex_index(adj: AdjView, id: Seq<char>) -> int {
    choose|i: int| 0 <= i < adj.len() && adj[i].0 == id
}

/// The outgoing edges of `id`, in insertion order; empty when `id` is unknown.
pub open spec fn edges_of(adj: AdjView, id: Seq<char>) -> Seq<EdgeView> {
    if has_vertex(adj, id) {
        adj[vertex_index(adj, id)].1
    } else {
        Seq::empty()
    }
}

/// Every vertex identifier occurs in at most one row.
pub open spec fn distinct_ids(adj: AdjView) -> bool {
    forall|i: int, j: int| 0 <= i < j < adj.len() ==> adj[i].0 != adj[j].0
}

/// Every edge destination is itself a vertex.
pub open spec fn closed_adj(adj: AdjView) -> bool {
    forall|i: int, k: int|
        0 <= i < adj.len() && 0 <= k < adj[i].1.len() ==> has_vertex(adj, #[trigger] adj[i].1[k].to)
}

/// Relies on `str::chars`: iterating a string slice yields exactly its
/// character sequence, in order.
#[verifier::external_body]
pub(crate) fn string_to_chars(s: &str) -> (r: Vec<char>)
    ensures
        r@ == s@,
{
    s.chars().collect()
}

/// Whether two character vectors hold the same sequence.
pub(crate) fn chars_equal(a: &Vec<char>, b: &Vec<char>) -> (r: bool)
    ensures
        r == (a@ == b@),
{
    let n = a.len();
    if n != b.len() {
        proof {
            assert(a@ != b@);
        }
        return false;
    }
    let mut k: usize = 0;
    while k < n
        invariant
            n == a@.len(),
            n == b@.len(),
            k <= n,
            forall|j: int| 0 <= j < k ==> a@[j] == b@[j],
        decreases n - k,
    {
        if a[k] != b[k] {
            proof {
                assert(a@[k as int] != b@[k as int]);
            }
            return false;
        }
        k = k + 1;
    }
    proof {
        assert(a@ =~= b@);
    }
    true
}

/// Two string slices are equal exactly when their character sequences are.
pub(crate) fn str_eq(a: &str, b: &str) -> (r: bool)
    ensures
        r == (a@ == b@),
{
    let va = string_to_chars(a);
    let vb = string_to_chars(b);
    chars_equal(&va, &vb)
}

impl Graph {
    /// Well-formedness: vertex identifiers are unique keys.
    pub open spec fn wf(self) -> bool {
        distinct_ids(self@.adj)
    }

    /// Creates an empty graph with the given directedness.
    pub fn new(directed: bool) -> (g: Graph)
        ensures
            g.wf(),
            g@.adj == Seq::<(Seq<char>, Seq<EdgeView>)>::empty(),
            g@.directed == directed,
    {
        let g = Graph { vertices: Vec::new(), directed };
        proof {
            assert(g@.adj =~= Seq::<(Seq<char>, Seq<EdgeView>)>::empty());
        }
        g
    }

    /// The directedness flag the graph was created with.
    pub fn is_directed(&self) -> (r: bool)
        ensures
            r == self@.directed,
    {
        self.directed
    }

    /// The number of vertices.
    pub fn vertex_count(&self) -> (n: usize)
        ensures
            n == self@.adj.len(),
    {
        self.vertices.len()
    }

    /// The identifier of the vertex stored at row `i`, in insertion order.
    pub fn vertex_id_at(&self, i: usize) -> (id: &String)
        requires
            i < self@.adj.len(),
        ensures
            id@ == self@.adj[i as int].0,
    {
        &self.vertices[i].0
    }

    /// The row index holding vertex `id`, if any.
    fn find_index(&self, id: &str) -> (r: Option<usize>)
        ensures
            match r {
                Some(i) => i < self@.adj.len() && self@.adj[i as int].0 == id@,
                None => !has_vertex(self@.adj, id@),
            },
    {
        let n = self.vertices.len();
        let mut k: usize = 0;
        while k < n
            invariant
                n == self.vertices.len(),
                k <= n,
                forall|j: int| 0 <= j < k ==> self@.adj[j].0 != id@,
            decreases n - k,
        {
            if str_eq(self.vertices[k].0.as_str(), id) {
                return Some(k);
            }
            k = k + 1;
        }
        None
    }

    /// Inserts `vertex` with an empty adjacency list if it is not already
    /// present; a second call with the same identifier changes nothing.
    pub fn add_vertex(&mut self, vertex: &str)
        requires
            old(self).wf(),
        ensures
            final(self).wf(),
            final(self)@.directed == old(self)@.directed,
            final(self)@.adj == ensure_vertex_adj(old(self)@.adj, vertex@),
    {
        let ghost adj0 = self@.adj;
        match self.find_index(vertex) {
            Some(_) => {
                proof {
                    assert(self@.adj =~= ensure_vertex_adj(adj0, vertex@));
                }
            },
            None => {
                self.vertices.push((vertex.to_owned(), Vec::new()));
                proof {
                    assert(row_view(self.vertices@.last()).1 =~= Seq::<EdgeView>::empty());
                    assert(self@.adj =~= adj0.push((vertex@, Seq::<EdgeView>::empty())));
                    assert(self@.adj =~= ensure_vertex_adj(adj0, vertex@));
                }
            },
        }
    }
}

/// The adjacency structure after making sure `id` exists as a vertex:
/// unchanged when present, extended by an empty row otherwise.
pub open spec fn ensure_vertex_adj(adj: AdjView, id: Seq<char>) -> AdjView {
    if has_vertex(adj, id) {
        adj
    } else {
        adj.push((id, Seq::<EdgeView>::empty()))
    }
}

/// The adjacency structure after appending edge `e` to the list of `from`
/// (creating the row if `from` is unknown).
pub open spec fn push_edge_adj(adj: AdjView, from: Seq<char>, e: EdgeView) -> AdjView {
    if has_vertex(adj, from) {
        let i = vertex_index(adj, from);
        adj.update(i, (adj[i].0, adj[i].1.push(e)))
    } else {
        adj.push((from, seq![e]))
    }
}

/// The adjacency structure after a whole `add_edge` call: the edge is appended
/// to `from`'s list; when the graph is undirected its mirror image is appended
/// to `to`'s list; finally `to` is made to exist as a vertex.
pub open spec fn add_edge_adj(
    adj: AdjView,
    directed: bool,
    from: Seq<char>,
    to: Seq<char>,
    rel: Seq<char>,
    w: u64,
) -> AdjView {
    let a1 = push_edge_adj(adj, from, EdgeView { to: to, relationship: rel, weight: w });
    let a2 = if directed {
        a1
    } else {
        push_edge_adj(a1, to, EdgeView { to: from, relationship: rel, weight: w })
    };
    ensure_vertex_adj(a2, to)
}

/// How appending an edge changes the structure: `from`'s list gains `e` at the
/// end, every other vertex keeps its list, and the vertex set gains `from`.
pub proof fn lemma_push_edge_adj(adj: AdjView, from: Seq<char>, e: EdgeView)
    requires
        distinct_ids(adj),
    ensures
        distinct_ids(push_edge_adj(adj, from, e)),
        has_vertex(push_edge_adj(adj, from, e), from),
        edges_of(push_edge_adj(adj, from, e), from) == edges_of(adj, from).push(e),
        forall|id: Seq<char>|
            #[trigger] has_vertex(push_edge_adj(adj, from, e), id) == (has_vertex(adj, id) || id
                == from),
        forall|id: Seq<char>|
            id != from ==> #[trigger] edges_of(push_edge_adj(adj, from, e), id) == edges_of(
                adj,
                id,
            ),
{
    let a = push_edge_adj(adj, from, e);
    if has_vertex(adj, from) {
        let i = vertex_index(adj, from);
        assert(0 <= i < adj.len() && adj[i].0 == from);
        assert forall|id: Seq<char>| #[trigger] has_vertex(a, id) == (has_vertex(adj, id) || id
            == from) by {
            if has_vertex(a, id) {
                let j = choose|j: int| 0 <= j < a.len() && a[j].0 == id;
                assert(adj[j].0 == id);
            }
            if has_vertex(adj, id) {
                let j = choose|j: int| 0 <= j < adj.len() && adj[j].0 == id;
                assert(a[j].0 == id);
            }
        }
        assert(a[i].0 == from);
        assert(vertex_index(a, from) == i) by {
            let j = vertex_index(a, from);
            assert(0 <= j < a.len() && a[j].0 == from);
            assert(adj[j].0 == from);
        }
        assert(edges_of(a, from) == edges_of(adj, from).push(e));
        assert forall|id: Seq<char>| id != from implies #[trigger] edges_of(a, id) == edges_of(
            adj,
            id,
        ) by {
            if has_vertex(adj, id) {
                let j = vertex_index(adj, id);
                assert(0 <= j < adj.len() && adj[j].0 == id);
                assert(j != i);
                assert(a[j].0 == id);
                assert(vertex_index(a, id) == j) by {
                    let j2 = vertex_index(a, id);
                    assert(0 <= j2 < a.len() && a[j2].0 == id);
                    assert(j2 != i);
                    assert(adj[j2].0 == id);
                }
            }
        }
    } else {
        assert(a.last().0 == from);
        assert forall|id: Seq<char>| #[trigger] has_vertex(a, id) == (has_vertex(adj, id) || id
            == from) by {
            if has_vertex(a, id) && id != from {
                let j = choose|j: int| 0 <= j < a.len() && a[j].0 == id;
                assert(j < adj.len());
                assert(adj[j].0 == id);
            }
            if has_vertex(adj, id) {
                let j = choose|j: int| 0 <= j < adj.len() && adj[j].0 == id;
                assert(a[j].0 == id);
            }
        }
        let i = a.len() - 1;
        assert(vertex_index(a, from) == i) by {
            let j = vertex_index(a, from);
            assert(0 <= j < a.len() && a[j].0 == from);
            if j < i {
                assert(adj[j].0 == from);
            }
        }
        assert(edges_of(a, from) =~= edges_of(adj, from).push(e));
        assert forall|id: Seq<char>| id != from implies #[trigger] edges_of(a, id) == edges_of(
            adj,
            id,
        ) by {
            if has_vertex(adj, id) {
                let j = vertex_index(adj, id);
                assert(a[j].0 == id);
                assert(vertex_index(a, id) == j) by {
                    let j2 = vertex_index(a, id);
                    assert(0 <= j2 < a.len() && a[j2].0 == id);
                    if j2 == i {
                        assert(a[j2].0 == from);
                    } else {
                        assert(adj[j2].0 == id);
                    }
                }
            }
        }
    }
}

/// How making a vertex exist changes the structure: nothing when it is
/// already there, a new empty row otherwise; no edge list changes.
pub proof fn lemma_ensure_vertex_adj(adj: AdjView, id0: Seq<char>)
    requires
        distinct_ids(adj),
    ensures
        distinct_ids(ensure_vertex_adj(adj, id0)),
        has_vertex(ensure_vertex_adj(adj, id0), id0),
        edges_of(ensure_vertex_adj(adj, id0), id0) == edges_of(adj, id0),
        forall|id: Seq<char>|
            #[trigger] has_vertex(ensure_vertex_adj(adj, id0), id) == (has_vertex(adj, id) || id
                == id0),
        forall|id: Seq<char>|
            #[trigger] edges_of(ensure_vertex_adj(adj, id0), id) == edges_of(adj, id),
{
    let a = ensure_vertex_adj(adj, id0);
    if has_vertex(adj, id0) {
        assert(a == adj);
    } else {
        let i = a.len() - 1;
        assert(a.last().0 == id0);
        assert forall|id: Seq<char>| #[trigger] has_vertex(a, id) == (has_vertex(adj, id) || id
            == id0) by {
            if has_vertex(a, id) && id != id0 {
                let j = choose|j: int| 0 <= j < a.len() && a[j].0 == id;
                assert(j < adj.len());
                assert(adj[j].0 == id);
            }
            if has_vertex(adj, id) {
                let j = choose|j: int| 0 <= j < adj.len() && adj[j].0 == id;
                assert(a[j].0 == id);
            }
        }
        assert(vertex_index(a, id0) == i) by {
            let j = vertex_index(a, id0);
            assert(0 <= j < a.len() && a[j].0 == id0);
            if j < i {
                assert(adj[j].0 == id0);
            }
        }
        assert(edges_of(a, id0) =~= Seq::<EdgeView>::empty());
        assert(edges_of(adj, id0) =~= Seq::<EdgeView>::empty());
        assert forall|id: Seq<char>| #[trigger] edges_of(a, id) == edges_of(adj, id) by {
            if id != id0 && has_vertex(adj, id) {
                let j = vertex_index(adj, id);
                assert(a[j].0 == id);
                assert(vertex_index(a, id) == j) by {
                    let j2 = vertex_index(a, id);
                    assert(0 <= j2 < a.len() && a[j2].0 == id);
                    if j2 == i {
                        assert(a[j2].0 == id0);
                    } else {
                        assert(adj[j2].0 == id);
                    }
                }
            }
        }
    }
}

/// What one `add_edge` call does to the adjacency lists: the new edge is
/// appended at the end of `from`'s list (after the mirror image, in the one
/// case of an undirected self-loop), the mirror image is appended to `to`'s
/// list exactly on an undirected graph, and every other list is unchanged.
pub proof fn lemma_add_edge_appends(
    adj: AdjView,
    directed: bool,
    from: Seq<char>,
    to: Seq<char>,
    rel: Seq<char>,
    w: u64,
)
    requires
        distinct_ids(adj),
    ensures
        ({
            let a = add_edge_adj(adj, directed, from, to, rel, w);
            let e = EdgeView { to: to, relationship: rel, weight: w };
            let mirror = EdgeView { to: from, relationship: rel, weight: w };
            &&& (directed ==> edges_of(a, from) == edges_of(adj, from).push(e))
            &&& (directed ==> forall|id: Seq<char>|
                id != from ==> #[trigger] edges_of(a, id) == edges_of(adj, id))
            &&& (!directed && from != to ==> edges_of(a, from) == edges_of(adj, from).push(e)
                && edges_of(a, to) == edges_of(adj, to).push(mirror))
            &&& (!directed && from == to ==> edges_of(a, from) == edges_of(adj, from).push(e).push(
                mirror,
            ))
            &&& (!directed ==> forall|id: Seq<char>|
                id != from && id != to ==> #[trigger] edges_of(a, id) == edges_of(adj, id))
        }),
{
    let e = EdgeView { to: to, relationship: rel, weight: w };
    let mirror = EdgeView { to: from, relationship: rel, weight: w };
    let a1 = push_edge_adj(adj, from, e);
    lemma_push_edge_adj(adj, from, e);
    if directed {
        lemma_ensure_vertex_adj(a1, to);
    } else {
        let a2 = push_edge_adj(a1, to, mirror);
        lemma_push_edge_adj(a1, to, mirror);
        lemma_ensure_vertex_adj(a2, to);
    }
}

/// What one `add_edge` call does to the vertex set: `from` and `to` now
/// exist, and nothing else is added or removed.  Together with the lists
/// above this is the invariant that the vertex set stays exactly the set of
/// all mentioned identifiers.
pub proof fn lemma_add_edge_vertices(
    adj: AdjView,
    directed: bool,
    from: Seq<char>,
    to: Seq<char>,
    rel: Seq<char>,
    w: u64,
)
    requires
        distinct_ids(adj),
    ensures
        forall|id: Seq<char>|
            #[trigger] has_vertex(add_edge_adj(adj, directed, from, to, rel, w), id) == (
            has_vertex(adj, id) || id == from || id == to),
{
    let e = EdgeView { to: to, relationship: rel, weight: w };
    let mirror = EdgeView { to: from, relationship: rel, weight: w };
    let a1 = push_edge_adj(adj, from, e);
    lemma_push_edge_adj(adj, from, e);
    if directed {
        lemma_ensure_vertex_adj(a1, to);
    } else {
        let a2 = push_edge_adj(a1, to, mirror);
        lemma_push_edge_adj(a1, to, mirror);
        lemma_ensure_vertex_adj(a2, to);
    }
}

/// The load-bearing invariant of the structure: a graph whose every edge
/// destination exists keeps that property through `add_vertex` and
/// `add_edge` (which inserts missing endpoints itself).
pub proof fn lemma_add_edge_preserves_closed(
    adj: AdjView,
    directed: bool,
    from: Seq<char>,
    to: Seq<char>,
    rel: Seq<char>,
    w: u64,
)
    requires
        distinct_ids(adj),
        closed_adj(adj),
    ensures
        closed_adj(add_edge_adj(adj, directed, from, to, rel, w)),
        closed_adj(ensure_vertex_adj(adj, from)),
{
    let a = add_edge_adj(adj, directed, from, to, rel, w);
    lemma_add_edge_appends(adj, directed, from, to, rel, w);
    lemma_add_edge_vertices(adj, directed, from, to, rel, w);
    assert forall|i: int, k: int|
        0 <= i < a.len() && 0 <= k < a[i].1.len() implies has_vertex(a, #[trigger] a[i].1[k].to) by {
        let id = a[i].0;
        assert(a[i].1 == edges_of(a, id)) by {
            assert(has_vertex(a, id)) by {
                assert(a[i].0 == id);
            }
            let j = vertex_index(a, id);
            assert(0 <= j < a.len() && a[j].0 == id);
            assert(distinct_ids(a)) by {
                let e = EdgeView { to: to, relationship: rel, weight: w };
                let mirror = EdgeView { to: from, relationship: rel, weight: w };
                let a1 = push_edge_adj(adj, from, e);
                lemma_push_edge_adj(adj, from, e);
                if directed {
                    lemma_ensure_vertex_adj(a1, to);
                } else {
                    let a2 = push_edge_adj(a1, to, mirror);
                    lemma_push_edge_adj(a1, to, mirror);
                    lemma_ensure_vertex_adj(a2, to);
                }
            }
            assert(j == i);
        }
        let t = a[i].1[k].to;
        if id == from || (!directed && id == to) {
            // the list is the old one plus the new edge (and mirror): each
            // old destination existed before, the new ones are from and to
            if edges_of(adj, id).len() > k {
                assert(edges_of(adj, id)[k].to == t);
                assert(has_vertex(adj, id) && edges_of(adj, id) == adj[vertex_index(adj, id)].1
                    || !has_vertex(adj, id)) by {}
                if has_vertex(adj, id) {
                    let vi = vertex_index(adj, id);
                    assert(adj[vi].1[k].to == t);
                    assert(has_vertex(adj, t));
                }
                assert(has_vertex(a, t));
            } else {
                assert(t == from || t == to);
                assert(has_vertex(a, t));
            }
        } else {
            assert(edges_of(a, id) == edges_of(adj, id));
            assert(edges_of(adj, id)[k].to == t);
            let vi = vertex_index(adj, id);
            assert(adj[vi].1[k].to == t);
            assert(has_vertex(adj, t));
            assert(has_vertex(a, t));
        }
    }
    if !has_vertex(adj, from) {
        let av = ensure_vertex_adj(adj, from);
        lemma_ensure_vertex_adj(adj, from);
        assert forall|i: int, k: int|
            0 <= i < av.len() && 0 <= k < av[i].1.len() implies has_vertex(
            av,
            #[trigger] av[i].1[k].to,
        ) by {
            if i < adj.len() {
                assert(av[i] == adj[i]);
                assert(has_vertex(adj, adj[i].1[k].to));
            } else {
                assert(av[i].1.len() == 0);
            }
        }
    }
}

/// Adding an edge to an undirected graph mirrors it: afterwards `to`'s list
/// ends with an edge back to `from` carrying the same relationship and weight.
pub proof fn lemma_undirected_mirror(
    adj: AdjView,
    from: Seq<char>,
    to: Seq<char>,
    rel: Seq<char>,
    w: u64,
)
    requires
        distinct_ids(adj),
    ensures
        ({
            let a = add_edge_adj(adj, false, from, to, rel, w);
            let mirror = EdgeView { to: from, relationship: rel, weight: w };
            &&& has_vertex(a, to)
            &&& edges_of(a, to).len() > 0
            &&& edges_of(a, to).last() == mirror
            &&& edges_of(a, to).contains(mirror)
        }),
{
    let e = EdgeView { to: to, relationship: rel, weight: w };
    let mirror = EdgeView { to: from, relationship: rel, weight: w };
    let a1 = push_edge_adj(adj, from, e);
    let a2 = push_edge_adj(a1, to, mirror);
    lemma_push_edge_adj(adj, from, e);
    lemma_push_edge_adj(a1, to, mirror);
    lemma_ensure_vertex_adj(a2, to);
    let a = add_edge_adj(adj, false, from, to, rel, w);
    assert(edges_of(a, to) == edges_of(a1, to).push(mirror));
    assert(edges_of(a, to).last() == mirror);
}

impl Graph {
    /// Appends `e` to `from`'s adjacency list, creating the row when absent.
    fn push_edge(&mut self, from: &str, e: Edge)
        requires
            old(self).wf(),
        ensures
            final(self).wf(),
            final(self)@.directed == old(self)@.directed,
            final(self)@.adj == push_edge_adj(old(self)@.adj, from@, e@),
    {
        let ghost adj0 = self@.adj;
        let ghost ev = e@;
        proof {
            lemma_push_edge_adj(adj0, from@, ev);
        }
        match self.find_index(from) {
            Some(i) => {
                proof {
                    assert(vertex_index(adj0, from@) == i) by {
                        let j = vertex_index(adj0, from@);
                        assert(0 <= j < adj0.len() && adj0[j].0 == from@);
                    }
                }
                self.vertices[i].1.push(e);
                proof {
                    let i = i as int;
                    assert(self@.adj[i].1 =~= adj0[i].1.push(ev));
                    assert(self@.adj =~= adj0.update(i, (adj0[i].0, adj0[i].1.push(ev))));
                }
            },
            None => {
                let mut es: Vec<Edge> = Vec::new();
                es.push(e);
                self.vertices.push((from.to_owned(), es));
                proof {
                    assert(row_view(self.vertices@.last()).1 =~= seq![ev]);
                    assert(self@.adj =~= adj0.push((from@, seq![ev])));
                }
            },
        }
    }

    /// Appends `Edge { to, relationship, weight }` to `from`'s list (creating
    /// `from` if absent); on an undirected graph also appends the mirrored
    /// edge to `to`'s list; finally makes sure `to` exists as a vertex.
    pub fn add_edge(&mut self, from: &str, to: &str, relationship: &str, weight: u64)
        requires
            old(self).wf(),
        ensures
            final(self).wf(),
            final(self)@.directed == old(self)@.directed,
            final(self)@.adj == add_edge_adj(
                old(self)@.adj,
                old(self)@.directed,
                from@,
                to@,
                relationship@,
                weight,
            ),
    {
        let e = Edge { to: to.to_owned(), relationship: relationship.to_owned(), weight };
        self.push_edge(from, e);
        if !self.directed {
            let m = Edge { to: from.to_owned(), relationship: relationship.to_owned(), weight };
            self.push_edge(to, m);
        }
        self.add_vertex(to);
    }

    /// The outgoing edges of `vertex`, in insertion order, or `None` when the
    /// vertex is unknown.
    pub fn get_neighbors<'a>(&'a self, vertex: &str) -> (r: Option<&'a Vec<Edge>>)
        requires
            self.wf(),
        ensures
            match r {
                Some(es) => has_vertex(self@.adj, vertex@) && es@.map(|i: int, e: Edge| e@)
                    == edges_of(self@.adj, vertex@),
                None => !has_vertex(self@.adj, vertex@),
            },
    {
        match self.find_index(vertex) {
            Some(i) => {
                proof {
                    assert(vertex_index(self@.adj, vertex@) == i) by {
                        let j = vertex_index(self@.adj, vertex@);
                        assert(0 <= j < self@.adj.len() && self@.adj[j].0 == vertex@);
                    }
                }
                Some(&self.vertices[i].1)
            },
            None => None,
        }
    }
}

/// The destinations of those edges in `es` whose relationship equals `rel`,
/// in order.
pub open spec fn rel_targets(es: Seq<EdgeView>, rel: Seq<char>) -> Seq<Seq<char>>
    decreases es.len(),
{
    if es.len() == 0 {
        Seq::empty()
    } else {
        let rest = rel_targets(es.drop_last(), rel);
        if es.last().relationship == rel {
            rest.push(es.last().to)
        } else {
            rest
        }
    }
}

impl Graph {
    /// The destinations of `vertex`'s outgoing edges whose relationship
    /// equals `relationship` exactly, in insertion order; empty (not absent)
    /// when the vertex is unknown or nothing matches.
    pub fn get_neighbors_by_relationship(&self, vertex: &str, relationship: &str) -> (r: Vec<
        String,
    >)
        requires
            self.wf(),
        ensures
            r@.map(|i: int, s: String| s@) == rel_targets(
                edges_of(self@.adj, vertex@),
                relationship@,
            ),
    {
        let ghost es = edges_of(self@.adj, vertex@);
        let mut r: Vec<String> = Vec::new();
        match self.find_index(vertex) {
            Some(i) => {
                proof {
                    assert(vertex_index(self@.adj, vertex@) == i) by {
                        let j = vertex_index(self@.adj, vertex@);
                        assert(0 <= j < self@.adj.len() && self@.adj[j].0 == vertex@);
                    }
                }
                let row = &self.vertices[i].1;
                let n = row.len();
                let mut k: usize = 0;
                while k < n
                    invariant
                        n == row.len(),
                        k <= n,
                        es == row@.map(|i: int, e: Edge| e@),
                        r@.map(|i: int, s: String| s@) == rel_targets(
                            es.subrange(0, k as int),
                            relationship@,
                        ),
                    decreases n - k,
                {
                    let ghost pre = es.subrange(0, k as int);
                    let ghost cur = es.subrange(0, k as int + 1);
                    let ghost rmap0 = r@.map(|i: int, s: String| s@);
                    proof {
                        assert(cur.drop_last() =~= pre);
                        assert(cur.last() == es[k as int]);
                    }
                    if str_eq(row[k].relationship.as_str(), relationship) {
                        r.push(row[k].to.clone());
                        proof {
                            assert(r@.map(|i: int, s: String| s@) =~= rmap0.push(
                                es[k as int].to,
                            ));
                        }
                    }
                    k = k + 1;
                }
                proof {
                    assert(es.subrange(0, n as int) =~= es);
                }
            },
            None => {
                proof {
                    assert(es =~= Seq::<EdgeView>::empty());
                    assert(r@.map(|i: int, s: String| s@) =~= Seq::<Seq<char>>::empty());
                }
            },
        }
        r
    }
}

} // verus!
