//! The edge store and the mathematical model of connectivity.
//!
//! A node is identified solely by its name; the graph is a flat sequence of
//! undirected edges (pairs of names) kept in insertion order, duplicates and
//! self-loops included. Connectivity is modelled as the existence of a walk
//! of at least one edge between two names.

use vstd::prelude::*;

verus! {

/// The model of one undirected edge: the character sequences of its two
/// sides, in the order they were written.
pub type EdgeView = (Seq<char>, Seq<char>);

/// The edge `e` links `a` and `b` directly, in either orientation.
pub open spec fn edge_links(e: EdgeView, a: Seq<char>, b: Seq<char>) -> bool {
    (e.0 == a && e.1 == b) || (e.0 == b && e.1 == a)
}

/// The edge `e` has `v` on at least one side.
pub open spec fn edge_touches(e: EdgeView, v: Seq<char>) -> bool {
    e.0 == v || e.1 == v
}

/// Some edge of the store links `a` and `b` directly.
pub open spec fn adjacent(edges: Seq<EdgeView>, a: Seq<char>, b: Seq<char>) -> bool {
    exists|i: int| 0 <= i < edges.len() && edge_links(#[trigger] edges[i], a, b)
}

/// Some edge of the store mentions `v` on either side.
pub open spec fn touches(edges: Seq<EdgeView>, v: Seq<char>) -> bool {
    exists|i: int| 0 <= i < edges.len() && edge_touches(#[trigger] edges[i], v)
}

/// `p` is a walk through the graph: at least one step, and every consecutive
/// pair of nodes on it is linked directly by some edge. Nodes and edges may
/// repeat along a walk.
pub open spec fn is_path(edges: Seq<EdgeView>, p: Seq<Seq<char>>) -> bool {
    &&& p.len() >= 2
    &&& forall|i: int| 0 <= i < p.len() - 1 ==> adjacent(edges, #[trigger] p[i], p[i + 1])
}

/// `target` is reachable from `source` by a walk of at least one edge.
///
/// The walk must make at least one step: a node is connected to itself only
/// through a self-loop or a cycle, never trivially.
pub open spec fn connected(edges: Seq<EdgeView>, source: Seq<char>, target: Seq<char>) -> bool {
    exists|p: Seq<Seq<char>>|
        #[trigger] is_path(edges, p) && p.first() == source && p.last() == target
}

/// The names in `ss`, as character sequences.
pub open spec fn views_of(ss: Seq<String>) -> Seq<Seq<char>> {
    ss.map_values(|s: String| s@)
}

/// The nodes directly connected to `v`, one per edge that mentions `v`, in
/// edge insertion order: the other side of each such edge (so a self-loop
/// on `v` contributes `v` itself).
pub open spec fn neighbors_of(edges: Seq<EdgeView>, v: Seq<char>) -> Seq<Seq<char>>
    decreases edges.len(),
{
    if edges.len() == 0 {
        Seq::empty()
    } else {
        let rest = neighbors_of(edges.drop_last(), v);
        let e = edges.last();
        if e.0 == v {
            rest.push(e.1)
        } else if e.1 == v {
            rest.push(e.0)
        } else {
            rest
        }
    }
}

/// Every side of every edge, in edge order: two entries per edge.
pub open spec fn endpoints(edges: Seq<EdgeView>) -> Seq<Seq<char>>
    decreases edges.len(),
{
    if edges.len() == 0 {
        Seq::empty()
    } else {
        endpoints(edges.drop_last()).push(edges.last().0).push(edges.last().1)
    }
}

/// A name is a neighbor of `v` exactly when some edge links it to `v`.
pub proof fn lemma_neighbors_adjacent(edges: Seq<EdgeView>, v: Seq<char>, n: Seq<char>)
    ensures
        neighbors_of(edges, v).contains(n) <==> adjacent(edges, v, n),
    decreases edges.len(),
{
    if edges.len() == 0 {
    } else {
        let head = edges.drop_last();
        lemma_neighbors_adjacent(head, v, n);
        let e = edges.last();
        let rest = neighbors_of(head, v);
        if adjacent(head, v, n) {
            let i = choose|i: int| 0 <= i < head.len() && edge_links(#[trigger] head[i], v, n);
            assert(edge_links(edges[i], v, n));
        }
        if edge_links(e, v, n) {
            assert(neighbors_of(edges, v).last() == n);
            assert(neighbors_of(edges, v).contains(n));
        }
        if neighbors_of(edges, v).contains(n) {
            let j = choose|j: int| 0 <= j < neighbors_of(edges, v).len()
                && neighbors_of(edges, v)[j] == n;
            if edge_touches(e, v) {
                if j < rest.len() {
                    assert(rest.contains(n));
                } else {
                    assert(edge_links(e, v, n));
                    assert(edge_links(edges[edges.len() - 1], v, n));
                }
            } else {
                assert(rest.contains(n));
            }
        }
        if adjacent(edges, v, n) {
            let i = choose|i: int| 0 <= i < edges.len() && edge_links(#[trigger] edges[i], v, n);
            if i < edges.len() - 1 {
                assert(edge_links(head[i], v, n));
                assert(adjacent(head, v, n));
                assert(rest.contains(n));
                let j = choose|j: int| 0 <= j < rest.len() && rest[j] == n;
                assert(neighbors_of(edges, v)[j] == n);
                assert(neighbors_of(edges, v).contains(n));
            } else {
                assert(edge_links(e, v, n));
            }
        }
    }
}

/// Every neighbor of `v` is an endpoint of some edge.
pub proof fn lemma_adjacent_touches(edges: Seq<EdgeView>, v: Seq<char>, n: Seq<char>)
    requires
        adjacent(edges, v, n),
    ensures
        touches(edges, v),
        touches(edges, n),
{
    let i = choose|i: int| 0 <= i < edges.len() && edge_links(#[trigger] edges[i], v, n);
    assert(edge_touches(edges[i], v));
    assert(edge_touches(edges[i], n));
}

/// The endpoint list has two entries per edge and holds exactly the names
/// that some edge touches.
pub proof fn lemma_endpoints(edges: Seq<EdgeView>)
    ensures
        endpoints(edges).len() == 2 * edges.len(),
        forall|v: Seq<char>| #[trigger] endpoints(edges).contains(v) <==> touches(edges, v),
    decreases edges.len(),
{
    if edges.len() == 0 {
        assert forall|v: Seq<char>| #[trigger] endpoints(edges).contains(v) <==> touches(
            edges,
            v,
        ) by {
            if touches(edges, v) {
                let i = choose|i: int| 0 <= i < edges.len() && edge_touches(
                    #[trigger] edges[i],
                    v,
                );
            }
        }
    } else {
        let head = edges.drop_last();
        lemma_endpoints(head);
        let e = edges.last();
        let eps = endpoints(edges);
        assert forall|v: Seq<char>| #[trigger] eps.contains(v) <==> touches(edges, v) by {
            if eps.contains(v) {
                let j = choose|j: int| 0 <= j < eps.len() && eps[j] == v;
                if j < endpoints(head).len() {
                    assert(endpoints(head).contains(v));
                    assert(touches(head, v));
                    let i = choose|i: int| 0 <= i < head.len() && edge_touches(
                        #[trigger] head[i],
                        v,
                    );
                    assert(edge_touches(edges[i], v));
                } else {
                    assert(edge_touches(edges[edges.len() - 1], v));
                }
            }
            if touches(edges, v) {
                let i = choose|i: int| 0 <= i < edges.len() && edge_touches(
                    #[trigger] edges[i],
                    v,
                );
                if i < edges.len() - 1 {
                    assert(edge_touches(head[i], v));
                    assert(touches(head, v));
                    assert(endpoints(head).contains(v));
                    let j = choose|j: int| 0 <= j < endpoints(head).len() && endpoints(head)[j]
                        == v;
                    assert(eps[j] == v);
                } else {
                    if e.0 == v {
                        assert(eps[eps.len() - 2] == v);
                    } else {
                        assert(eps[eps.len() - 1] == v);
                    }
                }
            }
        }
    }
}

/// Direct adjacency is symmetric: the linking edge links in either order.
pub proof fn lemma_adjacent_sym(edges: Seq<EdgeView>, a: Seq<char>, b: Seq<char>)
    requires
        adjacent(edges, a, b),
    ensures
        adjacent(edges, b, a),
{
    let i = choose|i: int| 0 <= i < edges.len() && edge_links(#[trigger] edges[i], a, b);
    assert(edge_links(edges[i], b, a));
}

/// A direct edge is a walk of one step.
pub proof fn lemma_adjacent_connected(edges: Seq<EdgeView>, a: Seq<char>, b: Seq<char>)
    requires
        adjacent(edges, a, b),
    ensures
        connected(edges, a, b),
{
    let p = seq![a, b];
    assert forall|i: int| 0 <= i < p.len() - 1 implies adjacent(edges, #[trigger] p[i], p[i + 1]) by {
        assert(p[0] == a && p[1] == b);
    }
    assert(is_path(edges, p));
    assert(p.first() == a && p.last() == b);
}

/// A walk can be extended by one more edge at its end.
pub proof fn lemma_connected_extend(edges: Seq<EdgeView>, a: Seq<char>, b: Seq<char>, c: Seq<char>)
    requires
        connected(edges, a, b),
        adjacent(edges, b, c),
    ensures
        connected(edges, a, c),
{
    let p = choose|p: Seq<Seq<char>>|
        #[trigger] is_path(edges, p) && p.first() == a && p.last() == b;
    let q = p.push(c);
    assert forall|i: int| 0 <= i < q.len() - 1 implies adjacent(edges, #[trigger] q[i], q[i + 1]) by {
        if i < p.len() - 1 {
            assert(q[i] == p[i] && q[i + 1] == p[i + 1]);
            assert(adjacent(edges, p[i], p[i + 1]));
        } else {
            assert(q[i] == p.last() && q[i + 1] == c);
        }
    }
    assert(is_path(edges, q));
    assert(q.first() == a && q.last() == c);
}

/// The append-only store of undirected edges, in insertion order.
pub struct EdgeStore {
    edges: Vec<(String, String)>,
}

impl View for EdgeStore {
    type V = Seq<EdgeView>;

    closed spec fn view(&self) -> Seq<EdgeView> {
        self.edges@.map_values(|e: (String, String)| (e.0@, e.1@))
    }
}

impl EdgeStore {
    /// An empty store: no edges, so no two nodes are connected.
    pub fn new() -> (r: EdgeStore)
        ensures
            r@ == Seq::<EdgeView>::empty(),
    {
        let r = EdgeStore { edges: Vec::new() };
        proof {
            assert(r@ =~= Seq::<EdgeView>::empty());
        }
        r
    }

    /// Appends one edge. Nothing is validated, deduplicated or rejected:
    /// the store simply grows by this pair, after everything added before.
    pub fn add(&mut self, edge: (String, String))
        ensures
            final(self)@ == old(self)@.push((edge.0@, edge.1@)),
    {
        let ghost a = edge.0@;
        let ghost b = edge.1@;
        self.edges.push(edge);
        proof {
            assert(self@ =~= old(self)@.push((a, b)));
        }
    }

    /// The nodes directly connected to `node`, by a scan of every stored
    /// edge in insertion order: each edge with `node` on either side yields
    /// its other side (a self-loop yields `node` itself).
    pub fn neighbors(&self, node: &String) -> (r: Vec<String>)
        ensures
            views_of(r@) == neighbors_of(self@, node@),
    {
        let mut r: Vec<String> = Vec::new();
        let mut i: usize = 0;
        while i < self.edges.len()
            invariant
                i <= self.edges.len(),
                views_of(r@) == neighbors_of(self@.subrange(0, i as int), node@),
            decreases self.edges.len() - i,
        {
            let ghost prefix = self@.subrange(0, i as int);
            let e = &self.edges[i];
            if e.0 == *node {
                r.push(e.1.clone());
            } else if e.1 == *node {
                r.push(e.0.clone());
            }
            i = i + 1;
            proof {
                let longer = self@.subrange(0, i as int);
                assert(longer.drop_last() =~= prefix);
                assert(longer.last() == self@[i - 1]);
                assert(views_of(r@) =~= neighbors_of(longer, node@));
            }
        }
        proof {
            assert(self@.subrange(0, self.edges.len() as int) =~= self@);
        }
        r
    }
}

} // verus!
