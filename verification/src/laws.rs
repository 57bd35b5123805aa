//! The general laws of the connectivity relation, stated over the
//! mathematical model and proved once for every edge list.

use vstd::prelude::*;

use crate::graph::adjacent;
use crate::graph::connected;
use crate::graph::edge_links;
use crate::graph::edge_touches;
use crate::graph::is_path;
use crate::graph::lemma_adjacent_connected;
use crate::graph::lemma_adjacent_sym;
use crate::graph::lemma_adjacent_touches;
use crate::graph::lemma_connected_extend;
use crate::graph::touches;
use crate::graph::EdgeView;

verus! {

/// Every walk can be walked backwards, because each edge links its two
/// sides in either order.
proof fn lemma_path_reverse(edges: Seq<EdgeView>, p: Seq<Seq<char>>)
    requires
        is_path(edges, p),
    ensures
        connected(edges, p.last(), p.first()),
    decreases p.len(),
{
    assert(adjacent(edges, p[0], p[1]));
    lemma_adjacent_sym(edges, p[0], p[1]);
    if p.len() == 2 {
        lemma_adjacent_connected(edges, p[1], p[0]);
    } else {
        let q = p.drop_first();
        assert forall|i: int| 0 <= i < q.len() - 1 implies adjacent(
            edges,
            #[trigger] q[i],
            q[i + 1],
        ) by {
            assert(q[i] == p[i + 1] && q[i + 1] == p[i + 2]);
            assert(adjacent(edges, p[i + 1], p[i + 2]));
        }
        assert(is_path(edges, q));
        lemma_path_reverse(edges, q);
        assert(q.last() == p.last() && q.first() == p[1]);
        lemma_connected_extend(edges, p.last(), p[1], p[0]);
    }
}

/// Symmetry: since every edge is undirected, `a` reaches `b` exactly when
/// `b` reaches `a` — the two queries always agree.
pub proof fn lemma_connected_symmetric(edges: Seq<EdgeView>, a: Seq<char>, b: Seq<char>)
    ensures
        connected(edges, a, b) <==> connected(edges, b, a),
{
    if connected(edges, a, b) {
        let p = choose|p: Seq<Seq<char>>|
            #[trigger] is_path(edges, p) && p.first() == a && p.last() == b;
        lemma_path_reverse(edges, p);
    }
    if connected(edges, b, a) {
        let p = choose|p: Seq<Seq<char>>|
            #[trigger] is_path(edges, p) && p.first() == b && p.last() == a;
        lemma_path_reverse(edges, p);
    }
}

/// A walk starting anywhere that `a` already reaches extends `a`'s reach to
/// the walk's end.
proof fn lemma_connected_append(edges: Seq<EdgeView>, a: Seq<char>, q: Seq<Seq<char>>)
    requires
        connected(edges, a, q.first()),
        is_path(edges, q),
    ensures
        connected(edges, a, q.last()),
    decreases q.len(),
{
    assert(adjacent(edges, q[0], q[1]));
    lemma_connected_extend(edges, a, q[0], q[1]);
    if q.len() == 2 {
    } else {
        let r = q.drop_first();
        assert forall|i: int| 0 <= i < r.len() - 1 implies adjacent(
            edges,
            #[trigger] r[i],
            r[i + 1],
        ) by {
            assert(r[i] == q[i + 1] && r[i + 1] == q[i + 2]);
            assert(adjacent(edges, q[i + 1], q[i + 2]));
        }
        assert(is_path(edges, r));
        assert(r.first() == q[1]);
        lemma_connected_append(edges, a, r);
        assert(r.last() == q.last());
    }
}

/// Transitivity via a path: one edge linking `a` to `b` and one linking `b`
/// to `c` already make `c` reachable from `a`.
pub proof fn lemma_two_edge_reach(edges: Seq<EdgeView>, a: Seq<char>, b: Seq<char>, c: Seq<char>)
    requires
        adjacent(edges, a, b),
        adjacent(edges, b, c),
    ensures
        connected(edges, a, c),
{
    lemma_adjacent_connected(edges, a, b);
    lemma_connected_extend(edges, a, b, c);
}

/// Transitivity in general: reachability composes along shared nodes.
pub proof fn lemma_connected_transitive(
    edges: Seq<EdgeView>,
    a: Seq<char>,
    b: Seq<char>,
    c: Seq<char>,
)
    requires
        connected(edges, a, b),
        connected(edges, b, c),
    ensures
        connected(edges, a, c),
{
    let q = choose|q: Seq<Seq<char>>|
        #[trigger] is_path(edges, q) && q.first() == b && q.last() == c;
    lemma_connected_append(edges, a, q);
}

/// Every walk stays on one side of a cut that no edge crosses.
proof fn lemma_walk_stays_in_side(edges: Seq<EdgeView>, side: Set<Seq<char>>, p: Seq<Seq<char>>)
    requires
        forall|i: int|
            0 <= i < edges.len() ==> (side.contains(#[trigger] edges[i].0) <==> side.contains(
                edges[i].1,
            )),
        is_path(edges, p),
        side.contains(p.first()),
    ensures
        side.contains(p.last()),
    decreases p.len(),
{
    assert(adjacent(edges, p[0], p[1]));
    let i = choose|i: int| 0 <= i < edges.len() && edge_links(#[trigger] edges[i], p[0], p[1]);
    assert(side.contains(p[1]));
    if p.len() == 2 {
    } else {
        let q = p.drop_first();
        assert forall|k: int| 0 <= k < q.len() - 1 implies adjacent(
            edges,
            #[trigger] q[k],
            q[k + 1],
        ) by {
            assert(q[k] == p[k + 1] && q[k + 1] == p[k + 2]);
            assert(adjacent(edges, p[k + 1], p[k + 2]));
        }
        assert(is_path(edges, q));
        assert(q.first() == p[1]);
        lemma_walk_stays_in_side(edges, side, q);
        assert(q.last() == p.last());
    }
}

/// No false positive across disconnected components: when every edge keeps
/// both sides within one group of a two-way split of the names, no query
/// from inside the group to outside it can come back reachable.
pub proof fn lemma_components_separate(
    edges: Seq<EdgeView>,
    side: Set<Seq<char>>,
    a: Seq<char>,
    b: Seq<char>,
)
    requires
        forall|i: int|
            0 <= i < edges.len() ==> (side.contains(#[trigger] edges[i].0) <==> side.contains(
                edges[i].1,
            )),
        side.contains(a),
        !side.contains(b),
    ensures
        !connected(edges, a, b),
{
    if connected(edges, a, b) {
        let p = choose|p: Seq<Seq<char>>|
            #[trigger] is_path(edges, p) && p.first() == a && p.last() == b;
        lemma_walk_stays_in_side(edges, side, p);
    }
}

/// The self-query policy: a node reaches itself exactly when some edge
/// touches it. A self-loop suffices, but so does any edge at all on the
/// node, since an undirected edge can be walked out and straight back; a
/// node no edge mentions never reaches itself.
pub proof fn lemma_self_query(edges: Seq<EdgeView>, a: Seq<char>)
    ensures
        connected(edges, a, a) <==> touches(edges, a),
{
    if touches(edges, a) {
        let i = choose|i: int| 0 <= i < edges.len() && edge_touches(#[trigger] edges[i], a);
        let e = edges[i];
        let other = if e.0 == a {
            e.1
        } else {
            e.0
        };
        assert(edge_links(edges[i], a, other));
        assert(adjacent(edges, a, other));
        lemma_adjacent_connected(edges, a, other);
        lemma_adjacent_sym(edges, a, other);
        lemma_connected_extend(edges, a, other, a);
    }
    if connected(edges, a, a) {
        let p = choose|p: Seq<Seq<char>>|
            #[trigger] is_path(edges, p) && p.first() == a && p.last() == a;
        assert(adjacent(edges, p[0], p[1]));
        lemma_adjacent_touches(edges, p[0], p[1]);
    }
}

/// A query on a node that no edge mentions is never reachable, in either
/// direction and whatever the other node is.
pub proof fn lemma_unknown_not_connected(edges: Seq<EdgeView>, a: Seq<char>, b: Seq<char>)
    requires
        !touches(edges, a),
    ensures
        !connected(edges, a, b),
        !connected(edges, b, a),
{
    if connected(edges, a, b) {
        let p = choose|p: Seq<Seq<char>>|
            #[trigger] is_path(edges, p) && p.first() == a && p.last() == b;
        assert(adjacent(edges, p[0], p[1]));
        lemma_adjacent_touches(edges, p[0], p[1]);
    }
    if connected(edges, b, a) {
        let p = choose|p: Seq<Seq<char>>|
            #[trigger] is_path(edges, p) && p.first() == b && p.last() == a;
        let k = p.len() - 2;
        assert(adjacent(edges, p[k], p[k + 1]));
        lemma_adjacent_touches(edges, p[k], p[k + 1]);
        assert(p[k + 1] == p.last());
    }
}

} // verus!
