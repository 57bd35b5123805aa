//! The reachability engine: a depth-first search over the edge store with a
//! per-query visited set, proved to return exactly the modelled
//! connectivity relation and to terminate on every graph, cycles included.

use vstd::prelude::*;

use crate::graph::adjacent;
use crate::graph::connected;
use crate::graph::endpoints;
use crate::graph::is_path;
use crate::graph::lemma_adjacent_connected;
use crate::graph::lemma_adjacent_touches;
use crate::graph::lemma_connected_extend;
use crate::graph::lemma_endpoints;
use crate::graph::lemma_neighbors_adjacent;
use crate::graph::neighbors_of;
use crate::graph::touches;
use crate::graph::views_of;
use crate::graph::EdgeStore;
use crate::graph::EdgeView;

verus! {

/// Whether some entry of `list` has the same characters as `x`.
fn contains_name(list: &Vec<String>, x: &String) -> (r: bool)
    ensures
        r == views_of(list@).contains(x@),
{
    let mut i: usize = 0;
    while i < list.len()
        invariant
            i <= list.len(),
            forall|k: int| 0 <= k < i ==> views_of(list@)[k] != x@,
        decreases list.len() - i,
    {
        if list[i] == *x {
            proof {
                assert(views_of(list@)[i as int] == x@);
            }
            return true;
        }
        i = i + 1;
    }
    proof {
        if views_of(list@).contains(x@) {
            let k = choose|k: int|
                0 <= k < views_of(list@).len() && views_of(list@)[k] == x@;
            assert(false);
        }
    }
    false
}

/// A sequence of pairwise distinct names that all occur in some edge cannot
/// be longer than the endpoint list, which has two entries per edge.
proof fn lemma_visited_within_endpoints(edges: Seq<EdgeView>, vs: Seq<Seq<char>>)
    requires
        vs.no_duplicates(),
        forall|k: int| 0 <= k < vs.len() ==> touches(edges, #[trigger] vs[k]),
    ensures
        vs.len() <= 2 * edges.len(),
{
    broadcast use vstd::set::group_set_axioms;
    broadcast use vstd::seq_lib::seq_to_set_is_finite;

    vs.unique_seq_to_set();
    lemma_endpoints(edges);
    endpoints(edges).lemma_cardinality_of_set();
    assert forall|v: Seq<char>| vs.to_set().contains(v) implies endpoints(
        edges,
    ).to_set().contains(v) by {
        assert(vs.contains(v));
        let k = choose|k: int| 0 <= k < vs.len() && vs[k] == v;
        assert(touches(edges, vs[k]));
        assert(endpoints(edges).contains(v));
    }
    assert(vs.to_set().subset_of(endpoints(edges).to_set()));
    vstd::set_lib::lemma_len_subset(vs.to_set(), endpoints(edges).to_set());
}

/// Along any walk whose start lies in `disc`, every later node lies in
/// `vis`, provided every name in `disc` has all its direct neighbors in
/// `vis` and `vis` itself lies within `disc`.
proof fn lemma_walk_stays_visited(
    edges: Seq<EdgeView>,
    p: Seq<Seq<char>>,
    disc: Set<Seq<char>>,
    vis: Set<Seq<char>>,
)
    requires
        is_path(edges, p),
        disc.contains(p.first()),
        vis.subset_of(disc),
        forall|x: Seq<char>, y: Seq<char>|
            disc.contains(x) && #[trigger] adjacent(edges, x, y) ==> vis.contains(y),
    ensures
        vis.contains(p.last()),
    decreases p.len(),
{
    assert(adjacent(edges, p[0], p[1]));
    assert(vis.contains(p[1]));
    if p.len() == 2 {
        assert(p.last() == p[1]);
    } else {
        let q = p.drop_first();
        assert forall|i: int| 0 <= i < q.len() - 1 implies adjacent(
            edges,
            #[trigger] q[i],
            q[i + 1],
        ) by {
            assert(q[i] == p[i + 1] && q[i + 1] == p[i + 2]);
            assert(adjacent(edges, p[i + 1], p[i + 2]));
        }
        assert(is_path(edges, q));
        assert(q.first() == p[1]);
        assert(disc.contains(q.first()));
        lemma_walk_stays_visited(edges, q, disc, vis);
        assert(q.last() == p.last());
    }
}

impl EdgeStore {
    /// Whether a walk of at least one edge leads from `src_city` to
    /// `tgt_city`.
    ///
    /// Depth-first search with an explicit pending stack and a visited list
    /// scoped to this call. A node is recorded as visited the moment it is
    /// discovered as a neighbor, never expanded twice, so the search
    /// terminates on every graph, cycles included. The start node itself is
    /// not marked in advance: it counts as reached only when some edge leads
    /// back to it, so a node is connected to itself exactly when some edge
    /// touches it.
    pub fn is_connected(&self, src_city: &String, tgt_city: &String) -> (r: bool)
        ensures
            r == connected(self@, src_city@, tgt_city@),
    {
        let mut visited: Vec<String> = Vec::new();
        let mut stack: Vec<String> = Vec::new();
        stack.push(src_city.clone());
        proof {
            assert(views_of(stack@) =~= seq![src_city@]);
            assert(views_of(stack@)[0] == src_city@);
            assert(views_of(stack@).contains(src_city@));
            assert forall|x: Seq<char>| !(#[trigger] views_of(visited@).contains(x)) by {
                if views_of(visited@).contains(x) {
                    let k = choose|k: int|
                        0 <= k < views_of(visited@).len() && views_of(visited@)[k] == x;
                }
            }
        }
        while stack.len() > 0
            invariant
                views_of(visited@).no_duplicates(),
                forall|k: int|
                    0 <= k < visited@.len() ==> touches(self@, #[trigger] views_of(visited@)[k]),
                views_of(visited@).len() <= 2 * self@.len(),
                forall|k: int|
                    0 <= k < visited@.len() ==> connected(
                        self@,
                        src_city@,
                        #[trigger] views_of(visited@)[k],
                    ),
                forall|k: int|
                    0 <= k < stack@.len() ==> #[trigger] views_of(stack@)[k] == src_city@
                        || views_of(visited@).contains(views_of(stack@)[k]),
                !views_of(visited@).contains(tgt_city@),
                forall|x: Seq<char>, y: Seq<char>|
                    (x == src_city@ || views_of(visited@).contains(x)) && !views_of(
                        stack@,
                    ).contains(x) && #[trigger] adjacent(self@, x, y) ==> views_of(
                        visited@,
                    ).contains(y),
            decreases 2 * self@.len() - views_of(visited@).len(), stack@.len(),
        {
            let ghost stk0 = views_of(stack@);
            let cur = stack.pop().unwrap();
            proof {
                assert(views_of(stack@) =~= stk0.drop_last());
                assert(cur@ == stk0.last());
                assert(stk0[stk0.len() - 1] == cur@);
                assert forall|x: Seq<char>| views_of(stack@).contains(x) implies stk0.contains(
                    x,
                ) by {
                    let k = choose|k: int|
                        0 <= k < views_of(stack@).len() && views_of(stack@)[k] == x;
                    assert(stk0[k] == x);
                }
                assert forall|x: Seq<char>| stk0.contains(x) && x != cur@ implies views_of(
                    stack@,
                ).contains(x) by {
                    let k = choose|k: int| 0 <= k < stk0.len() && stk0[k] == x;
                    assert(views_of(stack@)[k] == x);
                }
            }
            let ns = self.neighbors(&cur);
            let ghost nsv = views_of(ns@);
            let ghost stk_base = views_of(stack@);
            let ghost vis_base = views_of(visited@);
            let mut j: usize = 0;
            while j < ns.len()
                invariant
                    j <= ns.len(),
                    nsv == views_of(ns@),
                    nsv == neighbors_of(self@, cur@),
                    cur@ == src_city@ || connected(self@, src_city@, cur@),
                    views_of(visited@).no_duplicates(),
                    forall|k: int|
                        0 <= k < visited@.len() ==> touches(
                            self@,
                            #[trigger] views_of(visited@)[k],
                        ),
                    views_of(visited@).len() <= 2 * self@.len(),
                    forall|k: int|
                        0 <= k < visited@.len() ==> connected(
                            self@,
                            src_city@,
                            #[trigger] views_of(visited@)[k],
                        ),
                    forall|k: int|
                        0 <= k < stack@.len() ==> #[trigger] views_of(stack@)[k] == src_city@
                            || views_of(visited@).contains(views_of(stack@)[k]),
                    !views_of(visited@).contains(tgt_city@),
                    vis_base.len() <= views_of(visited@).len(),
                    views_of(stack@).len() + vis_base.len() == stk_base.len() + views_of(
                        visited@,
                    ).len(),
                    forall|k: int| 0 <= k < j ==> views_of(visited@).contains(#[trigger] nsv[k]),
                    forall|x: Seq<char>, y: Seq<char>|
                        (x == src_city@ || views_of(visited@).contains(x)) && !views_of(
                            stack@,
                        ).contains(x) && x != cur@ && #[trigger] adjacent(self@, x, y)
                            ==> views_of(visited@).contains(y),
                decreases ns@.len() - j,
            {
                let n = &ns[j];
                proof {
                    assert(nsv[j as int] == n@);
                    assert(neighbors_of(self@, cur@).contains(n@));
                    lemma_neighbors_adjacent(self@, cur@, n@);
                    if cur@ == src_city@ {
                        lemma_adjacent_connected(self@, src_city@, n@);
                    } else {
                        lemma_connected_extend(self@, src_city@, cur@, n@);
                    }
                    lemma_adjacent_touches(self@, cur@, n@);
                }
                if !contains_name(&visited, n) {
                    let ghost vis0 = views_of(visited@);
                    visited.push(n.clone());
                    proof {
                        assert(views_of(visited@) =~= vis0.push(n@));
                        assert forall|a: int, b: int|
                            0 <= a < views_of(visited@).len() && 0 <= b < views_of(visited@).len()
                                && a != b implies views_of(visited@)[a] != views_of(
                            visited@,
                        )[b] by {
                            if a < vis0.len() && b < vis0.len() {
                            } else if a < vis0.len() {
                                assert(vis0[a] != n@);
                            } else {
                                assert(vis0[b] != n@);
                            }
                        }
                        lemma_visited_within_endpoints(self@, views_of(visited@));
                        assert forall|x: Seq<char>| vis0.contains(x) implies views_of(
                            visited@,
                        ).contains(x) by {
                            let k = choose|k: int| 0 <= k < vis0.len() && vis0[k] == x;
                            assert(views_of(visited@)[k] == x);
                        }
                        assert(views_of(visited@).contains(n@)) by {
                            assert(views_of(visited@)[vis0.len() as int] == n@);
                        }
                    }
                    if *n == *tgt_city {
                        proof {
                            assert(connected(self@, src_city@, tgt_city@));
                        }
                        return true;
                    }
                    let ghost stk1 = views_of(stack@);
                    stack.push(n.clone());
                    proof {
                        assert(views_of(stack@) =~= stk1.push(n@));
                        assert(views_of(stack@).contains(n@)) by {
                            assert(views_of(stack@)[stk1.len() as int] == n@);
                        }
                        assert forall|x: Seq<char>| stk1.contains(x) implies views_of(
                            stack@,
                        ).contains(x) by {
                            let k = choose|k: int| 0 <= k < stk1.len() && stk1[k] == x;
                            assert(views_of(stack@)[k] == x);
                        }
                        assert forall|x: Seq<char>| views_of(stack@).contains(x) && x != n@
                            implies stk1.contains(x) by {
                            let k = choose|k: int|
                                0 <= k < views_of(stack@).len() && views_of(stack@)[k] == x;
                            assert(stk1[k] == x);
                        }
                    }
                } else {
                    proof {
                        assert(views_of(visited@).contains(n@));
                    }
                }
                j = j + 1;
            }
            proof {
                assert forall|y: Seq<char>| #[trigger] adjacent(self@, cur@, y)
                    implies views_of(visited@).contains(y) by {
                    lemma_neighbors_adjacent(self@, cur@, y);
                    assert(nsv.contains(y));
                    let k = choose|k: int| 0 <= k < nsv.len() && nsv[k] == y;
                    assert(views_of(visited@).contains(nsv[k]));
                }
            }
        }
        proof {
            broadcast use vstd::set::group_set_axioms;

            if connected(self@, src_city@, tgt_city@) {
                let p = choose|p: Seq<Seq<char>>|
                    #[trigger] is_path(self@, p) && p.first() == src_city@ && p.last()
                        == tgt_city@;
                let vis = views_of(visited@).to_set();
                let disc = vis.insert(src_city@);
                assert forall|x: Seq<char>, y: Seq<char>|
                    disc.contains(x) && #[trigger] adjacent(self@, x, y) implies vis.contains(
                    y,
                ) by {
                    assert(views_of(stack@).len() == 0);
                    assert(!views_of(stack@).contains(x));
                    assert(x == src_city@ || views_of(visited@).contains(x));
                    assert(views_of(visited@).contains(y));
                }
                lemma_walk_stays_visited(self@, p, disc, vis);
                assert(views_of(visited@).contains(tgt_city@));
                assert(false);
            }
        }
        false
    }
}

} // verus!
