//! The connected-sequence heuristic: greedy colouring along a
//! breadth-first order.

use vstd::prelude::*;
use crate::graph::{GraphView, StaticGraph};
use crate::coloring::{palette, proper, Coloring};
use crate::coloring::greedy::greedy_coloring;
use crate::coloring::theory::{
    distinct_vertices, greedy, is_permutation, lemma_distinct_below,
};

verus! {

/// Whether the vertex at position `t` of `order` comes after one of its
/// neighbours.
pub open spec fn follows_neighbor(g: GraphView, order: Seq<usize>, t: int) -> bool {
    exists|j: int| 0 <= j < t && #[trigger] g.adjacent(order[j], order[t])
}

/// Whether the vertex at position `s` of `order` has a neighbour at one of
/// the positions up to `j`.
pub open spec fn has_neighbor_upto(g: GraphView, order: Seq<usize>, s: int, j: int) -> bool {
    exists|i: int| 0 <= i <= j && #[trigger] g.adjacent(order[i], order[s])
}

/// Whether the first `reached` vertices of `order` come breadth first: of
/// two of them, the earlier one has its first neighbour no later than the
/// other has its own.
pub open spec fn breadth_first(g: GraphView, order: Seq<usize>, reached: nat) -> bool {
    forall|s: int, t: int, j: int|
        #![trigger has_neighbor_upto(g, order, s, j), g.adjacent(order[j], order[t])]
        0 < s < t < reached && 0 <= j < t && g.adjacent(order[j], order[t]) ==> has_neighbor_upto(
            g,
            order,
            s,
            j,
        )
}

/// Whether `order` is a connected sequence of `g`: a permutation of the
/// vertices that starts at vertex 0 and whose first `reached` entries are
/// the vertices connected to vertex 0, breadth first, each but the first
/// after one of its neighbours; the vertices left over follow in
/// increasing order.
pub open spec fn is_connected_sequence(g: GraphView, order: Seq<usize>, reached: nat) -> bool {
    &&& is_permutation(order, g.order)
    &&& reached <= order.len()
    &&& g.order > 0 ==> reached > 0 && order[0] == 0
    &&& forall|t: int| 0 < t < reached ==> #[trigger] follows_neighbor(g, order, t)
    &&& breadth_first(g, order, reached)
    &&& forall|j: int, u: usize|
        0 <= j < reached && #[trigger] g.adjacent(order[j], u) ==> order.take(reached as int).contains(
            u,
        )
    &&& forall|s: int, t: int| reached <= s < t < order.len() ==> order[s] < order[t]
}

/// Whether `c` is a connected-sequence colouring of `g`: the greedy
/// colouring along some connected sequence.
#[verifier::opaque]
pub open spec fn is_cs_coloring(g: GraphView, c: Seq<usize>) -> bool {
    exists|order: Seq<usize>, reached: nat|
        is_connected_sequence(g, order, reached) && c == greedy(g, order)
}

/// Returns the vertices in a connected sequence: breadth first from vertex
/// 0, then whatever that search did not reach.
pub fn connected_sequence<G: StaticGraph>(graph: &G) -> (order: Vec<usize>)
    requires
        graph.wf(),
    ensures
        exists|reached: nat| is_connected_sequence(graph@, order@, reached),
{
    let n = graph.num_vertices();
    let mut visited: Vec<bool> = vec![false; n];
    let mut vec: Vec<usize> = Vec::new();
    proof {
        graph.lemma_view_wf();
    }
    if n == 0 {
        assert(is_connected_sequence(graph@, vec@, 0));
        return vec;
    }
    visited[0] = true;
    vec.push(0);
    proof {
        assert(vec@[0] == 0);
        assert forall|v: usize| v < n implies (#[trigger] visited@[v as int] <==> vec@.contains(v)) by {
            if vec@.contains(v) {
                let t = choose|t: int| 0 <= t < vec@.len() && vec@[t] == v;
            }
        }
    }
    let mut i: usize = 0;
    while i < vec.len()
        invariant
            graph.wf(),
            graph@.wf(),
            n == graph@.order,
            n > 0,
            visited@.len() == n,
            i <= vec@.len() <= n,
            vec@.len() > 0,
            vec@[0] == 0,
            distinct_vertices(vec@, n as nat),
            forall|v: usize| v < n ==> (#[trigger] visited@[v as int] <==> vec@.contains(v)),
            forall|t: int| 0 < t < vec@.len() ==> #[trigger] follows_neighbor(graph@, vec@, t),
            forall|s: int| 0 < s < vec@.len() ==> #[trigger] has_neighbor_upto(graph@, vec@, s, i as int),
            breadth_first(graph@, vec@, vec@.len()),
            forall|j: int, u: usize|
                0 <= j < i && #[trigger] graph@.adjacent(vec@[j], u) ==> vec@.contains(u),
        decreases n - i,
    {
        let v = vec[i];
        let ns = graph.neighbors(v);
        let mut k: usize = 0;
        while k < ns.len()
            invariant
                graph@.wf(),
                n == graph@.order,
                visited@.len() == n,
                i < vec@.len() <= n,
                v == vec@[i as int],
                vec@[0] == 0,
                k <= ns@.len(),
                ns@.to_set() == graph@.neighbors(v),
                distinct_vertices(vec@, n as nat),
                forall|v: usize| v < n ==> (#[trigger] visited@[v as int] <==> vec@.contains(v)),
                forall|t: int| 0 < t < vec@.len() ==> #[trigger] follows_neighbor(graph@, vec@, t),
                forall|s: int|
                    0 < s < vec@.len() ==> #[trigger] has_neighbor_upto(graph@, vec@, s, i as int),
                breadth_first(graph@, vec@, vec@.len()),
                forall|j: int, u: usize|
                    0 <= j < i && #[trigger] graph@.adjacent(vec@[j], u) ==> vec@.contains(u),
                forall|t: int| 0 <= t < k ==> vec@.contains(#[trigger] ns@[t]),
            decreases ns.len() - k,
        {
            let u = ns[k];
            assert(ns@.to_set().contains(ns@[k as int]));
            assert(graph@.adjacent(u, v));
            if !visited[u] {
                let ghost old_vec = vec@;
                vec.push(u);
                visited[u] = true;
                proof {
                    assert(vec@ == old_vec.push(u));
                    lemma_distinct_below(vec@, n as nat);
                    assert forall|w: usize| w < n implies (#[trigger] visited@[w as int] <==> vec@.contains(
                        w,
                    )) by {
                        if w == u {
                            assert(vec@[old_vec.len() as int] == u);
                        } else {
                            if old_vec.contains(w) {
                                let t = choose|t: int| 0 <= t < old_vec.len() && old_vec[t] == w;
                                assert(vec@[t] == w);
                            }
                        }
                    }
                    assert forall|t: int| 0 < t < vec@.len() implies #[trigger] follows_neighbor(
                        graph@,
                        vec@,
                        t,
                    ) by {
                        if t < old_vec.len() {
                            assert(follows_neighbor(graph@, old_vec, t));
                            let j = choose|j: int|
                                0 <= j < t && #[trigger] graph@.adjacent(old_vec[j], old_vec[t]);
                            assert(graph@.adjacent(vec@[j], vec@[t]));
                        } else {
                            assert(graph@.adjacent(vec@[i as int], vec@[t]));
                        }
                    }
                    assert forall|j: int, w: usize|
                        0 <= j < i && #[trigger] graph@.adjacent(vec@[j], w) implies vec@.contains(w) by {
                        assert(graph@.adjacent(old_vec[j], w));
                        let t = choose|t: int| 0 <= t < old_vec.len() && old_vec[t] == w;
                        assert(vec@[t] == w);
                    }
                    assert forall|s: int| 0 < s < vec@.len() implies #[trigger] has_neighbor_upto(
                        graph@,
                        vec@,
                        s,
                        i as int,
                    ) by {
                        if s < old_vec.len() {
                            assert(has_neighbor_upto(graph@, old_vec, s, i as int));
                            let a = choose|a: int|
                                0 <= a <= i && #[trigger] graph@.adjacent(old_vec[a], old_vec[s]);
                            assert(graph@.adjacent(vec@[a], vec@[s]));
                        } else {
                            assert(graph@.adjacent(vec@[i as int], vec@[s]));
                        }
                    }
                    assert forall|s: int, t: int, j: int|
                        #![trigger has_neighbor_upto(graph@, vec@, s, j), graph@.adjacent(vec@[j], vec@[t])]
                        0 < s < t < vec@.len() && 0 <= j < t && graph@.adjacent(
                            vec@[j],
                            vec@[t],
                        ) implies has_neighbor_upto(graph@, vec@, s, j) by {
                        if t < old_vec.len() {
                            assert(graph@.adjacent(old_vec[j], old_vec[t]));
                            assert(has_neighbor_upto(graph@, old_vec, s, j));
                            let a = choose|a: int|
                                0 <= a <= j && #[trigger] graph@.adjacent(old_vec[a], old_vec[s]);
                            assert(graph@.adjacent(vec@[a], vec@[s]));
                        } else {
                            if j < i {
                                assert(graph@.adjacent(old_vec[j], u));
                                assert(old_vec.contains(u));
                            }
                            assert(has_neighbor_upto(graph@, old_vec, s, i as int));
                            let a = choose|a: int|
                                0 <= a <= i && #[trigger] graph@.adjacent(old_vec[a], old_vec[s]);
                            assert(graph@.adjacent(vec@[a], vec@[s]));
                        }
                    }
                    assert forall|t: int| 0 <= t < k + 1 implies vec@.contains(#[trigger] ns@[t]) by {
                        if t < k {
                            let s = choose|s: int| 0 <= s < old_vec.len() && old_vec[s] == ns@[t];
                            assert(vec@[s] == ns@[t]);
                        } else {
                            assert(vec@[old_vec.len() as int] == u);
                        }
                    }
                }
            }
            k += 1;
        }
        proof {
            assert forall|j: int, u: usize|
                0 <= j < i + 1 && #[trigger] graph@.adjacent(vec@[j], u) implies vec@.contains(u) by {
                if j == i {
                    assert(graph@.neighbors(v).contains(u));
                    assert(ns@.to_set().contains(u));
                    let t = choose|t: int| 0 <= t < ns@.len() && ns@[t] == u;
                    assert(vec@.contains(ns@[t]));
                }
            }
            assert forall|s: int| 0 < s < vec@.len() implies #[trigger] has_neighbor_upto(
                graph@,
                vec@,
                s,
                i + 1,
            ) by {
                assert(has_neighbor_upto(graph@, vec@, s, i as int));
                let a = choose|a: int| 0 <= a <= i && #[trigger] graph@.adjacent(vec@[a], vec@[s]);
                assert(0 <= a <= i + 1 && graph@.adjacent(vec@[a], vec@[s]));
            }
        }
        i += 1;
    }
    let ghost reached = vec@;
    let mut v: usize = 0;
    while v < n
        invariant
            v <= n,
            n == graph@.order,
            visited@.len() == n,
            reached.len() <= vec@.len(),
            vec@.take(reached.len() as int) == reached,
            distinct_vertices(vec@, n as nat),
            forall|w: usize| w < n ==> (#[trigger] visited@[w as int] <==> reached.contains(w)),
            forall|w: usize| w < v ==> vec@.contains(w),
            forall|t: int| reached.len() <= t < vec@.len() ==> #[trigger] vec@[t] < v,
            forall|s: int, t: int| reached.len() <= s < t < vec@.len() ==> vec@[s] < vec@[t],
        decreases n - v,
    {
        let ghost old_vec = vec@;
        if !visited[v] {
            vec.push(v);
            proof {
                assert forall|a: int, b: int| 0 <= a < b < vec@.len() implies vec@[a] != vec@[b] by {
                    if b == old_vec.len() {
                        if a < reached.len() {
                            assert(reached[a] == vec@.take(reached.len() as int)[a]);
                            assert(reached.contains(vec@[a]));
                        }
                    }
                }
                assert(vec@.take(reached.len() as int) =~= old_vec.take(reached.len() as int));
                assert(vec@[old_vec.len() as int] == v);
            }
        } else {
            proof {
                let t = choose|t: int| 0 <= t < reached.len() && reached[t] == v;
                assert(vec@.take(reached.len() as int)[t] == v);
                assert(vec@[t] == v);
            }
        }
        proof {
            assert forall|w: usize| w < v + 1 implies vec@.contains(w) by {
                if w < v {
                    assert(old_vec.contains(w));
                    let t = choose|t: int| 0 <= t < old_vec.len() && old_vec[t] == w;
                    assert(vec@[t] == w);
                } else {
                    assert(w == v);
                }
            }
        }
        v += 1;
    }
    proof {
        lemma_distinct_below(vec@, n as nat);
        assert(vec@.len() == n) by {
            vec@.unique_seq_to_set();
            crate::graph::model::lemma_below_len(n as nat);
            assert(vec@.to_set() =~= crate::graph::model::below(n as nat));
        }
        assert forall|t: int| 0 < t < reached.len() implies #[trigger] follows_neighbor(
            graph@,
            vec@,
            t,
        ) by {
            assert(follows_neighbor(graph@, reached, t));
            let j = choose|j: int| 0 <= j < t && #[trigger] graph@.adjacent(reached[j], reached[t]);
            assert(reached[j] == vec@.take(reached.len() as int)[j]);
            assert(reached[t] == vec@.take(reached.len() as int)[t]);
            assert(graph@.adjacent(vec@[j], vec@[t]));
        }
        assert forall|j: int, u: usize|
            0 <= j < reached.len() && #[trigger] graph@.adjacent(vec@[j], u) implies vec@.take(
            reached.len() as int,
        ).contains(u) by {
            assert(reached[j] == vec@.take(reached.len() as int)[j]);
            assert(graph@.adjacent(reached[j], u));
        }
        assert(vec@[0] == vec@.take(reached.len() as int)[0]);
        assert forall|s: int, t: int, j: int|
            #![trigger has_neighbor_upto(graph@, vec@, s, j), graph@.adjacent(vec@[j], vec@[t])]
            0 < s < t < reached.len() && 0 <= j < t && graph@.adjacent(vec@[j], vec@[t]) implies has_neighbor_upto(
            graph@,
            vec@,
            s,
            j,
        ) by {
            assert(reached[j] == vec@.take(reached.len() as int)[j]);
            assert(reached[t] == vec@.take(reached.len() as int)[t]);
            assert(reached[s] == vec@.take(reached.len() as int)[s]);
            assert(graph@.adjacent(reached[j], reached[t]));
            assert(has_neighbor_upto(graph@, reached, s, j));
            let a = choose|a: int| 0 <= a <= j && #[trigger] graph@.adjacent(reached[a], reached[s]);
            assert(reached[a] == vec@.take(reached.len() as int)[a]);
            assert(graph@.adjacent(vec@[a], vec@[s]));
        }
    }
    assert(is_connected_sequence(graph@, vec@, reached.len()));
    vec
}

/// Returns a connected-sequence greedy colouring of the graph: the
/// vertices are coloured in an order in which each vertex connected to
/// vertex 0, but vertex 0 itself, comes after one of its neighbours.
pub fn cs_coloring<G: StaticGraph>(graph: &G) -> (coloring: Coloring)
    requires
        graph.wf(),
    ensures
        is_cs_coloring(graph@, coloring@),
        proper(graph@, coloring@),
        palette(coloring@).len() <= graph@.max_degree() + 1,
{
    let order = connected_sequence(graph);
    proof {
        reveal(is_cs_coloring);
    }
    greedy_coloring(graph, &order)
}

} // verus!
