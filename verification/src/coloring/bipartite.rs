//! Two-colouring by breadth-first search, which doubles as a test for
//! bipartiteness.

use std::collections::VecDeque;
use vstd::prelude::*;
use crate::graph::{GraphView, StaticGraph};
use crate::coloring::Coloring;
use crate::coloring::greedy::unwrap_coloring;
use crate::coloring::theory::{distinct_vertices, lemma_distinct_below};

verus! {

/// Whether each vertex of `w` is joined to the next.
pub open spec fn is_walk(g: GraphView, w: Seq<usize>) -> bool {
    &&& w.len() > 0
    &&& forall|i: int| #![trigger w[i]] 0 <= i < w.len() - 1 ==> g.adjacent(w[i], w[i + 1])
}

/// Whether a walk leads from `a` to `b`.
pub open spec fn connected(g: GraphView, a: usize, b: usize) -> bool {
    exists|w: Seq<usize>| #[trigger] is_walk(g, w) && w.first() == a && w.last() == b
}

/// Whether `f` colours the vertices connected to vertex 0 with the colours
/// 0 and 1 so that no edge among them joins two of one colour.
pub open spec fn two_colors_component(g: GraphView, f: Seq<usize>) -> bool {
    &&& f.len() == g.order
    &&& forall|v: usize| v < g.order && #[trigger] connected(g, 0, v) ==> f[v as int] <= 1
    &&& forall|u: usize, v: usize|
        #[trigger] g.adjacent(u, v) && connected(g, 0, u) ==> f[u as int] != f[v as int]
}

/// Whether `c` is the two-colouring that the search from vertex 0 finds:
/// vertex 0 has colour 0, the vertices connected to it alternate between
/// 0 and 1 along every edge, and all others have colour 0.
pub open spec fn is_two_coloring(g: GraphView, c: Seq<usize>) -> bool {
    &&& two_colors_component(g, c)
    &&& g.order > 0 ==> c[0] == 0
    &&& forall|v: usize| v < g.order && !connected(g, 0, v) ==> #[trigger] c[v as int] == 0
}

/// Whether the vertices connected to vertex 0 can be coloured with two
/// colours at all.
pub open spec fn component_bipartite(g: GraphView) -> bool {
    exists|f: Seq<usize>| two_colors_component(g, f)
}

/// A walk to `a` goes on to any neighbour of `a`.
pub proof fn lemma_connected_step(g: GraphView, s: usize, a: usize, b: usize)
    requires
        connected(g, s, a),
        g.adjacent(a, b),
    ensures
        connected(g, s, b),
{
    let w = choose|w: Seq<usize>| #[trigger] is_walk(g, w) && w.first() == s && w.last() == a;
    let w2 = w.push(b);
    assert forall|i: int| #![trigger w2[i]] 0 <= i < w2.len() - 1 implies g.adjacent(w2[i], w2[i + 1]) by {
        if i < w.len() - 1 {
            assert(w2[i] == w[i]);
            assert(w2[i + 1] == w[i + 1]);
        }
    }
    assert(is_walk(g, w2) && w2.first() == s && w2.last() == b);
}

/// Every vertex is connected to itself.
pub proof fn lemma_connected_self(g: GraphView, s: usize)
    ensures
        connected(g, s, s),
{
    let w = seq![s];
    assert(is_walk(g, w) && w.first() == s && w.last() == s);
}

proof fn lemma_walk_stays(g: GraphView, inside: Set<usize>, w: Seq<usize>, i: int)
    requires
        is_walk(g, w),
        inside.contains(w.first()),
        forall|u: usize, v: usize| inside.contains(u) && #[trigger] g.adjacent(u, v) ==> inside.contains(v),
        0 <= i < w.len(),
    ensures
        inside.contains(w[i]),
    decreases i,
{
    if i > 0 {
        lemma_walk_stays(g, inside, w, i - 1);
        assert(g.adjacent(w[i - 1], w[i - 1 + 1]));
    }
}

/// A set of vertices that no edge leaves holds every vertex connected to
/// one of its own.
pub proof fn lemma_component_closed(g: GraphView, inside: Set<usize>, a: usize, b: usize)
    requires
        inside.contains(a),
        forall|u: usize, v: usize| inside.contains(u) && #[trigger] g.adjacent(u, v) ==> inside.contains(v),
        connected(g, a, b),
    ensures
        inside.contains(b),
{
    let w = choose|w: Seq<usize>| #[trigger] is_walk(g, w) && w.first() == a && w.last() == b;
    lemma_walk_stays(g, inside, w, w.len() - 1);
}

/// Whether a two-colouring `f` of the component of vertex 0 gives the
/// coloured vertices of `c` the colour of vertex 0 exactly where `c` has 0.
pub open spec fn agrees(f: Seq<usize>, c: Seq<Option<usize>>) -> bool {
    forall|v: usize|
        v < c.len() && #[trigger] c[v as int] is Some ==> (f[v as int] == f[0] <==> c[v as int] == Some(
            0usize,
        ))
}

/// Returns a two-colouring of the graph as a breadth-first search from
/// vertex 0 finds it, or `None` if that search meets an edge whose ends it
/// cannot colour differently: then the vertices connected to vertex 0 hold
/// an odd cycle. Vertices that the search does not reach get colour 0.
pub fn two_coloring<G: StaticGraph>(graph: &G) -> (result: Option<Coloring>)
    requires
        graph.wf(),
    ensures
        match result {
            Some(c) => is_two_coloring(graph@, c@),
            None => !component_bipartite(graph@),
        },
{
    let n = graph.num_vertices();
    let mut c: Vec<Option<usize>> = vec![None; n];
    let mut q: VecDeque<usize> = VecDeque::new();
    proof {
        graph.lemma_view_wf();
    }
    if n == 0 {
        let coloring: Coloring = Vec::new();
        return Some(coloring);
    }
    let first: usize = 0;
    q.push_back(first);
    c[first] = Some(0);
    let ghost mut seen: Seq<usize> = seq![first];
    let ghost mut head: int = 0;
    proof {
        lemma_connected_self(graph@, 0);
        assert(seen[0] == 0);
        assert(q@ =~= seen.subrange(0, 1));
    }
    while q.len() > 0
        invariant
            graph.wf(),
            graph@.wf(),
            n == graph@.order,
            0 < n <= usize::MAX,
            c@.len() == n,
            0 <= head <= seen.len(),
            q@ == seen.subrange(head, seen.len() as int),
            distinct_vertices(seen, n as nat),
            seen[0] == 0,
            c@[0] == Some(0usize),
            forall|v: usize| v < n ==> (#[trigger] c@[v as int] is Some <==> seen.contains(v)),
            forall|v: usize| v < n && #[trigger] c@[v as int] is Some ==> c@[v as int]->0 <= 1,
            forall|t: int| 0 <= t < seen.len() ==> connected(graph@, 0, #[trigger] seen[t]),
            forall|j: int, u: usize|
                0 <= j < head && #[trigger] graph@.adjacent(seen[j], u) ==> c@[u as int] is Some
                    && c@[u as int] != c@[seen[j] as int],
            forall|f: Seq<usize>| #[trigger] two_colors_component(graph@, f) ==> agrees(f, c@),
        decreases n - head,
    {
        proof {
            lemma_distinct_below(seen, n as nat);
        }
        let v = q.pop_front().unwrap();
        assert(v == seen[head]);
        assert(seen.contains(v));
        let color = c[v].unwrap();
        let ns = graph.neighbors(v);
        proof {
            assert forall|t: int| 0 <= t < ns@.len() implies #[trigger] ns@[t] < n by {
                assert(ns@.to_set().contains(ns@[t]));
                graph@.lemma_adjacent(ns@[t], v);
            }
        }
        let mut k: usize = 0;
        while k < ns.len()
            invariant
                graph@.wf(),
                n == graph@.order,
                0 < n <= usize::MAX,
                c@.len() == n,
                0 <= head < seen.len(),
                v == seen[head],
                c@[v as int] == Some(color),
                color <= 1,
                k <= ns@.len(),
                ns@.to_set() == graph@.neighbors(v),
                forall|t: int| 0 <= t < ns@.len() ==> #[trigger] ns@[t] < n,
                q@ == seen.subrange(head + 1, seen.len() as int),
                distinct_vertices(seen, n as nat),
                seen[0] == 0,
                c@[0] == Some(0usize),
                forall|v: usize| v < n ==> (#[trigger] c@[v as int] is Some <==> seen.contains(v)),
                forall|v: usize| v < n && #[trigger] c@[v as int] is Some ==> c@[v as int]->0 <= 1,
                forall|t: int| 0 <= t < seen.len() ==> connected(graph@, 0, #[trigger] seen[t]),
                forall|j: int, u: usize|
                    0 <= j < head && #[trigger] graph@.adjacent(seen[j], u) ==> c@[u as int] is Some
                        && c@[u as int] != c@[seen[j] as int],
                forall|t: int|
                    0 <= t < k ==> c@[#[trigger] ns@[t] as int] is Some && c@[ns@[t] as int] != Some(
                        color,
                    ),
                forall|f: Seq<usize>| #[trigger] two_colors_component(graph@, f) ==> agrees(f, c@),
            decreases ns.len() - k,
        {
            let u = ns[k];
            proof {
                assert(ns@.to_set().contains(ns@[k as int]));
                assert(graph@.adjacent(u, v));
                graph@.lemma_adjacent(u, v);
                lemma_connected_step(graph@, 0, v, u);
            }
            match c[u] {
                Some(col) => {
                    if col == color {
                        proof {
                            assert forall|f: Seq<usize>| !two_colors_component(graph@, f) by {
                                if two_colors_component(graph@, f) {
                                    assert(agrees(f, c@));
                                    assert(graph@.adjacent(v, u));
                                    assert(connected(graph@, 0, 0));
                                    assert(f[0] <= 1 && f[v as int] <= 1 && f[u as int] <= 1);
                                    assert(c@[u as int] is Some);
                                    assert(c@[v as int] is Some);
                                    assert(f[u as int] == f[v as int]);
                                }
                            }
                        }
                        return None;
                    }
                },
                None => {
                    let ghost old_c = c@;
                    let ghost old_seen = seen;
                    c[u] = Some(1 - color);
                    q.push_back(u);
                    proof {
                        seen = old_seen.push(u);
                        assert(seen[old_seen.len() as int] == u);
                        assert(!old_seen.contains(u));
                        assert(distinct_vertices(seen, n as nat));
                        assert(q@ =~= seen.subrange(head + 1, seen.len() as int));
                        assert forall|w: usize| w < n implies (#[trigger] c@[w as int] is Some
                            <==> seen.contains(w)) by {
                            if w != u {
                                if old_seen.contains(w) {
                                    let t = choose|t: int| 0 <= t < old_seen.len() && old_seen[t] == w;
                                    assert(seen[t] == w);
                                }
                            }
                        }
                        assert forall|t: int| 0 <= t < seen.len() implies connected(
                            graph@,
                            0,
                            #[trigger] seen[t],
                        ) by {
                            if t < old_seen.len() {
                                assert(seen[t] == old_seen[t]);
                            }
                        }
                        assert forall|j: int, w: usize|
                            0 <= j < head && #[trigger] graph@.adjacent(seen[j], w) implies c@[w as int] is Some
                            && c@[w as int] != c@[seen[j] as int] by {
                            assert(seen[j] == old_seen[j]);
                            assert(graph@.adjacent(old_seen[j], w));
                            assert(old_c[w as int] is Some);
                            assert(old_seen.contains(old_seen[j]));
                        }
                        assert forall|t: int| 0 <= t < k + 1 implies c@[#[trigger] ns@[t] as int] is Some
                            && c@[ns@[t] as int] != Some(color) by {
                            if t < k {
                                assert(old_c[ns@[t] as int] is Some);
                            }
                        }
                        assert forall|f: Seq<usize>| #[trigger]
                            two_colors_component(graph@, f) implies agrees(f, c@) by {
                            assert(agrees(f, old_c));
                            assert(graph@.adjacent(v, u));
                            assert(connected(graph@, 0, 0));
                            assert(f[0] <= 1 && f[v as int] <= 1 && f[u as int] <= 1);
                            assert(old_c[v as int] is Some);
                            assert(f[u as int] != f[v as int]);
                        }
                    }
                },
            }
            k += 1;
        }
        proof {
            assert forall|j: int, u: usize|
                0 <= j < head + 1 && #[trigger] graph@.adjacent(seen[j], u) implies c@[u as int] is Some
                && c@[u as int] != c@[seen[j] as int] by {
                if j == head {
                    assert(graph@.neighbors(v).contains(u));
                    assert(ns@.to_set().contains(u));
                    let t = choose|t: int| 0 <= t < ns@.len() && ns@[t] == u;
                    assert(c@[ns@[t] as int] is Some);
                }
            }
            head = head + 1;
        }
    }
    let ghost reached = c@;
    let mut i: usize = 0;
    while i < n
        invariant
            i <= n,
            c@.len() == n,
            reached.len() == n,
            forall|v: usize| v < i ==> #[trigger] c@[v as int] is Some,
            forall|v: usize| v < n && #[trigger] reached[v as int] is Some ==> c@[v as int] == reached[v as int],
            forall|v: usize| v < n && #[trigger] reached[v as int] is None && v < i ==> c@[v as int] == Some(0usize),
            forall|v: usize| i <= v < n ==> #[trigger] c@[v as int] == reached[v as int],
        decreases n - i,
    {
        if c[i].is_none() {
            c[i] = Some(0);
        }
        i += 1;
    }
    let coloring = unwrap_coloring(&c);
    proof {
        assert(head == seen.len());
        let inside = Set::new(|v: usize| v < n && reached[v as int] is Some);
        assert forall|u: usize, v: usize| inside.contains(u) && #[trigger] graph@.adjacent(u, v) implies inside.contains(
            v,
        ) by {
            assert(seen.contains(u));
            let j = choose|j: int| 0 <= j < seen.len() && seen[j] == u;
            assert(graph@.adjacent(seen[j], v));
            graph@.lemma_adjacent(u, v);
        }
        assert(inside.contains(0));
        assert forall|v: usize| v < n && #[trigger] connected(graph@, 0, v) implies coloring@[v as int]
            <= 1 by {
            lemma_component_closed(graph@, inside, 0, v);
        }
        assert forall|u: usize, v: usize|
            #[trigger] graph@.adjacent(u, v) && connected(graph@, 0, u) implies coloring@[u as int]
            != coloring@[v as int] by {
            lemma_component_closed(graph@, inside, 0, u);
            assert(seen.contains(u));
            let j = choose|j: int| 0 <= j < seen.len() && seen[j] == u;
            assert(graph@.adjacent(seen[j], v));
            graph@.lemma_adjacent(u, v);
        }
        assert forall|v: usize| v < n && !connected(graph@, 0, v) implies #[trigger] coloring@[v as int]
            == 0 by {
            if reached[v as int] is Some {
                assert(seen.contains(v));
                let t = choose|t: int| 0 <= t < seen.len() && seen[t] == v;
                assert(connected(graph@, 0, seen[t]));
            }
        }
    }
    Some(coloring)
}

} // verus!
