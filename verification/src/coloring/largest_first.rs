//! The largest-first heuristic: greedy colouring in order of decreasing
//! degree.

use vstd::prelude::*;
use crate::graph::{GraphView, StaticGraph};
use crate::coloring::{palette, proper, Coloring};
use crate::coloring::greedy::greedy_coloring;
use crate::coloring::theory::{distinct_vertices, greedy, is_permutation, lemma_distinct_below};

verus! {

/// Whether `a` comes before `b` in largest-first order: the vertex of
/// larger degree first, and of two with the same degree the smaller one.
pub open spec fn larger_first(g: GraphView, a: usize, b: usize) -> bool {
    g.degree(a) > g.degree(b) || (g.degree(a) == g.degree(b) && a < b)
}

/// Whether `order` lists the vertices of `g` by decreasing degree, those
/// of equal degree in increasing order.
pub open spec fn is_largest_first(g: GraphView, order: Seq<usize>) -> bool {
    &&& is_permutation(order, g.order)
    &&& forall|i: int, j: int|
        0 <= i < j < order.len() ==> larger_first(g, #[trigger] order[i], #[trigger] order[j])
}

/// Whether `c` is the largest-first colouring of `g`.
#[verifier::opaque]
pub open spec fn is_lf_coloring(g: GraphView, c: Seq<usize>) -> bool {
    exists|order: Seq<usize>| is_largest_first(g, order) && c == greedy(g, order)
}

/// Returns the degree of every vertex, by its index.
pub fn degrees<G: StaticGraph>(graph: &G) -> (degs: Vec<usize>)
    requires
        graph.wf(),
    ensures
        degs@.len() == graph@.order,
        forall|v: usize| v < graph@.order ==> #[trigger] degs@[v as int] == graph@.degree(v),
{
    let n = graph.num_vertices();
    let mut degs: Vec<usize> = Vec::new();
    let mut v: usize = 0;
    while v < n
        invariant
            graph.wf(),
            n == graph@.order,
            v <= n,
            degs@.len() == v,
            forall|w: usize| w < v ==> #[trigger] degs@[w as int] == graph@.degree(w),
        decreases n - v,
    {
        let ns = graph.neighbors(v);
        proof {
            ns@.unique_seq_to_set();
        }
        degs.push(ns.len());
        v += 1;
    }
    degs
}

/// Returns the vertices sorted by degree, largest first; vertices of equal
/// degree keep their order.
pub fn largest_first_order<G: StaticGraph>(graph: &G) -> (order: Vec<usize>)
    requires
        graph.wf(),
    ensures
        is_largest_first(graph@, order@),
{
    let n = graph.num_vertices();
    let degs = degrees(graph);
    proof {
        graph.lemma_view_wf();
        assert forall|v: usize| v < n implies #[trigger] degs@[v as int] < n by {
            graph@.lemma_neighbors(v);
        }
    }
    let mut order: Vec<usize> = Vec::new();
    let mut d: usize = n;
    while d > 0
        invariant
            d <= n,
            n == graph@.order,
            n <= usize::MAX,
            degs@.len() == n,
            forall|v: usize| v < n ==> #[trigger] degs@[v as int] == graph@.degree(v),
            forall|v: usize| v < n ==> #[trigger] degs@[v as int] < n,
            distinct_vertices(order@, n as nat),
            forall|t: int| 0 <= t < order@.len() ==> degs@[#[trigger] order@[t] as int] >= d,
            forall|v: usize| v < n && #[trigger] degs@[v as int] >= d ==> order@.contains(v),
            forall|i: int, j: int|
                0 <= i < j < order@.len() ==> larger_first(
                    graph@,
                    #[trigger] order@[i],
                    #[trigger] order@[j],
                ),
        decreases d,
    {
        d -= 1;
        let mut v: usize = 0;
        while v < n
            invariant
                d < n,
                v <= n,
                n == graph@.order,
                degs@.len() == n,
                forall|v: usize| v < n ==> #[trigger] degs@[v as int] == graph@.degree(v),
                distinct_vertices(order@, n as nat),
                forall|t: int|
                    0 <= t < order@.len() ==> degs@[#[trigger] order@[t] as int] > d || (degs@[order@[t] as int]
                        == d && order@[t] < v),
                forall|w: usize|
                    w < n && (#[trigger] degs@[w as int] > d || (degs@[w as int] == d && w < v))
                        ==> order@.contains(w),
                forall|i: int, j: int|
                    0 <= i < j < order@.len() ==> larger_first(
                        graph@,
                        #[trigger] order@[i],
                        #[trigger] order@[j],
                    ),
            decreases n - v,
        {
            let ghost before = order@;
            if degs[v] == d {
                order.push(v);
                proof {
                    assert(order@[before.len() as int] == v);
                    assert forall|a: int, b: int| 0 <= a < b < order@.len() implies order@[a] != order@[b] by {
                        if b == before.len() {
                            assert(before[a] == order@[a]);
                        }
                    }
                }
            }
            proof {
                assert forall|w: usize|
                    w < n && (#[trigger] degs@[w as int] > d || (degs@[w as int] == d && w < v + 1)) implies order@.contains(
                    w,
                ) by {
                    if w != v {
                        assert(before.contains(w));
                        let t = choose|t: int| 0 <= t < before.len() && before[t] == w;
                        assert(order@[t] == w);
                    }
                }
            }
            v += 1;
        }
    }
    proof {
        lemma_distinct_below(order@, n as nat);
        if order@.len() < n {
            let v = choose|v: usize| v < n && !order@.contains(v);
            assert(degs@[v as int] >= 0);
        }
    }
    order
}

/// Returns a largest-first greedy colouring of the graph: the vertices
/// are coloured greedily in order of decreasing degree.
pub fn lf_coloring<G: StaticGraph>(graph: &G) -> (coloring: Coloring)
    requires
        graph.wf(),
    ensures
        is_lf_coloring(graph@, coloring@),
        proper(graph@, coloring@),
        palette(coloring@).len() <= graph@.max_degree() + 1,
{
    let order = largest_first_order(graph);
    proof {
        reveal(is_lf_coloring);
    }
    greedy_coloring(graph, &order)
}

} // verus!
