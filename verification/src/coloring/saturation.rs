//! The saturation-degree heuristic: the vertex that sees the most colours
//! is coloured next.

use std::collections::HashSet;
use vstd::prelude::*;
use crate::graph::{GraphView, StaticGraph};
use crate::coloring::{palette, proper, Coloring};
use crate::coloring::greedy::{smallest_free_color, unwrap_coloring};
use crate::coloring::smallest_last::vertex_set;
use crate::coloring::theory::{
    blocked, colored_neighbors, distinct_vertices, greedy, greedy_inv, greedy_partial, is_permutation,
    lemma_greedy_done, lemma_greedy_partial_prefix, lemma_greedy_step,
};

verus! {

/// The saturation degree of `v`: the number of distinct colours among its
/// coloured neighbours.
pub open spec fn saturation(g: GraphView, partial: Seq<Option<usize>>, v: usize) -> nat {
    blocked(g, partial, v).len()
}

/// Whether `v` may be coloured before `w`: it has the higher saturation
/// degree, or the same and no lower a degree.
pub open spec fn saturation_first(g: GraphView, partial: Seq<Option<usize>>, v: usize, w: usize) -> bool {
    ||| saturation(g, partial, v) > saturation(g, partial, w)
    ||| saturation(g, partial, v) == saturation(g, partial, w) && g.degree(v) >= g.degree(w)
}

/// Whether `v` may be coloured next: it has no colour, and may be coloured
/// before any other vertex without one.
pub open spec fn is_next_saturated(g: GraphView, partial: Seq<Option<usize>>, v: usize) -> bool {
    &&& v < g.order
    &&& partial[v as int] is None
    &&& forall|w: usize|
        w < g.order && #[trigger] partial[w as int] is None ==> saturation_first(g, partial, v, w)
}

/// Whether `order` is a saturation order of `g`: each vertex in it may be
/// coloured next once those before it are coloured greedily. Of several
/// such vertices any may come first.
pub open spec fn is_saturation_order(g: GraphView, order: Seq<usize>) -> bool {
    &&& is_permutation(order, g.order)
    &&& forall|i: int|
        0 <= i < order.len() ==> is_next_saturated(
            g,
            greedy_partial(g, order, i as nat),
            #[trigger] order[i],
        )
}

/// Whether `c` is a saturation-degree colouring of `g`: the greedy
/// colouring along a saturation order.
#[verifier::opaque]
pub open spec fn is_sdo_coloring(g: GraphView, c: Seq<usize>) -> bool {
    exists|order: Seq<usize>| is_saturation_order(g, order) && c == greedy(g, order)
}

/// Returns the saturation degree of `v` in the partial colouring `c`.
fn saturation_of<G: StaticGraph>(graph: &G, c: &Vec<Option<usize>>, v: usize) -> (sd: usize)
    requires
        graph.wf(),
        c@.len() == graph@.order,
    ensures
        sd == saturation(graph@, c@, v),
{
    let ns = graph.neighbors(v);
    let mut colors: HashSet<usize> = HashSet::new();
    proof {
        graph.lemma_view_wf();
        graph@.lemma_neighbors(v);
    }
    let mut j: usize = 0;
    while j < ns.len()
        invariant
            j <= ns@.len(),
            c@.len() == graph@.order,
            ns@.to_set() == graph@.neighbors(v),
            graph@.neighbors(v).subset_of(crate::graph::model::below(graph@.order)),
            forall|x: usize|
                colors@.contains(x) <==> exists|t: int|
                    0 <= t < j && #[trigger] c@[ns@[t] as int] == Some(x),
        decreases ns.len() - j,
    {
        let u = ns[j];
        assert(ns@.to_set().contains(ns@[j as int]));
        let ghost before = colors@;
        if let Some(color) = c[u] {
            colors.insert(color);
        }
        proof {
            assert forall|x: usize|
                colors@.contains(x) <==> exists|t: int|
                    0 <= t < j + 1 && #[trigger] c@[ns@[t] as int] == Some(x) by {
                if colors@.contains(x) {
                    if before.contains(x) {
                        let t = choose|t: int| 0 <= t < j && #[trigger] c@[ns@[t] as int] == Some(x);
                        assert(0 <= t < j + 1 && c@[ns@[t] as int] == Some(x));
                    } else {
                        assert(c@[ns@[j as int] as int] == Some(x));
                    }
                }
                if exists|t: int| 0 <= t < j + 1 && #[trigger] c@[ns@[t] as int] == Some(x) {
                    let t = choose|t: int| 0 <= t < j + 1 && #[trigger] c@[ns@[t] as int] == Some(x);
                    if t < j {
                        assert(before.contains(x));
                    }
                }
            }
        }
        j += 1;
    }
    proof {
        assert forall|x: usize| colors@.contains(x) <==> blocked(graph@, c@, v).contains(x) by {
            if colors@.contains(x) {
                let t = choose|t: int| 0 <= t < ns@.len() && #[trigger] c@[ns@[t] as int] == Some(x);
                assert(ns@.to_set().contains(ns@[t]));
                assert(colored_neighbors(graph@, c@, v).contains(ns@[t]));
            }
            if blocked(graph@, c@, v).contains(x) {
                let u = choose|u: usize|
                    colored_neighbors(graph@, c@, v).contains(u) && x == c@[u as int]->0;
                assert(ns@.to_set().contains(u));
                let t = choose|t: int| 0 <= t < ns@.len() && ns@[t] == u;
                assert(c@[ns@[t] as int] == Some(x));
            }
        }
        assert(colors@ =~= blocked(graph@, c@, v));
    }
    colors.len()
}

/// Returns an uncoloured vertex to colour next: one with the highest
/// saturation degree, and of several such one with the highest degree.
/// Which of several such vertices it is is up to the order in which the
/// hash set hands out its items.
fn next_saturated<G: StaticGraph>(graph: &G, c: &Vec<Option<usize>>, left: &HashSet<usize>) -> (v: usize)
    requires
        graph.wf(),
        c@.len() == graph@.order,
        forall|u: usize| #[trigger] left@.contains(u) <==> u < graph@.order && c@[u as int] is None,
        exists|w: usize| left@.contains(w),
    ensures
        is_next_saturated(graph@, c@, v),
{
    let mut found = false;
    let mut max_sd: usize = 0;
    let mut max_deg: usize = 0;
    let mut max_sd_idx: usize = 0;
    for v in it: left.iter()
        invariant
            graph.wf(),
            c@.len() == graph@.order,
            it.seq().unref().to_set() == left@,
            forall|u: usize| #[trigger] left@.contains(u) <==> u < graph@.order && c@[u as int] is None,
            !found ==> it.index() == 0,
            found ==> {
                &&& left@.contains(max_sd_idx)
                &&& max_sd == saturation(graph@, c@, max_sd_idx)
                &&& max_deg == graph@.degree(max_sd_idx)
                &&& forall|i: int|
                    0 <= i < it.index() ==> saturation_first(
                        graph@,
                        c@,
                        max_sd_idx,
                        #[trigger] it.seq().unref()[i],
                    )
            },
            it.index() == it.seq().len() ==> is_next_saturated(graph@, c@, max_sd_idx),
    {
        assert(left@.contains(*v)) by {
            let all = it.seq().unref();
            assert(all[it.index() as int] == *v);
            assert(all.to_set().contains(*v));
        }
        let sd = saturation_of(graph, c, *v);
        let ns = graph.neighbors(*v);
        proof {
            ns@.unique_seq_to_set();
        }
        let deg = ns.len();
        if !found || sd > max_sd || (sd == max_sd && deg > max_deg) {
            found = true;
            max_sd = sd;
            max_deg = deg;
            max_sd_idx = *v;
        }
        assert(saturation_first(graph@, c@, max_sd_idx, it.seq().unref()[it.index() as int])) by {
            assert(it.seq().unref()[it.index() as int] == *v);
        }
        assert(it.index() + 1 == it.seq().len() ==> is_next_saturated(graph@, c@, max_sd_idx)) by {
            let all = it.seq().unref();
            assert(all[it.index() as int] == *v);
            if it.index() + 1 == all.len() {
                assert forall|w: usize|
                    w < graph@.order && #[trigger] c@[w as int] is None implies saturation_first(
                    graph@,
                    c@,
                    max_sd_idx,
                    w,
                ) by {
                    assert(left@.contains(w));
                    assert(all.to_set().contains(w));
                    let i = choose|i: int| 0 <= i < all.len() && all[i] == w;
                    assert(saturation_first(graph@, c@, max_sd_idx, all[i]));
                }
            }
        }
    }
    max_sd_idx
}

/// Returns a saturation-degree-ordered colouring of the graph: again and
/// again an uncoloured vertex whose neighbours show the most distinct
/// colours takes the smallest colour that none of them has.
pub fn sdo_coloring<G: StaticGraph>(graph: &G) -> (coloring: Coloring)
    requires
        graph.wf(),
    ensures
        is_sdo_coloring(graph@, coloring@),
        proper(graph@, coloring@),
        palette(coloring@).len() <= graph@.max_degree() + 1,
{
    let n = graph.num_vertices();
    let mut c: Vec<Option<usize>> = vec![None; n];
    let mut left = vertex_set(n);
    let ghost mut order: Seq<usize> = Seq::empty();
    proof {
        graph.lemma_view_wf();
        assert(c@ =~= greedy_partial(graph@, order, 0));
    }
    while !left.is_empty()
        invariant
            graph.wf(),
            graph@.wf(),
            n == graph@.order,
            n <= usize::MAX,
            c@.len() == n,
            left@.finite(),
            order.len() + left@.len() == n,
            forall|u: usize| #[trigger] left@.contains(u) <==> u < n && c@[u as int] is None,
            distinct_vertices(order, n as nat),
            c@ == greedy_partial(graph@, order, order.len()),
            greedy_inv(graph@, order, order.len(), c@),
            forall|i: int|
                0 <= i < order.len() ==> is_next_saturated(
                    graph@,
                    greedy_partial(graph@, order, i as nat),
                    #[trigger] order[i],
                ),
        decreases left@.len(),
    {
        proof {
            assert(left@.len() != 0) by {
                if left@.len() == 0 {
                    assert(left@ =~= Set::<usize>::empty());
                }
            }
            let w = left@.choose();
            assert(left@.contains(w));
            assert forall|u: usize| u < graph@.order && #[trigger] c@[u as int] is Some implies c@[u as int]->0
                < graph@.order by {
                graph@.lemma_neighbors(u);
            }
        }
        // Find vertex with highest saturation degree
        let v = next_saturated(graph, &c, &left);
        // Color vertex
        let x = smallest_free_color(graph, &c, v);
        proof {
            let before = order;
            let k = before.len();
            order = before.push(v);
            assert(order.take(k as int) =~= before);
            assert(before.take(k as int) =~= before);
            assert(order[k as int] == v);
            assert(!before.contains(v));
            assert(distinct_vertices(order, n as nat));
            lemma_greedy_partial_prefix(graph@, before, order, k);
            assert(greedy_inv(graph@, order, k, c@)) by {
                assert(before.take(k as int) =~= order.take(k as int));
            }
            lemma_greedy_step(graph@, order, k, c@);
            assert forall|i: int| 0 <= i < order.len() implies is_next_saturated(
                graph@,
                greedy_partial(graph@, order, i as nat),
                #[trigger] order[i],
            ) by {
                if i < k {
                    assert(before.take(i) =~= order.take(i));
                    lemma_greedy_partial_prefix(graph@, before, order, i as nat);
                    assert(order[i] == before[i]);
                }
            }
        }
        c[v] = Some(x);
        left.remove(&v);
    }
    proof {
        reveal(is_sdo_coloring);
        assert(left@ =~= Set::<usize>::empty());
        lemma_greedy_done(graph@, order, c@);
        assert(is_saturation_order(graph@, order));
    }
    unwrap_coloring(&c)
}

} // verus!
