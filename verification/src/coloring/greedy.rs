//! The greedy colouring primitive and the heuristic that feeds it the
//! graph's own vertex order.

use vstd::prelude::*;
use crate::graph::{GraphView, StaticGraph};
use crate::coloring::{palette, proper, Coloring};
use crate::coloring::theory::{
    blocked, colored_neighbors, complete_coloring, greedy, greedy_inv, greedy_partial, is_mex,
    is_permutation, lemma_blocked, lemma_greedy_done, lemma_greedy_partial, lemma_greedy_step,
    lemma_mex_unique, mex,
};

verus! {

/// Returns the smallest colour that no neighbour of `v` has in the partial
/// colouring `c`.
pub(crate) fn smallest_free_color<G: StaticGraph>(graph: &G, c: &Vec<Option<usize>>, v: usize) -> (x:
    usize)
    requires
        graph.wf(),
        c@.len() == graph@.order,
        v < graph@.order,
        forall|u: usize| u < graph@.order && #[trigger] c@[u as int] is Some ==> c@[u as int]->0 < graph@.order,
    ensures
        x == mex(blocked(graph@, c@, v)),
        x <= graph@.degree(v),
        x < graph@.order,
{
    let n = graph.num_vertices();
    let ns = graph.neighbors(v);
    let mut blocked_colors: Vec<bool> = vec![false; n];
    proof {
        graph.lemma_view_wf();
        graph@.lemma_neighbors(v);
        lemma_blocked(graph@, c@, v);
    }
    let mut j: usize = 0;
    while j < ns.len()
        invariant
            j <= ns.len(),
            n == graph@.order,
            c@.len() == n,
            blocked_colors@.len() == n,
            ns@.to_set() == graph@.neighbors(v),
            graph@.neighbors(v).subset_of(crate::graph::model::below(graph@.order)),
            forall|u: usize| u < n && #[trigger] c@[u as int] is Some ==> c@[u as int]->0 < n,
            forall|x: int|
                0 <= x < n ==> (#[trigger] blocked_colors@[x] <==> exists|t: int|
                    0 <= t < j && #[trigger] c@[ns@[t] as int] == Some(x as usize)),
        decreases ns.len() - j,
    {
        let u = ns[j];
        assert(ns@.to_set().contains(ns@[j as int]));
        assert(u < n);
        let ghost before = blocked_colors@;
        if let Some(color) = c[u] {
            blocked_colors[color] = true;
        }
        assert forall|x: int| 0 <= x < n implies (#[trigger] blocked_colors@[x] <==> exists|t: int|
            0 <= t < j + 1 && #[trigger] c@[ns@[t] as int] == Some(x as usize)) by {
            if blocked_colors@[x] {
                if before[x] {
                    let t = choose|t: int| 0 <= t < j && #[trigger] c@[ns@[t] as int] == Some(x as usize);
                    assert(0 <= t < j + 1 && c@[ns@[t] as int] == Some(x as usize));
                } else {
                    assert(c@[ns@[j as int] as int] == Some(x as usize));
                }
            }
            if exists|t: int| 0 <= t < j + 1 && #[trigger] c@[ns@[t] as int] == Some(x as usize) {
                let t = choose|t: int| 0 <= t < j + 1 && #[trigger] c@[ns@[t] as int] == Some(x as usize);
                if t < j {
                    assert(before[x]);
                }
            }
        }
        j += 1;
    }
    assert forall|x: usize| x < n implies (blocked_colors@[x as int] <==> blocked(graph@, c@, v).contains(
        x,
    )) by {
        if blocked_colors@[x as int] {
            let t = choose|t: int| 0 <= t < ns@.len() && #[trigger] c@[ns@[t] as int] == Some(x);
            assert(ns@.to_set().contains(ns@[t]));
            assert(colored_neighbors(graph@, c@, v).contains(ns@[t]));
        }
        if blocked(graph@, c@, v).contains(x) {
            let u = choose|u: usize| colored_neighbors(graph@, c@, v).contains(u) && x == c@[u as int]->0;
            assert(ns@.to_set().contains(u));
            let t = choose|t: int| 0 <= t < ns@.len() && ns@[t] == u;
            assert(c@[ns@[t] as int] == Some(x));
        }
    }
    let ghost m = mex(blocked(graph@, c@, v));
    let mut x: usize = 0;
    while x < n && blocked_colors[x]
        invariant
            x <= n,
            blocked_colors@.len() == n,
            forall|k: usize| k < x ==> blocked_colors@[k as int],
        decreases n - x,
    {
        x += 1;
    }
    proof {
        assert(m < n);
        if x > m {
            assert(blocked_colors@[m as int]);
        }
        assert(is_mex(blocked(graph@, c@, v), x));
        lemma_mex_unique(blocked(graph@, c@, v), x, m);
    }
    x
}

/// Takes the colours out of a partial colouring in which every vertex has one.
pub(crate) fn unwrap_coloring(c: &Vec<Option<usize>>) -> (coloring: Coloring)
    requires
        forall|i: int| 0 <= i < c@.len() ==> #[trigger] c@[i] is Some,
    ensures
        coloring@ == complete_coloring(c@),
{
    let mut coloring: Coloring = Vec::new();
    let mut i: usize = 0;
    while i < c.len()
        invariant
            i <= c.len(),
            forall|k: int| 0 <= k < c@.len() ==> #[trigger] c@[k] is Some,
            coloring@.len() == i,
            forall|k: int| 0 <= k < i ==> coloring@[k] == c@[k]->0,
        decreases c.len() - i,
    {
        match c[i] {
            Some(x) => coloring.push(x),
            None => {},
        }
        i += 1;
    }
    assert(coloring@ =~= complete_coloring(c@));
    coloring
}

/// Greedy colouring: colours the vertices in the sequence given, each with
/// the smallest colour that none of its neighbours has yet.
///
/// The sequence lists every vertex of the graph exactly once.
pub fn greedy_coloring<G: StaticGraph>(graph: &G, vertices: &Vec<usize>) -> (coloring: Coloring)
    requires
        graph.wf(),
        is_permutation(vertices@, graph@.order),
    ensures
        coloring@ == greedy(graph@, vertices@),
        proper(graph@, coloring@),
        palette(coloring@).len() <= graph@.max_degree() + 1,
{
    let n = graph.num_vertices();
    let mut c: Vec<Option<usize>> = vec![None; n];
    proof {
        graph.lemma_view_wf();
        assert(c@ =~= greedy_partial(graph@, vertices@, 0));
        lemma_greedy_partial(graph@, vertices@, 0);
    }
    let mut i: usize = 0;
    while i < vertices.len()
        invariant
            i <= vertices.len(),
            graph.wf(),
            graph@.wf(),
            n == graph@.order,
            is_permutation(vertices@, graph@.order),
            c@ == greedy_partial(graph@, vertices@, i as nat),
            greedy_inv(graph@, vertices@, i as nat, c@),
        decreases vertices.len() - i,
    {
        let v = vertices[i];
        proof {
            assert forall|u: usize| u < graph@.order && #[trigger] c@[u as int] is Some implies c@[u as int]->0
                < graph@.order by {
                graph@.lemma_neighbors(u);
            }
            lemma_greedy_step(graph@, vertices@, i as nat, c@);
        }
        let x = smallest_free_color(graph, &c, v);
        c[v] = Some(x);
        i += 1;
    }
    proof {
        lemma_greedy_done(graph@, vertices@, c@);
    }
    unwrap_coloring(&c)
}

/// Whether `c` is the colouring of `g` along its own vertex order,
/// `0, 1, 2` and so on.
#[verifier::opaque]
pub open spec fn is_rs_coloring(g: GraphView, c: Seq<usize>) -> bool {
    c == greedy(g, Seq::new(g.order, |i: int| i as usize))
}

/// Returns the greedy colouring of the graph in its own vertex order: no
/// sequence is built first.
pub fn rs_coloring<G: StaticGraph>(graph: &G) -> (coloring: Coloring)
    requires
        graph.wf(),
    ensures
        is_rs_coloring(graph@, coloring@),
        proper(graph@, coloring@),
        palette(coloring@).len() <= graph@.max_degree() + 1,
{
    let vs = graph.vertices();
    proof {
        reveal(is_rs_coloring);
        graph.lemma_view_wf();
    }
    greedy_coloring(graph, &vs)
}

} // verus!
