//! Paths and cycles, and what the colouring procedures make of them.

use vstd::prelude::*;
use crate::graph::GraphView;
use crate::coloring::{palette, proper};
use crate::coloring::bipartite::{
    component_bipartite, connected, is_two_coloring, lemma_connected_self, lemma_connected_step,
    two_colors_component,
};
use crate::coloring::theory::{greedy, is_permutation, lemma_greedy_proper};

verus! {

/// The path on `n` vertices: each vertex is joined to the next.
pub open spec fn path(n: nat) -> GraphView {
    GraphView { order: n, edges: Set::new(|e: (usize, usize)| e.0 + 1 == e.1 && e.1 < n) }
}

/// The cycle on `n` vertices: each vertex is joined to the next, and the
/// last to the first.
pub open spec fn cycle(n: nat) -> GraphView {
    GraphView {
        order: n,
        edges: Set::new(
            |e: (usize, usize)| e.0 < e.1 < n && (e.0 + 1 == e.1 || (e.0 == 0 && e.1 + 1 == n)),
        ),
    }
}

/// Whether every vertex of `g` is joined to the next.
pub open spec fn has_path(g: GraphView) -> bool {
    forall|i: usize| 0 < i < g.order ==> #[trigger] g.adjacent((i - 1) as usize, i)
}

/// Paths and cycles are well formed, and join every vertex to the next.
pub proof fn lemma_path_and_cycle(n: nat)
    ensures
        path(n).wf(),
        cycle(n).wf(),
        has_path(path(n)),
        has_path(cycle(n)),
{
    assert forall|i: usize| 0 < i < n implies #[trigger] path(n).adjacent((i - 1) as usize, i) by {
        assert(path(n).edges.contains(((i - 1) as usize, i)));
    }
    assert forall|i: usize| 0 < i < n implies #[trigger] cycle(n).adjacent((i - 1) as usize, i) by {
        assert(cycle(n).edges.contains(((i - 1) as usize, i)));
    }
}

/// Where every vertex is joined to the next, every vertex is connected to
/// vertex 0.
pub proof fn lemma_all_connected(g: GraphView, v: usize)
    requires
        has_path(g),
        v < g.order,
    ensures
        connected(g, 0, v),
    decreases v,
{
    if v == 0 {
        lemma_connected_self(g, 0);
    } else {
        lemma_all_connected(g, (v - 1) as usize);
        assert(g.adjacent((v - 1) as usize, v));
        lemma_connected_step(g, 0, (v - 1) as usize, v);
    }
}

/// A two-colouring of the vertices connected to vertex 0 gives a vertex on
/// a path from vertex 0 the colour of vertex 0 exactly if it stands at an
/// even place.
proof fn lemma_colors_alternate(g: GraphView, f: Seq<usize>, v: usize)
    requires
        has_path(g),
        two_colors_component(g, f),
        v < g.order,
    ensures
        f[v as int] == f[0] <==> v % 2 == 0,
    decreases v,
{
    lemma_all_connected(g, 0);
    lemma_all_connected(g, v);
    if v > 0 {
        let u = (v - 1) as usize;
        lemma_colors_alternate(g, f, u);
        lemma_all_connected(g, u);
        assert(g.adjacent(u, v));
    }
}

/// The vertices of a cycle of even length can be coloured with two
/// colours.
pub proof fn lemma_even_cycle_bipartite(n: nat)
    requires
        n % 2 == 0,
        n <= usize::MAX,
    ensures
        component_bipartite(cycle(n)),
{
    let f = Seq::new(n, |i: int| (i % 2) as usize);
    assert forall|u: usize, v: usize| #[trigger]
        cycle(n).adjacent(u, v) && connected(cycle(n), 0, u) implies f[u as int] != f[v as int] by {
        if cycle(n).edges.contains((u, v)) {
        } else {
            assert(cycle(n).edges.contains((v, u)));
        }
    }
    assert(two_colors_component(cycle(n), f));
}

/// The vertices of a cycle of odd length cannot be coloured with two
/// colours.
pub proof fn lemma_odd_cycle_not_bipartite(n: nat)
    requires
        n % 2 == 1,
        n >= 3,
        n <= usize::MAX,
    ensures
        !component_bipartite(cycle(n)),
{
    lemma_path_and_cycle(n);
    assert forall|f: Seq<usize>| !two_colors_component(cycle(n), f) by {
        if two_colors_component(cycle(n), f) {
            let last = (n - 1) as usize;
            lemma_colors_alternate(cycle(n), f, last);
            lemma_all_connected(cycle(n), 0);
            assert(cycle(n).edges.contains((0, last)));
            assert(cycle(n).adjacent(0, last));
        }
    }
}

/// On a cycle of even length the two-colouring procedure succeeds, and
/// what it returns is a proper colouring with exactly two colours.
pub proof fn law_even_cycle_two_coloring(n: nat, result: Option<Seq<usize>>)
    requires
        n >= 3,
        n % 2 == 0,
        n <= usize::MAX,
        match result {
            Some(c) => is_two_coloring(cycle(n), c),
            None => !component_bipartite(cycle(n)),
        },
    ensures
        result is Some,
        proper(cycle(n), result->0),
        palette(result->0) == set![0usize, 1usize],
        palette(result->0).len() == 2,
{
    lemma_even_cycle_bipartite(n);
    lemma_path_and_cycle(n);
    let g = cycle(n);
    let c = result->0;
    assert forall|e: (usize, usize)| #[trigger] g.edges.contains(e) implies c[e.0 as int] != c[e.1 as int] by {
        lemma_all_connected(g, e.0);
        assert(g.adjacent(e.0, e.1));
    }
    lemma_two_colors(g, c);
}

/// A two-colouring of a graph that joins every vertex to the next uses the
/// colours 0 and 1, and both if there are two vertices.
proof fn lemma_two_colors(g: GraphView, c: Seq<usize>)
    requires
        has_path(g),
        g.order >= 2,
        g.order <= usize::MAX,
        is_two_coloring(g, c),
    ensures
        palette(c) == set![0usize, 1usize],
        palette(c).len() == 2,
{
    lemma_all_connected(g, 0);
    lemma_all_connected(g, 1);
    let second: usize = 1;
    assert(g.adjacent((second - 1) as usize, second));
    assert(c[0] == 0 && c[1] == 1);
    assert forall|x: usize| palette(c).contains(x) <==> set![0usize, 1usize].contains(x) by {
        if palette(c).contains(x) {
            let i = choose|i: int| 0 <= i < c.len() && c[i] == x;
            lemma_all_connected(g, i as usize);
        }
        if x == 0 {
            assert(c[0] == x);
        }
        if x == 1 {
            assert(c[1] == x);
        }
    }
    assert(palette(c) =~= set![0usize, 1usize]);
    assert(set![0usize, 1usize] =~= Set::<usize>::empty().insert(0).insert(1));
}

/// On a cycle of odd length the two-colouring procedure returns nothing.
pub proof fn law_odd_cycle_no_two_coloring(n: nat, result: Option<Seq<usize>>)
    requires
        n >= 3,
        n % 2 == 1,
        n <= usize::MAX,
        match result {
            Some(c) => is_two_coloring(cycle(n), c),
            None => !component_bipartite(cycle(n)),
        },
    ensures
        result is None,
{
    lemma_odd_cycle_not_bipartite(n);
}

/// On a path the two-colouring procedure succeeds, and what it returns is
/// a proper colouring, with exactly two colours if the path has an edge.
pub proof fn law_path_two_coloring(n: nat, result: Option<Seq<usize>>)
    requires
        n <= usize::MAX,
        match result {
            Some(c) => is_two_coloring(path(n), c),
            None => !component_bipartite(path(n)),
        },
    ensures
        result is Some,
        proper(path(n), result->0),
        n >= 2 ==> palette(result->0).len() == 2,
{
    lemma_path_and_cycle(n);
    let g = path(n);
    let f = Seq::new(n, |i: int| (i % 2) as usize);
    assert forall|u: usize, v: usize| #[trigger]
        g.adjacent(u, v) && connected(g, 0, u) implies f[u as int] != f[v as int] by {
        if g.edges.contains((u, v)) {
        } else {
            assert(g.edges.contains((v, u)));
        }
    }
    assert(two_colors_component(g, f));
    let c = result->0;
    assert forall|e: (usize, usize)| #[trigger] g.edges.contains(e) implies c[e.0 as int] != c[e.1 as int] by {
        lemma_all_connected(g, e.0);
        assert(g.adjacent(e.0, e.1));
    }
    if n >= 2 {
        lemma_two_colors(g, c);
    }
}

/// A proper colouring with at most two colours shows that the vertices
/// connected to vertex 0 can be coloured with two.
pub proof fn lemma_two_colors_suffice(g: GraphView, c: Seq<usize>)
    requires
        g.wf(),
        proper(g, c),
        palette(c).len() <= 2,
    ensures
        component_bipartite(g),
{
    let f = Seq::new(g.order, |i: int| if c[i] == c[0] { 0usize } else { 1usize });
    assert forall|u: usize, v: usize| #[trigger]
        g.adjacent(u, v) && connected(g, 0, u) implies f[u as int] != f[v as int] by {
        g.lemma_adjacent(u, v);
        let e = crate::graph::model::canonical(u, v);
        assert(g.edges.contains(e));
        assert(c[u as int] != c[v as int]);
        if c[u as int] != c[0] && c[v as int] != c[0] {
            let three = Set::<usize>::empty().insert(c[0]).insert(c[u as int]).insert(c[v as int]);
            assert(three.subset_of(palette(c))) by {
                assert(palette(c).contains(c[0]));
                assert(palette(c).contains(c[u as int]));
                assert(palette(c).contains(c[v as int]));
            }
            vstd::seq_lib::seq_to_set_is_finite(c);
            vstd::set_lib::lemma_len_subset(three, palette(c));
        }
    }
    assert(two_colors_component(g, f));
}

/// No vertex of a cycle has more than two neighbours.
pub proof fn lemma_cycle_degree(n: nat)
    requires
        n <= usize::MAX,
    ensures
        cycle(n).max_degree() <= 2,
{
    let g = cycle(n);
    assert forall|v: usize| v < n implies #[trigger] g.degree(v) <= 2 by {
        let before = if v == 0 { (n - 1) as usize } else { (v - 1) as usize };
        let after = if v + 1 == n { 0usize } else { (v + 1) as usize };
        let both = Set::<usize>::empty().insert(before).insert(after);
        assert(g.neighbors(v).subset_of(both));
        vstd::set_lib::lemma_len_subset(g.neighbors(v), both);
    }
    g.lemma_max_degree_below(n);
}

/// On a cycle of odd length, greedy colouring along any order of the
/// vertices uses exactly three colours. So does every one of the five
/// heuristics.
pub proof fn law_odd_cycle_three_colors(n: nat, order: Seq<usize>)
    requires
        n >= 3,
        n % 2 == 1,
        n <= usize::MAX,
        is_permutation(order, n),
    ensures
        proper(cycle(n), greedy(cycle(n), order)),
        palette(greedy(cycle(n), order)).len() == 3,
{
    let g = cycle(n);
    lemma_path_and_cycle(n);
    lemma_greedy_proper(g, order);
    lemma_cycle_degree(n);
    lemma_odd_cycle_not_bipartite(n);
    if palette(greedy(g, order)).len() <= 2 {
        lemma_two_colors_suffice(g, greedy(g, order));
    }
}

} // verus!
