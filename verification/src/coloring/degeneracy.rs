//! The bound that degeneracy puts on the smallest-last heuristic, and
//! what follows for forests and paths.

use vstd::prelude::*;
use crate::graph::GraphView;
use crate::graph::model::below;
use crate::coloring::{palette, proper};
use crate::coloring::families::{lemma_path_and_cycle, path};
use crate::coloring::laws::lemma_reverse_permutation;
use crate::coloring::smallest_last::{is_elimination_order, is_sl_coloring, remaining_degree};
use crate::coloring::theory::{
    earlier_neighbors, greedy, is_permutation, lemma_greedy_earlier_bound, lemma_greedy_proper,
    lemma_permutation_covers,
};

verus! {

/// Whether a vertex of `g` is left when those in `removed` are removed.
pub open spec fn some_left(g: GraphView, removed: Set<usize>) -> bool {
    exists|v: usize| v < g.order && !removed.contains(v)
}

/// Whether one of the vertices of `g` left has at most `d` neighbours
/// among those left.
pub open spec fn some_left_below(g: GraphView, removed: Set<usize>, d: nat) -> bool {
    exists|v: usize|
        v < g.order && !removed.contains(v) && #[trigger] remaining_degree(g, removed, v) <= d
}

/// Whether `g` is `d`-degenerate: whatever vertices are removed, one of
/// those left has at most `d` neighbours among those left.
pub open spec fn degenerate(g: GraphView, d: nat) -> bool {
    forall|removed: Set<usize>| #[trigger] some_left(g, removed) ==> some_left_below(g, removed, d)
}

/// Whether `g` is a forest: a graph without cycles, which is one that is
/// 1-degenerate.
pub open spec fn is_forest(g: GraphView) -> bool {
    degenerate(g, 1)
}

/// In the elimination order of a `d`-degenerate graph every vertex has at
/// most `d` neighbours left when it is removed.
proof fn lemma_eliminated_degree(g: GraphView, d: nat, k: Seq<usize>, i: int)
    requires
        degenerate(g, d),
        is_elimination_order(g, k),
        0 <= i < k.len(),
    ensures
        remaining_degree(g, k.take(i).to_set(), k[i]) <= d,
{
    let removed = k.take(i).to_set();
    assert(!removed.contains(k[i])) by {
        if k.take(i).contains(k[i]) {
            let t = choose|t: int| 0 <= t < i && k.take(i)[t] == k[i];
            assert(k[t] == k[i]);
        }
    }
    assert(some_left(g, removed));
    let w = choose|w: usize|
        w < g.order && !removed.contains(w) && #[trigger] remaining_degree(g, removed, w) <= d;
    assert(remaining_degree(g, removed, k[i]) <= remaining_degree(g, removed, w));
}

/// The neighbours that stand before a vertex in the reversed elimination
/// order are the neighbours that were left when it was removed.
proof fn lemma_earlier_are_remaining(g: GraphView, k: Seq<usize>, j: int)
    requires
        g.wf(),
        g.order <= usize::MAX,
        is_permutation(k, g.order),
        0 <= j < k.len(),
    ensures
        k.reverse()[j] == k[k.len() - 1 - j],
        earlier_neighbors(g, k.reverse(), j) == g.neighbors(k.reverse()[j]).difference(
            k.take(k.len() - 1 - j).to_set(),
        ),
{
    let n = k.len() as int;
    let order = k.reverse();
    let v = order[j];
    let gone = k.take(n - 1 - j);
    let removed = gone.to_set();
    let done = order.take(j);
    lemma_permutation_covers(k, g.order);
    g.lemma_neighbors(v);
    assert(v == k[n - 1 - j]);
    assert forall|u: usize|
        earlier_neighbors(g, order, j).contains(u) <==> g.neighbors(v).difference(removed).contains(
            u,
        ) by {
        if g.neighbors(v).contains(u) {
            assert(below(g.order).contains(u));
            assert(k.contains(u));
            let i = choose|i: int| 0 <= i < n && k[i] == u;
            if done.contains(u) {
                let t = choose|t: int| 0 <= t < done.len() && done[t] == u;
                assert(order[t] == k[n - 1 - t]);
                if removed.contains(u) {
                    let s = choose|s: int| 0 <= s < gone.len() && gone[s] == u;
                    assert(k[s] == k[n - 1 - t]);
                }
            } else {
                assert(i != n - 1 - j);
                if i > n - 1 - j {
                    assert(done[n - 1 - i] == k[i]);
                }
                assert(gone[i] == u);
            }
        }
    }
    assert(earlier_neighbors(g, order, j) =~= g.neighbors(v).difference(removed));
}

/// The smallest-last colouring of a `d`-degenerate graph is proper, gives
/// no vertex a colour above `d`, and so uses at most `d + 1` colours.
pub proof fn law_smallest_last_degenerate(g: GraphView, d: nat, c: Seq<usize>)
    requires
        g.wf(),
        g.order <= usize::MAX,
        degenerate(g, d),
        is_sl_coloring(g, c),
    ensures
        proper(g, c),
        forall|v: int| 0 <= v < c.len() ==> #[trigger] c[v] <= d,
        palette(c).len() <= d + 1,
{
    reveal(is_sl_coloring);
    let k = choose|k: Seq<usize>| is_elimination_order(g, k) && c == greedy(g, k.reverse());
    let order = k.reverse();
    let n = k.len() as int;
    lemma_reverse_permutation(k, g.order);
    lemma_greedy_proper(g, order);
    assert forall|j: int| 0 <= j < order.len() implies (#[trigger] earlier_neighbors(g, order, j)).len()
        <= d by {
        lemma_earlier_are_remaining(g, k, j);
        lemma_eliminated_degree(g, d, k, n - 1 - j);
    }
    lemma_greedy_earlier_bound(g, order, d);
}

/// A proper colouring of a graph with an edge uses at least two colours.
pub proof fn lemma_edge_needs_two_colors(g: GraphView, c: Seq<usize>, e: (usize, usize))
    requires
        g.wf(),
        proper(g, c),
        g.edges.contains(e),
    ensures
        palette(c).len() >= 2,
{
    let two = Set::<usize>::empty().insert(c[e.0 as int]).insert(c[e.1 as int]);
    assert(two.subset_of(palette(c))) by {
        assert(palette(c).contains(c[e.0 as int]));
        assert(palette(c).contains(c[e.1 as int]));
    }
    vstd::seq_lib::seq_to_set_is_finite(c);
    vstd::set_lib::lemma_len_subset(two, palette(c));
}

/// The smallest-last colouring of a forest with an edge uses exactly two
/// colours.
pub proof fn law_smallest_last_on_forest(g: GraphView, c: Seq<usize>, e: (usize, usize))
    requires
        g.wf(),
        g.order <= usize::MAX,
        is_forest(g),
        g.edges.contains(e),
        is_sl_coloring(g, c),
    ensures
        proper(g, c),
        palette(c).len() == 2,
{
    law_smallest_last_degenerate(g, 1, c);
    lemma_edge_needs_two_colors(g, c, e);
}

/// Returns the largest vertex below `n` that is not removed.
proof fn lemma_largest_left(removed: Set<usize>, n: nat) -> (v: usize)
    requires
        n <= usize::MAX,
        exists|w: usize| w < n && !removed.contains(w),
    ensures
        v < n,
        !removed.contains(v),
        forall|w: usize| v < w < n ==> removed.contains(w),
    decreases n,
{
    let last = (n - 1) as usize;
    if removed.contains(last) {
        let w = choose|w: usize| w < n && !removed.contains(w);
        assert(w < n - 1);
        lemma_largest_left(removed, (n - 1) as nat)
    } else {
        last
    }
}

/// A path is a forest.
pub proof fn law_path_is_forest(n: nat)
    requires
        n <= usize::MAX,
    ensures
        is_forest(path(n)),
{
    let g = path(n);
    assert forall|removed: Set<usize>| #[trigger] some_left(g, removed) implies some_left_below(
        g,
        removed,
        1,
    ) by {
        let v = lemma_largest_left(removed, n);
        let left = g.neighbors(v).difference(removed);
        let before = Set::<usize>::empty().insert((v - 1) as usize);
        assert(left.subset_of(before)) by {
            assert forall|u: usize| left.contains(u) implies before.contains(u) by {
                if g.edges.contains((v, u)) {
                    assert(u == v + 1);
                }
            }
        }
        vstd::set_lib::lemma_len_subset(left, before);
        assert(remaining_degree(g, removed, v) <= 1);
    }
}

/// The smallest-last colouring of a path with at least two vertices uses
/// exactly two colours.
pub proof fn law_smallest_last_on_path(n: nat, c: Seq<usize>)
    requires
        2 <= n <= usize::MAX,
        is_sl_coloring(path(n), c),
    ensures
        proper(path(n), c),
        palette(c).len() == 2,
{
    lemma_path_and_cycle(n);
    law_path_is_forest(n);
    assert(path(n).edges.contains((0usize, 1usize)));
    law_smallest_last_on_forest(path(n), c, (0usize, 1usize));
}

} // verus!
