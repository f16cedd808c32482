//! What holds of the colourings that the heuristics return, whatever the
//! graph.

use vstd::prelude::*;
use crate::graph::{GraphView, StaticGraph};
use crate::coloring::{check_coloring, num_colors, palette, proper, Coloring};
use crate::coloring::connected::{is_connected_sequence, is_cs_coloring};
use crate::coloring::families::{cycle, law_odd_cycle_three_colors};
use crate::coloring::greedy::is_rs_coloring;
use crate::coloring::largest_first::{is_largest_first, is_lf_coloring};
use crate::coloring::saturation::{is_saturation_order, is_sdo_coloring};
use crate::coloring::smallest_last::{is_elimination_order, is_sl_coloring};
use crate::coloring::theory::{greedy, is_permutation, lemma_greedy_proper};

verus! {

/// The reverse of a permutation of the vertices is one.
pub proof fn lemma_reverse_permutation(order: Seq<usize>, n: nat)
    requires
        is_permutation(order, n),
    ensures
        is_permutation(order.reverse(), n),
{
    let r = order.reverse();
    assert forall|a: int, b: int| 0 <= a < b < r.len() implies r[a] != r[b] by {
        assert(r[a] == order[order.len() - 1 - a]);
        assert(r[b] == order[order.len() - 1 - b]);
    }
    assert forall|i: int| 0 <= i < r.len() implies #[trigger] r[i] < n by {
        assert(r[i] == order[order.len() - 1 - i]);
    }
}

/// Whether `c` is a colouring of `g` by one of the five heuristics.
pub open spec fn is_heuristic_coloring(g: GraphView, c: Seq<usize>) -> bool {
    is_rs_coloring(g, c) || is_cs_coloring(g, c) || is_lf_coloring(g, c) || is_sl_coloring(g, c)
        || is_sdo_coloring(g, c)
}

/// Each of the five heuristics colours greedily along some order of the
/// vertices.
pub proof fn lemma_heuristic_order(g: GraphView, c: Seq<usize>) -> (order: Seq<usize>)
    requires
        g.order <= usize::MAX,
        is_heuristic_coloring(g, c),
    ensures
        is_permutation(order, g.order),
        c == greedy(g, order),
{
    reveal(is_rs_coloring);
    reveal(is_cs_coloring);
    reveal(is_lf_coloring);
    reveal(is_sl_coloring);
    reveal(is_sdo_coloring);
    if is_rs_coloring(g, c) {
        let order = Seq::new(g.order, |i: int| i as usize);
        assert(order.len() == g.order);
        order
    } else if is_cs_coloring(g, c) {
        let (order, reached) = choose|order: Seq<usize>, reached: nat|
            is_connected_sequence(g, order, reached) && c == greedy(g, order);
        order
    } else if is_lf_coloring(g, c) {
        choose|order: Seq<usize>| is_largest_first(g, order) && c == greedy(g, order)
    } else if is_sl_coloring(g, c) {
        let k = choose|k: Seq<usize>| is_elimination_order(g, k) && c == greedy(g, k.reverse());
        lemma_reverse_permutation(k, g.order);
        k.reverse()
    } else {
        choose|order: Seq<usize>| is_saturation_order(g, order) && c == greedy(g, order)
    }
}

/// The colouring of each of the five heuristics is proper, and uses at
/// most one colour more than the largest degree in the graph.
pub proof fn law_heuristics_color_properly(g: GraphView, c: Seq<usize>)
    requires
        g.wf(),
        g.order <= usize::MAX,
        is_heuristic_coloring(g, c),
    ensures
        proper(g, c),
        palette(c).len() <= g.max_degree() + 1,
{
    let order = lemma_heuristic_order(g, c);
    lemma_greedy_proper(g, order);
}

/// On a cycle of odd length each of the five heuristics uses exactly three
/// colours.
pub proof fn law_odd_cycle_heuristics(n: nat, c: Seq<usize>)
    requires
        n >= 3,
        n % 2 == 1,
        n <= usize::MAX,
        is_heuristic_coloring(cycle(n), c),
    ensures
        proper(cycle(n), c),
        palette(c).len() == 3,
{
    let order = lemma_heuristic_order(cycle(n), c);
    law_odd_cycle_three_colors(n, order);
}

/// Checking a colouring twice against the same graph gives the same
/// answer.
pub proof fn law_check_coloring_repeatable<G: StaticGraph>(
    graph: &G,
    coloring: &Coloring,
    first: bool,
    second: bool,
)
    requires
        graph.wf(),
        call_ensures(check_coloring::<G>, (graph, coloring), first),
        call_ensures(check_coloring::<G>, (graph, coloring), second),
    ensures
        first == second,
        first == proper(graph@, coloring@),
{
}

/// Counting the colours of a colouring twice gives the same number.
pub proof fn law_num_colors_repeatable(coloring: &Coloring, first: usize, second: usize)
    requires
        call_ensures(num_colors, (coloring,), first),
        call_ensures(num_colors, (coloring,), second),
    ensures
        first == second,
        first == palette(coloring@).len(),
{
}

} // verus!
