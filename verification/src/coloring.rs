//! Vertex colourings: what makes one valid, how many colours one uses, and
//! the greedy heuristics that produce one.

pub mod bipartite;
pub mod connected;
pub mod degeneracy;
pub mod families;
pub mod greedy;
pub mod largest_first;
pub mod laws;
pub mod repair;
pub mod saturation;
pub mod smallest_last;
pub mod theory;
pub mod trees;

use std::collections::HashSet;
use vstd::prelude::*;
use crate::graph::{GraphView, StaticGraph};

use self::connected::is_cs_coloring;
use self::greedy::is_rs_coloring;
use self::largest_first::is_lf_coloring;
use self::saturation::is_sdo_coloring;
use self::smallest_last::is_sl_coloring;

pub use self::bipartite::two_coloring;
pub use self::connected::cs_coloring;
pub use self::greedy::{greedy_coloring, rs_coloring};
pub use self::largest_first::lf_coloring;
pub use self::repair::{fix_coloring, genetic_coloring};
pub use self::saturation::sdo_coloring;
pub use self::smallest_last::sl_coloring;

verus! {

/// Maps each vertex, by its index, to its colour.
pub type Coloring = Vec<usize>;

/// The colouring heuristics, in the order in which they are tried.
#[derive(Debug, Clone, Copy)]
pub enum ColoringAlgo {
    RS,
    CS,
    LF,
    SL,
    SDO,
}

/// A colouring is compatible with a graph if it has one colour for each vertex.
pub open spec fn compatible(g: GraphView, c: Seq<usize>) -> bool {
    c.len() == g.order
}

/// A colouring is proper if it is compatible and no edge joins two vertices
/// of one colour.
pub open spec fn proper(g: GraphView, c: Seq<usize>) -> bool {
    &&& compatible(g, c)
    &&& forall|e: (usize, usize)| #[trigger]
        g.edges.contains(e) ==> c[e.0 as int] != c[e.1 as int]
}

/// The colours that a colouring uses.
pub open spec fn palette(c: Seq<usize>) -> Set<usize> {
    c.to_set()
}

/// Checks whether the colouring defines a colour for every vertex of the
/// graph, and for nothing else.
pub fn compatible_coloring<G: StaticGraph>(graph: &G, coloring: &Coloring) -> (ok: bool)
    requires
        graph.wf(),
    ensures
        ok == compatible(graph@, coloring@),
{
    graph.num_vertices() == coloring.len()
}

/// Checks whether the colouring is proper: `false` indicates that it is
/// not compatible with the graph or that two adjacent vertices share a
/// colour.
pub fn check_coloring<G: StaticGraph>(graph: &G, coloring: &Coloring) -> (ok: bool)
    requires
        graph.wf(),
    ensures
        ok == proper(graph@, coloring@),
{
    if !compatible_coloring(graph, coloring) {
        return false;
    }
    proof {
        graph.lemma_view_wf();
    }
    let es = graph.edges();
    let mut i: usize = 0;
    while i < es.len()
        invariant
            i <= es.len(),
            graph@.wf(),
            es@.to_set() == graph@.edges,
            coloring@.len() == graph@.order,
            forall|j: int| 0 <= j < i ==> coloring@[es@[j].0 as int] != coloring@[es@[j].1 as int],
        decreases es.len() - i,
    {
        let (u, v) = es[i];
        assert(es@.to_set().contains(es@[i as int]));
        if coloring[u] == coloring[v] {
            return false;
        }
        i += 1;
    }
    assert forall|e: (usize, usize)| #[trigger] graph@.edges.contains(e) implies coloring@[e.0 as int]
        != coloring@[e.1 as int] by {
        assert(es@.to_set().contains(e));
        let j = choose|j: int| 0 <= j < es@.len() && es@[j] == e;
        assert(coloring@[es@[j].0 as int] != coloring@[es@[j].1 as int]);
    }
    true
}

/// Returns the number of distinct colours used in the colouring.
pub fn num_colors(coloring: &Coloring) -> (n: usize)
    ensures
        n == palette(coloring@).len(),
{
    let mut colors: HashSet<usize> = HashSet::new();
    let mut i: usize = 0;
    while i < coloring.len()
        invariant
            i <= coloring.len(),
            colors@ == coloring@.take(i as int).to_set(),
        decreases coloring.len() - i,
    {
        colors.insert(coloring[i]);
        assert(coloring@.take(i + 1) =~= coloring@.take(i as int).push(coloring@[i as int]));
        assert(coloring@.take(i + 1).to_set() =~= coloring@.take(i as int).to_set().insert(
            coloring@[i as int],
        )) by {
            coloring@.take(i as int).lemma_push_to_set_commute(coloring@[i as int]);
        }
        i += 1;
    }
    assert(coloring@.take(coloring.len() as int) =~= coloring@);
    colors.len()
}

/// Whether the candidate at position `i` uses the fewest colours, and is
/// the first to do so.
pub open spec fn is_fewest(candidates: Seq<Seq<usize>>, i: int) -> bool {
    &&& 0 <= i < candidates.len()
    &&& forall|j: int|
        0 <= j < candidates.len() ==> palette(candidates[i]).len() < palette(#[trigger] candidates[j]).len()
            || (palette(candidates[i]).len() == palette(candidates[j]).len() && i <= j)
}

/// Whether the candidates are colourings of `g` by the five heuristics, in
/// the order RS, CS, LF, SL, SDO.
pub open spec fn are_heuristic_colorings(g: GraphView, candidates: Seq<Seq<usize>>) -> bool {
    &&& candidates.len() == 5
    &&& is_rs_coloring(g, candidates[0])
    &&& is_cs_coloring(g, candidates[1])
    &&& is_lf_coloring(g, candidates[2])
    &&& is_sl_coloring(g, candidates[3])
    &&& is_sdo_coloring(g, candidates[4])
}

/// Returns the position of the first colouring that uses the fewest
/// colours.
fn fewest_colors(colorings: &Vec<Coloring>) -> (best: usize)
    requires
        colorings@.len() > 0,
    ensures
        is_fewest(colorings@.map_values(|c: Coloring| c@), best as int),
{
    let ghost candidates = colorings@.map_values(|c: Coloring| c@);
    let mut best: usize = 0;
    let mut fewest: usize = num_colors(&colorings[0]);
    let mut i: usize = 1;
    while i < colorings.len()
        invariant
            0 < i <= colorings@.len(),
            candidates == colorings@.map_values(|c: Coloring| c@),
            best < i,
            fewest == palette(candidates[best as int]).len(),
            forall|j: int|
                0 <= j < i ==> fewest < palette(#[trigger] candidates[j]).len() || (fewest == palette(
                    candidates[j],
                ).len() && best <= j),
        decreases colorings.len() - i,
    {
        let count = num_colors(&colorings[i]);
        assert(candidates[i as int] == colorings@[i as int]@);
        if count < fewest {
            best = i;
            fewest = count;
        }
        i += 1;
    }
    best
}

/// Colours the graph with all five heuristics and returns the colouring
/// that uses the fewest colours, the earliest of several such.
pub fn color<G: StaticGraph>(graph: &G) -> (coloring: Coloring)
    requires
        graph.wf(),
    ensures
        exists|candidates: Seq<Seq<usize>>, i: int|
            are_heuristic_colorings(graph@, candidates) && is_fewest(candidates, i) && coloring@
                == #[trigger] candidates[i],
        proper(graph@, coloring@),
        palette(coloring@).len() <= graph@.max_degree() + 1,
{
    let mut colorings: Vec<Coloring> = Vec::new();
    colorings.push(rs_coloring(graph));
    colorings.push(cs_coloring(graph));
    colorings.push(lf_coloring(graph));
    colorings.push(sl_coloring(graph));
    colorings.push(sdo_coloring(graph));
    let ghost candidates = colorings@.map_values(|c: Coloring| c@);
    let best = fewest_colors(&colorings);
    assert(are_heuristic_colorings(graph@, candidates));
    assert(proper(graph@, candidates[best as int]) && palette(candidates[best as int]).len()
        <= graph@.max_degree() + 1) by {
        if best == 0 {
            assert(candidates[0] == colorings@[0]@);
        } else if best == 1 {
            assert(candidates[1] == colorings@[1]@);
        } else if best == 2 {
            assert(candidates[2] == colorings@[2]@);
        } else if best == 3 {
            assert(candidates[3] == colorings@[3]@);
        } else {
            assert(candidates[4] == colorings@[4]@);
        }
    }
    let coloring = colorings.remove(best);
    assert(coloring@ == candidates[best as int]);
    coloring
}

/// Colours the graph with each of the five heuristics and returns the
/// numbers of colours used, in the order RS, CS, LF, SL, SDO.
pub fn all_colorings<G: StaticGraph>(graph: &G) -> (counts: Vec<usize>)
    requires
        graph.wf(),
    ensures
        exists|candidates: Seq<Seq<usize>>|
            are_heuristic_colorings(graph@, candidates) && counts@.len() == 5 && forall|j: int|
                0 <= j < 5 ==> counts@[j] == palette(#[trigger] candidates[j]).len(),
        forall|j: int| 0 <= j < 5 ==> #[trigger] counts@[j] <= graph@.max_degree() + 1,
{
    let c1 = rs_coloring(graph);
    let c2 = cs_coloring(graph);
    let c3 = lf_coloring(graph);
    let c4 = sl_coloring(graph);
    let c5 = sdo_coloring(graph);
    let n1 = num_colors(&c1);
    let n2 = num_colors(&c2);
    let n3 = num_colors(&c3);
    let n4 = num_colors(&c4);
    let n5 = num_colors(&c5);
    let mut counts: Vec<usize> = Vec::new();
    counts.push(n1);
    counts.push(n2);
    counts.push(n3);
    counts.push(n4);
    counts.push(n5);
    proof {
        let candidates = seq![c1@, c2@, c3@, c4@, c5@];
        assert(are_heuristic_colorings(graph@, candidates));
        assert forall|j: int| 0 <= j < 5 implies counts@[j] == palette(#[trigger] candidates[j]).len() by {
            if j == 0 {
                assert(candidates[0] == c1@);
            } else if j == 1 {
                assert(candidates[1] == c2@);
            } else if j == 2 {
                assert(candidates[2] == c3@);
            } else if j == 3 {
                assert(candidates[3] == c4@);
            } else {
                assert(candidates[4] == c5@);
            }
        }
    }
    counts
}

/// Runs the colouring method `c` on the graph `n` times, and once if `n`
/// is 0, and returns the first colouring among those with the fewest
/// colours. This makes a method that draws on chance more robust.
pub fn repeat_coloring<G: StaticGraph, F: Fn(&G) -> Coloring>(g: &G, c: F, n: usize) -> (best: Coloring)
    requires
        call_requires(c, (g,)),
    ensures
        call_ensures(c, (g,), best),
{
    let mut best_c = c(g);
    let mut nc_best_c = num_colors(&best_c);
    let mut i: usize = 1;
    while i < n
        invariant
            call_requires(c, (g,)),
            call_ensures(c, (g,), best_c),
            nc_best_c == palette(best_c@).len(),
        decreases n - i,
    {
        let new_c = c(g);
        let nc_new_c = num_colors(&new_c);
        if nc_new_c < nc_best_c {
            best_c = new_c;
            nc_best_c = nc_new_c;
        }
        i += 1;
    }
    best_c
}

} // verus!
