//! Why the connected-sequence heuristic colours a tree with two colours.

use vstd::prelude::*;
use crate::graph::GraphView;
use crate::graph::laws::law_complete_edge_count;
use crate::graph::model::{below, canonical, lemma_below_len};
use crate::coloring::{palette, proper};
use crate::coloring::bipartite::{connected, lemma_component_closed};
use crate::coloring::connected::{follows_neighbor, is_connected_sequence, is_cs_coloring};
use crate::coloring::degeneracy::{
    is_forest, law_path_is_forest, lemma_edge_needs_two_colors, some_left, some_left_below,
};
use crate::coloring::families::{lemma_all_connected, lemma_path_and_cycle, path};
use crate::coloring::smallest_last::remaining_degree;
use crate::coloring::theory::{
    earlier_neighbors, greedy, lemma_greedy_earlier_bound, lemma_greedy_proper,
};

verus! {

/// Whether `g` is a tree: a forest in which every vertex is connected to
/// vertex 0.
pub open spec fn is_tree(g: GraphView) -> bool {
    &&& is_forest(g)
    &&& forall|v: usize| v < g.order ==> #[trigger] connected(g, 0, v)
}

/// The edges of `g` with both ends in `inside`.
pub open spec fn edges_within(g: GraphView, inside: Set<usize>) -> Set<(usize, usize)> {
    g.edges.filter(|e: (usize, usize)| inside.contains(e.0) && inside.contains(e.1))
}

/// A graph has finitely many edges.
pub proof fn lemma_edges_finite(g: GraphView)
    requires
        g.wf(),
        g.order <= usize::MAX,
    ensures
        g.edges.finite(),
{
    law_complete_edge_count(g.order);
    assert(g.edges.subset_of(GraphView::complete(g.order).edges));
    vstd::set_lib::lemma_set_subset_finite(GraphView::complete(g.order).edges, g.edges);
}

/// A vertex that joins a set of vertices brings as many edges with it as
/// it has neighbours in the set.
pub proof fn lemma_edges_within_insert(g: GraphView, inside: Set<usize>, v: usize)
    requires
        g.wf(),
        g.order <= usize::MAX,
        inside.finite(),
        !inside.contains(v),
    ensures
        edges_within(g, inside).finite(),
        edges_within(g, inside.insert(v)).finite(),
        g.neighbors(v).intersect(inside).finite(),
        edges_within(g, inside.insert(v)).len() == edges_within(g, inside).len() + g.neighbors(
            v,
        ).intersect(inside).len(),
{
    lemma_edges_finite(g);
    g.lemma_neighbors(v);
    let old_edges = edges_within(g, inside);
    let new_edges = edges_within(g, inside.insert(v));
    let near = g.neighbors(v).intersect(inside);
    let to_edge = |u: usize| canonical(u, v);
    let star = near.map(to_edge);
    vstd::set_lib::lemma_set_subset_finite(g.edges, old_edges);
    vstd::set_lib::lemma_set_subset_finite(g.edges, new_edges);
    assert(vstd::relations::injective_on(to_edge, near));
    vstd::set_lib::lemma_map_size(near, star, to_edge);
    assert(old_edges.disjoint(star)) by {
        assert forall|e: (usize, usize)| !(old_edges.contains(e) && star.contains(e)) by {
            if star.contains(e) {
                let u = choose|u: usize| near.contains(u) && e == to_edge(u);
            }
        }
    }
    assert(new_edges =~= old_edges + star) by {
        assert forall|e: (usize, usize)| new_edges.contains(e) <==> (old_edges + star).contains(e) by {
            if new_edges.contains(e) && !old_edges.contains(e) {
                let u = if e.0 == v {
                    e.1
                } else {
                    e.0
                };
                assert(g.adjacent(u, v));
                assert(near.contains(u) && e == to_edge(u));
            }
            if star.contains(e) {
                let u = choose|u: usize| near.contains(u) && e == to_edge(u);
                g.lemma_adjacent(u, v);
            }
        }
    }
    vstd::set_lib::lemma_set_disjoint_lens(old_edges, star);
}

/// In a forest, a set of vertices holds fewer edges than vertices.
pub proof fn lemma_forest_edges_within(g: GraphView, inside: Set<usize>)
    requires
        g.wf(),
        g.order <= usize::MAX,
        is_forest(g),
        inside.finite(),
        inside.len() > 0,
        inside.subset_of(below(g.order)),
    ensures
        edges_within(g, inside).finite(),
        edges_within(g, inside).len() + 1 <= inside.len(),
    decreases inside.len(),
{
    let removed = Set::new(|v: usize| !inside.contains(v));
    let any = inside.choose();
    assert(inside.contains(any));
    assert(below(g.order).contains(any));
    assert(any < g.order && !removed.contains(any));
    assert(some_left(g, removed));
    assert(some_left_below(g, removed, 1));
    let v = choose|v: usize|
        v < g.order && !removed.contains(v) && #[trigger] remaining_degree(g, removed, v) <= 1;
    let rest = inside.remove(v);
    g.lemma_neighbors(v);
    assert(g.neighbors(v).difference(removed) =~= g.neighbors(v).intersect(rest));
    assert(inside =~= rest.insert(v));
    lemma_edges_within_insert(g, rest, v);
    if rest.len() == 0 {
        assert(rest =~= Set::<usize>::empty());
        assert(edges_within(g, rest) =~= Set::<(usize, usize)>::empty());
        assert(g.neighbors(v).intersect(rest) =~= Set::<usize>::empty());
    } else {
        lemma_forest_edges_within(g, rest);
    }
}

/// The first `t + 1` vertices of a connected sequence hold at least `t`
/// edges, and in a forest the vertex at position `t` has at most one
/// neighbour before it.
proof fn lemma_one_earlier_neighbor(g: GraphView, order: Seq<usize>, t: int)
    requires
        g.wf(),
        g.order <= usize::MAX,
        is_forest(g),
        is_connected_sequence(g, order, order.len()),
        0 <= t < order.len(),
    ensures
        order.take(t + 1).to_set().finite(),
        order.take(t + 1).to_set().len() == t + 1,
        edges_within(g, order.take(t + 1).to_set()).len() >= t,
        earlier_neighbors(g, order, t).len() <= 1,
    decreases t,
{
    let before = order.take(t);
    let upto = order.take(t + 1);
    let v = order[t];
    assert(upto =~= before.push(v));
    before.lemma_push_to_set_commute(v);
    assert(!before.contains(v)) by {
        if before.contains(v) {
            let s = choose|s: int| 0 <= s < before.len() && before[s] == v;
            assert(order[s] == order[t]);
        }
    }
    assert(upto.no_duplicates());
    upto.unique_seq_to_set();
    before.unique_seq_to_set();
    vstd::seq_lib::seq_to_set_is_finite(before);
    vstd::seq_lib::seq_to_set_is_finite(upto);
    lemma_edges_within_insert(g, before.to_set(), v);
    assert(upto.to_set().subset_of(below(g.order))) by {
        assert forall|u: usize| upto.to_set().contains(u) implies below(g.order).contains(u) by {
            let s = choose|s: int| 0 <= s < upto.len() && upto[s] == u;
            assert(order[s] < g.order);
        }
    }
    lemma_forest_edges_within(g, upto.to_set());
    if t > 0 {
        lemma_one_earlier_neighbor(g, order, t - 1);
        assert(follows_neighbor(g, order, t));
        let j = choose|j: int| 0 <= j < t && #[trigger] g.adjacent(order[j], order[t]);
        assert(before[j] == order[j]);
        assert(earlier_neighbors(g, order, t).contains(order[j]));
        assert(earlier_neighbors(g, order, t).len() >= 1) by {
            if earlier_neighbors(g, order, t).len() == 0 {
                assert(earlier_neighbors(g, order, t) =~= Set::<usize>::empty());
            }
        }
    } else {
        assert(before.to_set() =~= Set::<usize>::empty());
        assert(earlier_neighbors(g, order, t) =~= Set::<usize>::empty());
    }
}

/// The connected-sequence colouring of a tree with an edge is proper and
/// uses exactly two colours.
pub proof fn law_connected_sequence_on_tree(g: GraphView, c: Seq<usize>, e: (usize, usize))
    requires
        g.wf(),
        g.order <= usize::MAX,
        is_tree(g),
        g.edges.contains(e),
        is_cs_coloring(g, c),
    ensures
        proper(g, c),
        palette(c).len() == 2,
{
    reveal(is_cs_coloring);
    let (order, reached) = choose|order: Seq<usize>, reached: nat|
        is_connected_sequence(g, order, reached) && c == greedy(g, order);
    let first = order.take(reached as int);
    let inside = first.to_set();
    assert(first[0] == order[0]);
    assert(inside.contains(0));
    assert forall|u: usize, v: usize| inside.contains(u) && #[trigger] g.adjacent(u, v) implies inside.contains(
        v,
    ) by {
        let j = choose|j: int| 0 <= j < first.len() && first[j] == u;
        assert(g.adjacent(order[j], v));
    }
    assert(below(g.order).subset_of(inside)) by {
        assert forall|v: usize| below(g.order).contains(v) implies inside.contains(v) by {
            assert(connected(g, 0, v));
            lemma_component_closed(g, inside, 0, v);
        }
    }
    lemma_below_len(g.order);
    vstd::seq_lib::seq_to_set_is_finite(first);
    vstd::set_lib::lemma_len_subset(below(g.order), inside);
    first.lemma_cardinality_of_set();
    assert(reached == order.len());
    lemma_greedy_proper(g, order);
    assert forall|j: int| 0 <= j < order.len() implies (#[trigger] earlier_neighbors(g, order, j)).len()
        <= 1 by {
        lemma_one_earlier_neighbor(g, order, j);
    }
    lemma_greedy_earlier_bound(g, order, 1);
    lemma_edge_needs_two_colors(g, c, e);
}

/// A path is a tree.
pub proof fn law_path_is_tree(n: nat)
    requires
        n <= usize::MAX,
    ensures
        is_tree(path(n)),
{
    law_path_is_forest(n);
    lemma_path_and_cycle(n);
    assert forall|v: usize| v < n implies #[trigger] connected(path(n), 0, v) by {
        lemma_all_connected(path(n), v);
    }
}

/// The connected-sequence colouring of a path with at least two vertices
/// uses exactly two colours.
pub proof fn law_connected_sequence_on_path(n: nat, c: Seq<usize>)
    requires
        2 <= n <= usize::MAX,
        is_cs_coloring(path(n), c),
    ensures
        proper(path(n), c),
        palette(c).len() == 2,
{
    lemma_path_and_cycle(n);
    law_path_is_tree(n);
    assert(path(n).edges.contains((0usize, 1usize)));
    law_connected_sequence_on_tree(path(n), c, (0usize, 1usize));
}

} // verus!
