//! What holds of every graph, whatever its representation: the laws of
//! edge insertion and of the complete graph.
//!
//! `add_edge` turns a graph with the view `g` into one with the view
//! `g.with_edge(u, v)` wherever the representation stores the edge,
//! `has_edge` answers `adjacent`, and `edges` enumerates the `edges` of the
//! view without repetition. The laws are stated of these.

use vstd::prelude::*;
use super::model::{
    below, canonical, lemma_below_len, lemma_pairs_below, pairs_below, GraphView,
};

verus! {

/// Inserting an edge between two different vertices joins them, in both
/// directions.
pub proof fn law_inserted_edge_exists(g: GraphView, u: usize, v: usize)
    requires
        u != v,
    ensures
        g.with_edge(u, v).adjacent(u, v),
        g.with_edge(u, v).adjacent(v, u),
{
}

/// Inserting an edge keeps the graph well formed and takes no vertex and
/// no edge away.
pub proof fn law_insertion_only_grows(g: GraphView, u: usize, v: usize)
    requires
        g.wf(),
    ensures
        g.with_edge(u, v).wf(),
        g.with_edge(u, v).order >= g.order,
        g.edges.subset_of(g.with_edge(u, v).edges),
{
}

/// After inserting `{u, v}` two vertices are joined exactly if they were
/// before or are `u` and `v` themselves.
pub proof fn law_insertion_joins_nothing_else(g: GraphView, u: usize, v: usize, a: usize, b: usize)
    ensures
        g.with_edge(u, v).adjacent(a, b) <==> g.adjacent(a, b) || (u != v && canonical(a, b)
            == canonical(u, v)),
{
}

/// A vertex that does not exist is joined to nothing and has no
/// neighbours.
pub proof fn law_nothing_beyond_the_vertices(g: GraphView, u: usize, v: usize)
    requires
        g.wf(),
        g.order <= usize::MAX,
        v >= g.order,
    ensures
        !g.adjacent(u, v),
        !g.adjacent(v, u),
        g.neighbors(v) == Set::<usize>::empty(),
        g.degree(v) == 0,
{
    assert(g.neighbors(v) =~= Set::<usize>::empty());
}

/// Inserting a self-loop leaves the graph as it is, and no vertex of a
/// graph is joined to itself.
pub proof fn law_self_loop_ignored(g: GraphView, u: usize)
    requires
        g.wf(),
    ensures
        g.with_edge(u, u) == g,
        !g.adjacent(u, u),
        !g.with_edge(u, u).adjacent(u, u),
{
}

/// Inserting an edge in either direction gives the same graph.
pub proof fn law_insertion_commutes(g: GraphView, u: usize, v: usize)
    ensures
        g.with_edge(u, v) == g.with_edge(v, u),
{
}

/// Inserting an edge a second time changes nothing: neither the graph nor
/// the number of its edges.
pub proof fn law_insertion_idempotent(g: GraphView, u: usize, v: usize)
    ensures
        g.with_edge(u, v).with_edge(u, v) == g.with_edge(u, v),
        g.with_edge(u, v).with_edge(u, v).edges.len() == g.with_edge(u, v).edges.len(),
{
    let once = g.with_edge(u, v);
    assert(once.with_edge(u, v).edges =~= once.edges);
}

/// An enumeration of the edges without repetition has as many entries as
/// the graph has edges, so two such enumerations of graphs with the same
/// edges agree in length and, as unordered collections, in content.
pub proof fn law_edge_enumerations_agree(
    a: GraphView,
    b: GraphView,
    edges_a: Seq<(usize, usize)>,
    edges_b: Seq<(usize, usize)>,
)
    requires
        a.edges == b.edges,
        edges_a.no_duplicates(),
        edges_a.to_set() == a.edges,
        edges_b.no_duplicates(),
        edges_b.to_set() == b.edges,
    ensures
        edges_a.len() == a.edges.len(),
        edges_b.len() == b.edges.len(),
        edges_a.len() == edges_b.len(),
        edges_a.to_set() == edges_b.to_set(),
{
    edges_a.unique_seq_to_set();
    edges_b.unique_seq_to_set();
}

/// The edges of the complete graph that end in its last vertex.
pub open spec fn last_column(n: nat) -> Set<(usize, usize)> {
    Set::new(|e: (usize, usize)| e.0 < e.1 && e.1 + 1 == n)
}

/// The complete graph on `n` vertices has `n * (n - 1) / 2` edges.
pub proof fn law_complete_edge_count(n: nat)
    requires
        n <= usize::MAX,
    ensures
        GraphView::complete(n).wf(),
        GraphView::complete(n).edges.finite(),
        GraphView::complete(n).edges.len() == pairs_below(n),
        GraphView::complete(n).edges.len() == n * (n - 1) / 2,
    decreases n,
{
    lemma_pairs_below(n);
    if n == 0 {
        assert(GraphView::complete(0).edges =~= Set::<(usize, usize)>::empty());
    } else {
        let m = (n - 1) as nat;
        law_complete_edge_count(m);
        let smaller = GraphView::complete(m).edges;
        let column = last_column(n);
        let pair_up = |a: usize| (a, m as usize);
        lemma_below_len(m);
        assert(below(m).map(pair_up) =~= column) by {
            assert forall|e: (usize, usize)| column.contains(e) implies below(m).map(pair_up).contains(
                e,
            ) by {
                assert(below(m).contains(e.0) && pair_up(e.0) == e);
            }
        }
        assert(vstd::relations::injective_on(pair_up, below(m)));
        vstd::set_lib::lemma_map_size(below(m), column, pair_up);
        assert(smaller.disjoint(column));
        vstd::set_lib::lemma_set_disjoint_lens(smaller, column);
        assert(GraphView::complete(n).edges =~= smaller + column);
    }
}

/// The graph without edges has none, and no two of its vertices are
/// joined.
pub proof fn law_empty_graph(n: nat, u: usize, v: usize)
    ensures
        GraphView::empty(n).wf(),
        GraphView::empty(n).edges.len() == 0,
        !GraphView::empty(n).adjacent(u, v),
{
}

/// In the complete graph every two different vertices are joined.
pub proof fn law_complete_graph(n: nat, u: usize, v: usize)
    requires
        u < n,
        v < n,
        u != v,
    ensures
        GraphView::complete(n).adjacent(u, v),
{
}

} // verus!
