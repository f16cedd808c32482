//! The smallest-last heuristic: greedy colouring in the reverse of the
//! order in which vertices of least remaining degree are eliminated.

use std::collections::HashSet;
use vstd::prelude::*;
use crate::graph::{GraphView, StaticGraph};
use crate::graph::model::{below, lemma_below_len};
use crate::coloring::{palette, proper, Coloring};
use crate::coloring::greedy::greedy_coloring;
use crate::coloring::theory::{distinct_vertices, greedy, is_permutation, lemma_distinct_below};

verus! {

/// The number of neighbours that `v` has outside `removed`.
pub open spec fn remaining_degree(g: GraphView, removed: Set<usize>, v: usize) -> nat {
    g.neighbors(v).difference(removed).len()
}

/// Whether `v` may be eliminated next: among the vertices outside
/// `removed` none has a smaller remaining degree.
pub open spec fn is_next_eliminated(g: GraphView, removed: Set<usize>, v: usize) -> bool {
    &&& v < g.order
    &&& !removed.contains(v)
    &&& forall|w: usize|
        w < g.order && !removed.contains(w) ==> remaining_degree(g, removed, v)
            <= #[trigger] remaining_degree(g, removed, w)
}

/// Whether `k` is an elimination order of `g`: each vertex in it has the
/// least remaining degree once those before it are removed. Of several
/// vertices with the least degree any may come first.
pub open spec fn is_elimination_order(g: GraphView, k: Seq<usize>) -> bool {
    &&& is_permutation(k, g.order)
    &&& forall|i: int|
        0 <= i < k.len() ==> is_next_eliminated(g, k.take(i).to_set(), #[trigger] k[i])
}

/// Whether `c` is a smallest-last colouring of `g`: the greedy colouring
/// along a reversed elimination order.
#[verifier::opaque]
pub open spec fn is_sl_coloring(g: GraphView, c: Seq<usize>) -> bool {
    exists|k: Seq<usize>| is_elimination_order(g, k) && c == greedy(g, k.reverse())
}

/// The number of entries of `s` outside `removed`.
pub open spec fn count_outside(s: Seq<usize>, removed: Set<usize>) -> nat
    decreases s.len(),
{
    if s.len() == 0 {
        0
    } else if removed.contains(s.last()) {
        count_outside(s.drop_last(), removed)
    } else {
        count_outside(s.drop_last(), removed) + 1
    }
}

/// Counting the entries of a duplicate-free sequence outside `removed`
/// gives the size of its set less `removed`.
pub proof fn lemma_count_outside(s: Seq<usize>, removed: Set<usize>)
    requires
        s.no_duplicates(),
    ensures
        count_outside(s, removed) == s.to_set().difference(removed).len(),
        count_outside(s, removed) <= s.len(),
    decreases s.len(),
{
    if s.len() == 0 {
        assert(s.to_set().difference(removed) =~= Set::<usize>::empty());
    } else {
        let r = s.drop_last();
        let x = s.last();
        lemma_count_outside(r, removed);
        assert(s =~= r.push(x));
        r.lemma_push_to_set_commute(x);
        assert(!r.to_set().contains(x)) by {
            if r.contains(x) {
                let t = choose|t: int| 0 <= t < r.len() && r[t] == x;
                assert(s[t] == s[s.len() - 1]);
            }
        }
        vstd::seq_lib::seq_to_set_is_finite(r);
        if removed.contains(x) {
            assert(s.to_set().difference(removed) =~= r.to_set().difference(removed));
        } else {
            assert(s.to_set().difference(removed) =~= r.to_set().difference(removed).insert(x));
        }
    }
}

/// Returns how many neighbours `v` has among the vertices not marked in
/// `k_set`.
fn remaining_degree_of<G: StaticGraph>(graph: &G, k_set: &Vec<bool>, v: usize, Ghost(removed): Ghost<
    Set<usize>,
>) -> (degree: usize)
    requires
        graph.wf(),
        k_set@.len() == graph@.order,
        forall|u: usize| u < graph@.order ==> (#[trigger] k_set@[u as int] <==> removed.contains(u)),
    ensures
        degree == remaining_degree(graph@, removed, v),
        degree < usize::MAX,
{
    let ns = graph.neighbors(v);
    proof {
        graph.lemma_view_wf();
        graph@.lemma_neighbors(v);
    }
    let mut degree: usize = 0;
    let mut j: usize = 0;
    while j < ns.len()
        invariant
            j <= ns@.len(),
            degree <= j,
            degree == count_outside(ns@.take(j as int), removed),
            k_set@.len() == graph@.order,
            ns@.to_set() == graph@.neighbors(v),
            graph@.neighbors(v).subset_of(below(graph@.order)),
            forall|u: usize|
                u < graph@.order ==> (#[trigger] k_set@[u as int] <==> removed.contains(u)),
        decreases ns.len() - j,
    {
        let u = ns[j];
        assert(ns@.to_set().contains(ns@[j as int]));
        assert(ns@.take(j + 1).drop_last() =~= ns@.take(j as int));
        if !k_set[u] {
            degree += 1;
        }
        j += 1;
    }
    proof {
        assert(ns@.take(ns@.len() as int) =~= ns@);
        lemma_count_outside(ns@, removed);
        ns@.unique_seq_to_set();
    }
    degree
}

/// Returns the set of the vertices below `n`.
pub(crate) fn vertex_set(n: usize) -> (set: HashSet<usize>)
    ensures
        set@ == below(n as nat),
        set@.finite(),
        set@.len() == n,
{
    let mut set: HashSet<usize> = HashSet::new();
    let mut v: usize = 0;
    while v < n
        invariant
            v <= n,
            set@ == below(v as nat),
        decreases n - v,
    {
        set.insert(v);
        assert(below((v + 1) as nat) =~= below(v as nat).insert(v));
        v += 1;
    }
    proof {
        lemma_below_len(n as nat);
    }
    set
}

/// Returns an elimination order: a vertex of least degree among those
/// left is removed, again and again, until none is left. Which of several
/// such vertices goes first is up to the order in which a hash set hands
/// out its items.
pub fn elimination_order<G: StaticGraph>(graph: &G) -> (k: Vec<usize>)
    requires
        graph.wf(),
    ensures
        is_elimination_order(graph@, k@),
{
    let n = graph.num_vertices();
    let mut k_set: Vec<bool> = vec![false; n];
    let mut k: Vec<usize> = Vec::with_capacity(n);
    let mut notk = vertex_set(n);
    proof {
        graph.lemma_view_wf();
        assert(k@.to_set() =~= Set::<usize>::empty());
    }
    while k.len() < n
        invariant
            graph.wf(),
            n == graph@.order,
            n <= usize::MAX,
            k_set@.len() == n,
            distinct_vertices(k@, n as nat),
            forall|u: usize| u < n ==> (#[trigger] k_set@[u as int] <==> k@.contains(u)),
            forall|u: usize| #[trigger] notk@.contains(u) <==> u < n && !k@.contains(u),
            forall|i: int|
                0 <= i < k@.len() ==> is_next_eliminated(graph@, k@.take(i).to_set(), #[trigger] k@[i]),
        decreases n - k@.len(),
    {
        let ghost removed = k@.to_set();
        let mut min_d: usize = usize::MAX;
        let mut min_d_idx: usize = 0;
        proof {
            lemma_distinct_below(k@, n as nat);
            let w = choose|w: usize| w < n && !k@.contains(w);
            assert(notk@.contains(w));
        }
        for v in it: notk.iter()
            invariant
                graph.wf(),
                n == graph@.order,
                k_set@.len() == n,
                removed == k@.to_set(),
                it.seq().unref().to_set() == notk@,
                forall|u: usize| u < n ==> (#[trigger] k_set@[u as int] <==> removed.contains(u)),
                forall|u: usize| #[trigger] notk@.contains(u) <==> u < n && !removed.contains(u),
                min_d == usize::MAX ==> it.index() == 0,
                min_d < usize::MAX ==> {
                    &&& notk@.contains(min_d_idx)
                    &&& min_d == remaining_degree(graph@, removed, min_d_idx)
                    &&& forall|i: int|
                        0 <= i < it.index() ==> min_d <= remaining_degree(
                            graph@,
                            removed,
                            #[trigger] it.seq().unref()[i],
                        )
                },
                it.index() == it.seq().len() ==> is_next_eliminated(graph@, removed, min_d_idx),
        {
            assert(notk@.contains(*v)) by {
                let all = it.seq().unref();
                assert(all[it.index() as int] == *v);
                assert(all.to_set().contains(*v));
            }
            // Only look at vertices not in k
            if !k_set[*v] {
                // Look for min degree of vertices not in k
                let degree = remaining_degree_of(graph, &k_set, *v, Ghost(removed));
                if degree < min_d {
                    min_d = degree;
                    min_d_idx = *v;
                }
            }
            assert(min_d <= remaining_degree(graph@, removed, it.seq().unref()[it.index() as int])) by {
                assert(it.seq().unref()[it.index() as int] == *v);
            }
            assert(it.index() + 1 == it.seq().len() ==> is_next_eliminated(
                graph@,
                removed,
                min_d_idx,
            )) by {
                let all = it.seq().unref();
                assert(all[it.index() as int] == *v);
                if it.index() + 1 == all.len() {
                    assert forall|w: usize| w < n && !removed.contains(w) implies min_d
                        <= #[trigger] remaining_degree(graph@, removed, w) by {
                        assert(notk@.contains(w));
                        assert(all.to_set().contains(w));
                        let i = choose|i: int| 0 <= i < all.len() && all[i] == w;
                        assert(min_d <= remaining_degree(graph@, removed, all[i]));
                    }
                }
            }
        }
        let ghost before = k@;
        k.push(min_d_idx);
        k_set[min_d_idx] = true;
        notk.remove(&min_d_idx);
        proof {
            assert(k@ == before.push(min_d_idx));
            assert(k@[before.len() as int] == min_d_idx);
            assert forall|u: usize| #![trigger k@.contains(u)] k@.contains(u) <==> before.contains(u) || u
                == min_d_idx by {
                if before.contains(u) {
                    let t = choose|t: int| 0 <= t < before.len() && before[t] == u;
                    assert(k@[t] == u);
                }
                if k@.contains(u) {
                    let t = choose|t: int| 0 <= t < k@.len() && k@[t] == u;
                    if t < before.len() {
                        assert(before[t] == u);
                    }
                }
            }
            assert forall|i: int| 0 <= i < k@.len() implies is_next_eliminated(
                graph@,
                k@.take(i).to_set(),
                #[trigger] k@[i],
            ) by {
                if i < before.len() {
                    assert(k@.take(i) =~= before.take(i));
                    assert(k@[i] == before[i]);
                } else {
                    assert(k@.take(i) =~= before);
                }
            }
        }
    }
    proof {
        lemma_distinct_below(k@, n as nat);
    }
    k
}

/// Returns the entries of `k` in reverse.
fn reversed(k: &Vec<usize>) -> (order: Vec<usize>)
    ensures
        order@ == k@.reverse(),
{
    let mut order: Vec<usize> = Vec::new();
    let mut i: usize = k.len();
    while i > 0
        invariant
            i <= k@.len(),
            order@.len() == k@.len() - i,
            forall|t: int| 0 <= t < order@.len() ==> order@[t] == k@[k@.len() - 1 - t],
        decreases i,
    {
        i -= 1;
        order.push(k[i]);
    }
    assert(order@ =~= k@.reverse());
    order
}

/// Returns a smallest-last greedy colouring of the graph: the vertices are
/// coloured greedily in the reverse of an elimination order.
pub fn sl_coloring<G: StaticGraph>(graph: &G) -> (coloring: Coloring)
    requires
        graph.wf(),
    ensures
        is_sl_coloring(graph@, coloring@),
        proper(graph@, coloring@),
        palette(coloring@).len() <= graph@.max_degree() + 1,
{
    let k = elimination_order(graph);
    let order = reversed(&k);
    proof {
        reveal(is_sl_coloring);
        let r = k@.reverse();
        assert forall|a: int, b: int| 0 <= a < b < r.len() implies r[a] != r[b] by {
            assert(r[a] == k@[k@.len() - 1 - a]);
            assert(r[b] == k@[k@.len() - 1 - b]);
        }
    }
    greedy_coloring(graph, &order)
}

} // verus!
