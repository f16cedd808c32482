//! Repair of a colouring with conflicts, and the genetic heuristic built
//! on it.

use std::collections::HashSet;
use vstd::prelude::*;
use crate::graph::{GraphView, StaticGraph};
use crate::graph::model::below;
use crate::coloring::{compatible, num_colors, palette, Coloring};
use crate::coloring::smallest_last::{is_sl_coloring, sl_coloring};
use crate::graph::chance::random_index;
use crate::coloring::theory::{
    is_mex, is_permutation, lemma_mex, lemma_mex_unique, lemma_permutation_covers, mex,
};

verus! {

/// The colours that the neighbours of `v` have in the colouring `c`.
pub open spec fn seen_colors(g: GraphView, c: Seq<usize>, v: usize) -> Set<usize> {
    g.neighbors(v).map(|u: usize| c[u as int])
}

/// The colouring after the conflict on the edge `e`, if there is one, is
/// resolved: each end is offered the smallest colour that none of its
/// neighbours has, and the end with the smaller offer takes it, the
/// larger end of the edge if the offers are equal.
pub open spec fn fix_step(g: GraphView, c: Seq<usize>, e: (usize, usize)) -> Seq<usize> {
    let low = mex(seen_colors(g, c, e.0));
    let high = mex(seen_colors(g, c, e.1));
    if c[e.0 as int] != c[e.1 as int] {
        c
    } else if low < high {
        c.update(e.0 as int, low)
    } else {
        c.update(e.1 as int, high)
    }
}

/// The colouring after the conflicts on the first `k` of the edges are
/// resolved, one edge after the other.
pub open spec fn fix_steps(g: GraphView, c: Seq<usize>, es: Seq<(usize, usize)>, k: nat) -> Seq<usize>
    decreases k,
{
    if k == 0 {
        c
    } else {
        fix_step(g, fix_steps(g, c, es, (k - 1) as nat), es[k - 1])
    }
}

/// Whether `fixed` results from `c` by resolving the conflicts edge by
/// edge, along some enumeration of the edges of `g`.
#[verifier::opaque]
pub open spec fn is_fixed(g: GraphView, c: Seq<usize>, fixed: Seq<usize>) -> bool {
    exists|es: Seq<(usize, usize)>|
        es.no_duplicates() && es.to_set() == g.edges && fixed == #[trigger] fix_steps(
            g,
            c,
            es,
            es.len(),
        )
}

/// The colours around a vertex are fewer than the vertices, so one of the
/// colours below the number of vertices is free.
pub proof fn lemma_seen_colors(g: GraphView, c: Seq<usize>, v: usize)
    requires
        g.wf(),
        g.order <= usize::MAX,
    ensures
        seen_colors(g, c, v).finite(),
        seen_colors(g, c, v).len() <= g.degree(v),
        is_mex(seen_colors(g, c, v), mex(seen_colors(g, c, v))),
        mex(seen_colors(g, c, v)) <= g.degree(v),
{
    g.lemma_neighbors(v);
    vstd::set_lib::lemma_map_size_bound(g.neighbors(v), seen_colors(g, c, v), |u: usize| c[u as int]);
    lemma_mex(seen_colors(g, c, v));
}

/// Returns the smallest colour that no neighbour of `v` has in the
/// colouring `c`.
fn smallest_unseen_color<G: StaticGraph>(graph: &G, c: &Coloring, v: usize) -> (x: usize)
    requires
        graph.wf(),
        compatible(graph@, c@),
        v < graph@.order,
    ensures
        x == mex(seen_colors(graph@, c@, v)),
        x < graph@.order,
{
    let n = graph.num_vertices();
    let ns = graph.neighbors(v);
    let mut colors: HashSet<usize> = HashSet::new();
    proof {
        graph.lemma_view_wf();
        graph@.lemma_neighbors(v);
        lemma_seen_colors(graph@, c@, v);
    }
    let mut j: usize = 0;
    while j < ns.len()
        invariant
            j <= ns@.len(),
            n == graph@.order,
            c@.len() == n,
            ns@.to_set() == graph@.neighbors(v),
            graph@.neighbors(v).subset_of(below(graph@.order)),
            forall|x: usize|
                colors@.contains(x) <==> exists|t: int| 0 <= t < j && #[trigger] c@[ns@[t] as int] == x,
        decreases ns.len() - j,
    {
        let u = ns[j];
        assert(ns@.to_set().contains(ns@[j as int]));
        let ghost before = colors@;
        colors.insert(c[u]);
        proof {
            assert forall|x: usize|
                colors@.contains(x) <==> exists|t: int|
                    0 <= t < j + 1 && #[trigger] c@[ns@[t] as int] == x by {
                if colors@.contains(x) {
                    if before.contains(x) {
                        let t = choose|t: int| 0 <= t < j && #[trigger] c@[ns@[t] as int] == x;
                        assert(0 <= t < j + 1 && c@[ns@[t] as int] == x);
                    } else {
                        assert(c@[ns@[j as int] as int] == x);
                    }
                }
                if exists|t: int| 0 <= t < j + 1 && #[trigger] c@[ns@[t] as int] == x {
                    let t = choose|t: int| 0 <= t < j + 1 && #[trigger] c@[ns@[t] as int] == x;
                    if t < j {
                        assert(before.contains(x));
                    }
                }
            }
        }
        j += 1;
    }
    proof {
        assert forall|x: usize| colors@.contains(x) <==> seen_colors(graph@, c@, v).contains(x) by {
            if colors@.contains(x) {
                let t = choose|t: int| 0 <= t < ns@.len() && #[trigger] c@[ns@[t] as int] == x;
                assert(ns@.to_set().contains(ns@[t]));
                assert(graph@.neighbors(v).contains(ns@[t]));
            }
            if seen_colors(graph@, c@, v).contains(x) {
                let u = choose|u: usize| graph@.neighbors(v).contains(u) && x == c@[u as int];
                assert(ns@.to_set().contains(u));
                let t = choose|t: int| 0 <= t < ns@.len() && ns@[t] == u;
                assert(c@[ns@[t] as int] == x);
            }
        }
        assert(colors@ =~= seen_colors(graph@, c@, v));
    }
    let ghost m = mex(seen_colors(graph@, c@, v));
    let mut x: usize = 0;
    while x < n && colors.contains(&x)
        invariant
            x <= n,
            forall|k: usize| k < x ==> colors@.contains(k),
        decreases n - x,
    {
        x += 1;
    }
    proof {
        assert(m < n);
        if x > m {
            assert(colors@.contains(m));
        }
        assert(is_mex(seen_colors(graph@, c@, v), x));
        lemma_mex_unique(seen_colors(graph@, c@, v), x, m);
    }
    x
}

/// Fixes a colouring that may have conflicts: for each edge in turn whose
/// ends share a colour, one end takes the smallest colour that none of
/// its neighbours has. The colouring need not be proper afterwards.
pub fn fix_coloring<G: StaticGraph>(g: &G, c: &mut Coloring)
    requires
        g.wf(),
        compatible(g@, old(c)@),
    ensures
        compatible(g@, final(c)@),
        is_fixed(g@, old(c)@, final(c)@),
{
    let es = g.edges();
    let ghost start = c@;
    proof {
        reveal(is_fixed);
        g.lemma_view_wf();
        assert forall|i: int| 0 <= i < es@.len() implies g@.edges.contains(#[trigger] es@[i]) by {
            assert(es@.to_set().contains(es@[i]));
        }
    }
    let mut i: usize = 0;
    while i < es.len()
        invariant
            g.wf(),
            g@.wf(),
            i <= es@.len(),
            start.len() == g@.order,
            forall|i: int| 0 <= i < es@.len() ==> g@.edges.contains(#[trigger] es@[i]),
            c@ == fix_steps(g@, start, es@, i as nat),
            c@.len() == g@.order,
        decreases es.len() - i,
    {
        let (u, v) = es[i];
        assert(g@.edges.contains(es@[i as int]));
        if c[u] == c[v] {
            let min_u_color = smallest_unseen_color(g, c, u);
            let min_v_color = smallest_unseen_color(g, c, v);
            if min_u_color < min_v_color {
                c[u] = min_u_color;
            } else {
                c[v] = min_v_color;
            }
        }
        i += 1;
    }
}

/// The colouring that has the colours of `mom` before position `split`
/// and those of `dad` from there on.
pub open spec fn crossed(mom: Seq<usize>, dad: Seq<usize>, split: int) -> Seq<usize> {
    Seq::new(mom.len(), |j: int| if j < split { mom[j] } else { dad[j] })
}

/// Returns the colouring that takes its colours before position `split`
/// from `mom` and the others from `dad`.
pub fn crossover(mom: &Coloring, dad: &Coloring, split: usize) -> (child: Coloring)
    requires
        mom@.len() == dad@.len(),
    ensures
        child@ == crossed(mom@, dad@, split as int),
{
    let mut child: Coloring = Vec::new();
    let mut j: usize = 0;
    while j < mom.len()
        invariant
            j <= mom@.len(),
            mom@.len() == dad@.len(),
            child@.len() == j,
            forall|t: int| 0 <= t < j ==> child@[t] == crossed(mom@, dad@, split as int)[t],
        decreases mom.len() - j,
    {
        if j < split {
            child.push(mom[j]);
        } else {
            child.push(dad[j]);
        }
        j += 1;
    }
    assert(child@ =~= crossed(mom@, dad@, split as int));
    child
}

/// The colourings by their views.
pub open spec fn views(colorings: Seq<Coloring>) -> Seq<Seq<usize>> {
    colorings.map_values(|c: Coloring| c@)
}

/// Whether the colouring at position `s` may stand before the one at
/// position `t`: it uses fewer colours, or as many and came from an
/// earlier position.
pub open spec fn in_order(sorted: Seq<Seq<usize>>, from: Seq<usize>, s: int, t: int) -> bool {
    palette(sorted[s]).len() < palette(sorted[t]).len() || (palette(sorted[s]).len() == palette(
        sorted[t],
    ).len() && from[s] < from[t])
}

/// Whether `sorted` holds the colourings of `given` in the order of the
/// number of colours they use, those with the same number in the order
/// they had: `from` says where in `given` each one stood.
pub open spec fn is_sorted_by_colors(
    given: Seq<Seq<usize>>,
    sorted: Seq<Seq<usize>>,
    from: Seq<usize>,
) -> bool {
    &&& sorted.len() == given.len()
    &&& is_permutation(from, given.len())
    &&& forall|t: int| 0 <= t < sorted.len() ==> sorted[t] == given[#[trigger] from[t] as int]
    &&& forall|s: int, t: int| 0 <= s < t < sorted.len() ==> #[trigger] in_order(sorted, from, s, t)
}

/// Sorts the colourings by the number of colours they use, fewest first;
/// colourings with the same number keep their order.
pub fn sort_by_colors(colorings: &mut Vec<Coloring>)
    ensures
        exists|from: Seq<usize>|
            is_sorted_by_colors(views(old(colorings)@), views(final(colorings)@), from),
{
    let ghost given = views(colorings@);
    let ghost mut from: Seq<usize> = Seq::new(colorings@.len(), |t: int| t as usize);
    let n = colorings.len();
    let mut i: usize = 0;
    while i < n
        invariant
            i <= n,
            n == given.len(),
            colorings@.len() == n,
            from.len() == n,
            from.no_duplicates(),
            forall|t: int| 0 <= t < n ==> views(colorings@)[t] == given[#[trigger] from[t] as int],
            forall|t: int| 0 <= t < i ==> #[trigger] from[t] < i,
            forall|t: int| i <= t < n ==> #[trigger] from[t] == t,
            forall|s: int, t: int|
                0 <= s < t < i ==> #[trigger] in_order(views(colorings@), from, s, t),
        decreases n - i,
    {
        let ghost before = views(colorings@);
        let ghost from_before = from;
        let x = colorings.remove(i);
        let key = num_colors(&x);
        let mut j: usize = i;
        assert(views(colorings@) =~= before.remove(i as int));
        while j > 0 && num_colors(&colorings[j - 1]) > key
            invariant
                j <= i < n,
                before.len() == n,
                colorings@.len() == n - 1,
                key == palette(x@).len(),
                views(colorings@) == before.remove(i as int),
                forall|t: int| j <= t < i ==> palette(#[trigger] before[t]).len() > key,
            decreases j,
        {
            assert(views(colorings@)[j - 1] == colorings@[j - 1]@);
            assert(before.remove(i as int)[j - 1] == before[j - 1]);
            j -= 1;
        }
        proof {
            if j > 0 {
                assert(views(colorings@)[j - 1] == colorings@[j - 1]@);
                assert(before.remove(i as int)[j - 1] == before[j - 1]);
                assert(palette(before[j - 1]).len() <= key);
            }
        }
        colorings.insert(j, x);
        proof {
            from = from_before.remove(i as int).insert(j as int, i);
            let now = views(colorings@);
            assert(now =~= before.remove(i as int).insert(j as int, x@));
            assert(from_before[i as int] == i);
            assert(before[i as int] == x@);
            assert forall|t: int| 0 <= t < n implies now[t] == given[#[trigger] from[t] as int] by {
                if t < j {
                    assert(from[t] == from_before[t]);
                    assert(now[t] == before[t]);
                } else if t == j {
                } else if t <= i {
                    assert(from[t] == from_before[t - 1]);
                    assert(now[t] == before[t - 1]);
                } else {
                    assert(from[t] == from_before[t]);
                    assert(now[t] == before[t]);
                }
            }
            assert forall|a: int, b: int| 0 <= a < b < n implies from[a] != from[b] by {
                let fa = if a < j { a } else if a == j { i as int } else if a <= i { a - 1 } else { a };
                let fb = if b < j { b } else if b == j { i as int } else if b <= i { b - 1 } else { b };
                assert(from[a] == from_before[fa]);
                assert(from[b] == from_before[fb]);
                assert(fa != fb);
            }
            assert forall|t: int| 0 <= t < i + 1 implies #[trigger] from[t] < i + 1 by {
                if t < j {
                    assert(from[t] == from_before[t]);
                } else if t > j {
                    assert(from[t] == from_before[t - 1]);
                }
            }
            assert forall|t: int| i + 1 <= t < n implies #[trigger] from[t] == t by {
                assert(from[t] == from_before[t]);
            }
            assert forall|s: int, t: int| 0 <= s < t < i + 1 implies #[trigger] in_order(
                now,
                from,
                s,
                t,
            ) by {
                let fs = if s < j { s } else if s == j { i as int } else { s - 1 };
                let ft = if t < j { t } else if t == j { i as int } else { t - 1 };
                assert(from[s] == from_before[fs] && now[s] == before[fs]);
                assert(from[t] == from_before[ft] && now[t] == before[ft]);
                if s == j {
                    assert(palette(before[ft]).len() > key);
                } else if t == j {
                    assert(from_before[fs] < i);
                    if j > 0 {
                        assert(palette(before[j - 1]).len() <= key);
                        if s < j - 1 {
                            assert(in_order(before, from_before, s, j - 1));
                        }
                    }
                } else {
                    assert(in_order(before, from_before, fs, ft));
                }
            }
        }
        i += 1;
    }
    proof {
        assert(is_sorted_by_colors(given, views(colorings@), from));
    }
}

/// Returns a colouring bred from smallest-last colourings: over 100
/// generations the better half of 100 colourings is kept, and the other
/// half is replaced by crossings of two of the better ones, cut at a
/// random vertex and repaired.
///
/// The colouring returned uses no more colours than the smallest-last
/// colouring, but a repair can leave conflicts: it need not be proper.
pub fn genetic_coloring<G: StaticGraph>(g: &G) -> (coloring: Coloring)
    requires
        g.wf(),
    ensures
        compatible(g@, coloring@),
        exists|sl: Seq<usize>|
            #[trigger] is_sl_coloring(g@, sl) && palette(coloring@).len() <= palette(sl).len(),
{
    let n: usize = 100;
    let gen: usize = 100;
    let n_vert = g.num_vertices();
    let mut colorings: Vec<Coloring> = Vec::new();
    let first = sl_coloring(g);
    let ghost sl = first@;
    colorings.push(first);
    while colorings.len() < n
        invariant
            g.wf(),
            n == 100,
            0 < colorings@.len() <= n,
            colorings@[0]@ == sl,
            forall|t: int| 0 <= t < colorings@.len() ==> compatible(g@, (#[trigger] colorings@[t])@),
        decreases n - colorings@.len(),
    {
        colorings.push(sl_coloring(g));
    }
    let mut round: usize = 0;
    while round < gen
        invariant
            g.wf(),
            n == 100,
            n_vert == g@.order,
            colorings@.len() == n,
            forall|t: int| 0 <= t < n ==> compatible(g@, (#[trigger] colorings@[t])@),
            exists|t: int| 0 <= t < n && palette((#[trigger] colorings@[t])@).len() <= palette(sl).len(),
            round > 0 ==> palette(colorings@[0]@).len() <= palette(sl).len(),
        decreases gen - round,
    {
        let ghost before = colorings@;
        sort_by_colors(&mut colorings);
        proof {
            let from = choose|from: Seq<usize>|
                is_sorted_by_colors(views(before), views(colorings@), from);
            let t = choose|t: int| 0 <= t < n && palette((#[trigger] before[t])@).len() <= palette(sl).len();
            lemma_permutation_covers(from, n as nat);
            assert(from.contains(t as usize));
            let s = choose|s: int| 0 <= s < from.len() && from[s] == t as usize;
            assert(views(colorings@)[s] == views(before)[from[s] as int]);
            assert(views(colorings@)[0] == views(before)[from[0] as int]);
            if s > 0 {
                assert(in_order(views(colorings@), from, 0, s));
            }
            assert(palette(colorings@[0]@).len() <= palette(colorings@[s]@).len());
            assert forall|t: int| 0 <= t < n implies compatible(g@, (#[trigger] colorings@[t])@) by {
                assert(views(colorings@)[t] == views(before)[from[t] as int]);
                assert(compatible(g@, before[from[t] as int]@));
            }
        }
        let mut i: usize = n / 2;
        while i < n
            invariant
                g.wf(),
                n == 100,
                n_vert == g@.order,
                n / 2 <= i <= n,
                colorings@.len() == n,
                forall|t: int| 0 <= t < n ==> compatible(g@, (#[trigger] colorings@[t])@),
                palette(colorings@[0]@).len() <= palette(sl).len(),
            decreases n - i,
        {
            let mom = random_index(n / 2).unwrap();
            let dad = random_index(n / 2).unwrap();
            let split = match random_index(n_vert) {
                Some(split) => split,
                None => 0,
            };
            assert(compatible(g@, colorings@[mom as int]@));
            assert(compatible(g@, colorings@[dad as int]@));
            let mut child = crossover(&colorings[mom], &colorings[dad], split);
            fix_coloring(g, &mut child);
            colorings[i] = child;
            i += 1;
        }
        round += 1;
    }
    let coloring = colorings.remove(0);
    proof {
        assert(is_sl_coloring(g@, sl));
    }
    coloring
}

} // verus!
