//! The mathematics of greedy colouring: the smallest free colour, the
//! colouring that a vertex order determines, and why it is proper.

use vstd::prelude::*;
use crate::graph::GraphView;
use crate::graph::model::{below, lemma_below_len};
use crate::coloring::{palette, proper};

verus! {

/// Whether `m` is the smallest number that is not in `s`.
pub open spec fn is_mex(s: Set<usize>, m: usize) -> bool {
    !s.contains(m) && forall|k: usize| k < m ==> s.contains(k)
}

/// The smallest number that is not in `s`.
pub open spec fn mex(s: Set<usize>) -> usize {
    choose|m: usize| is_mex(s, m)
}

proof fn lemma_mex_search(s: Set<usize>, k: usize) -> (m: usize)
    requires
        s.finite(),
        s.len() < usize::MAX,
        forall|j: usize| j < k ==> s.contains(j),
    ensures
        is_mex(s, m),
        m <= s.len(),
    decreases s.len() - k,
{
    lemma_below_len(k as nat);
    assert(below(k as nat).subset_of(s));
    vstd::set_lib::lemma_len_subset(below(k as nat), s);
    if s.contains(k) {
        lemma_below_len((k + 1) as nat);
        assert(below((k + 1) as nat).subset_of(s));
        vstd::set_lib::lemma_len_subset(below((k + 1) as nat), s);
        lemma_mex_search(s, (k + 1) as usize)
    } else {
        k
    }
}

/// A finite set misses some number, the smallest of which is at most its size.
pub proof fn lemma_mex(s: Set<usize>)
    requires
        s.finite(),
        s.len() < usize::MAX,
    ensures
        is_mex(s, mex(s)),
        mex(s) <= s.len(),
{
    let m = lemma_mex_search(s, 0);
    lemma_mex_unique(s, m, mex(s));
}

/// The smallest missing number is unique.
pub proof fn lemma_mex_unique(s: Set<usize>, a: usize, b: usize)
    requires
        is_mex(s, a),
        is_mex(s, b),
    ensures
        a == b,
{
    if a < b {
        assert(s.contains(a));
    } else if b < a {
        assert(s.contains(b));
    }
}

/// The neighbours of `v` that have a colour in the partial colouring.
pub open spec fn colored_neighbors(g: GraphView, partial: Seq<Option<usize>>, v: usize) -> Set<
    usize,
> {
    g.neighbors(v).filter(|u: usize| u < partial.len() && partial[u as int] is Some)
}

/// The colours that the neighbours of `v` have in the partial colouring.
pub open spec fn blocked(g: GraphView, partial: Seq<Option<usize>>, v: usize) -> Set<usize> {
    colored_neighbors(g, partial, v).map(|u: usize| partial[u as int]->0)
}

/// The partial colouring after `v` has taken the smallest colour that none
/// of its neighbours has.
pub open spec fn greedy_step(g: GraphView, partial: Seq<Option<usize>>, v: usize) -> Seq<
    Option<usize>,
> {
    partial.update(v as int, Some(mex(blocked(g, partial, v))))
}

/// The partial colouring after the first `k` vertices of `order` have been
/// coloured greedily, one after the other.
pub open spec fn greedy_partial(g: GraphView, order: Seq<usize>, k: nat) -> Seq<Option<usize>>
    decreases k,
{
    if k == 0 {
        Seq::new(g.order, |i: int| None)
    } else {
        greedy_step(g, greedy_partial(g, order, (k - 1) as nat), order[k - 1])
    }
}

/// The colours of a partial colouring in which every vertex has one.
pub open spec fn complete_coloring(partial: Seq<Option<usize>>) -> Seq<usize> {
    Seq::new(partial.len(), |i: int| partial[i]->0)
}

/// The colouring that results from colouring the vertices greedily in the
/// given order.
pub open spec fn greedy(g: GraphView, order: Seq<usize>) -> Seq<usize> {
    complete_coloring(greedy_partial(g, order, order.len()))
}

/// Whether `order` lists vertices below `n`, none of them twice.
pub open spec fn distinct_vertices(order: Seq<usize>, n: nat) -> bool {
    &&& order.no_duplicates()
    &&& forall|i: int| 0 <= i < order.len() ==> #[trigger] order[i] < n
}

/// Whether `order` lists each of the vertices below `n` exactly once.
pub open spec fn is_permutation(order: Seq<usize>, n: nat) -> bool {
    &&& order.len() == n
    &&& distinct_vertices(order, n)
}

/// What holds of a partial colouring while the vertices of `order` are
/// coloured one by one: exactly the first `k` have a colour, no two
/// adjacent ones share theirs, and no colour exceeds the vertex's degree.
pub open spec fn greedy_inv(g: GraphView, order: Seq<usize>, k: nat, partial: Seq<Option<usize>>) -> bool {
    &&& partial.len() == g.order
    &&& forall|v: usize|
        v < g.order ==> (#[trigger] partial[v as int] is Some <==> order.take(k as int).contains(v))
    &&& forall|e: (usize, usize)| #[trigger]
        g.edges.contains(e) && partial[e.0 as int] is Some && partial[e.1 as int] is Some
            ==> partial[e.0 as int] != partial[e.1 as int]
    &&& forall|v: usize|
        v < g.order && #[trigger] partial[v as int] is Some ==> partial[v as int]->0 <= g.degree(v)
}

/// The colours around a vertex are finite in number, no more than its
/// degree, so the smallest free colour is at most its degree.
pub proof fn lemma_blocked(g: GraphView, partial: Seq<Option<usize>>, v: usize)
    requires
        g.wf(),
        g.order <= usize::MAX,
    ensures
        blocked(g, partial, v).finite(),
        colored_neighbors(g, partial, v).finite(),
        blocked(g, partial, v).len() <= colored_neighbors(g, partial, v).len(),
        blocked(g, partial, v).len() <= g.degree(v),
        is_mex(blocked(g, partial, v), mex(blocked(g, partial, v))),
        mex(blocked(g, partial, v)) <= blocked(g, partial, v).len(),
{
    g.lemma_neighbors(v);
    let pred = |u: usize| u < partial.len() && partial[u as int] is Some;
    g.neighbors(v).lemma_len_filter(pred);
    vstd::set_lib::lemma_map_size_bound(
        colored_neighbors(g, partial, v),
        blocked(g, partial, v),
        |u: usize| partial[u as int]->0,
    );
    lemma_mex(blocked(g, partial, v));
}

/// One greedy step keeps the invariant.
pub proof fn lemma_greedy_step(g: GraphView, order: Seq<usize>, k: nat, partial: Seq<Option<usize>>)
    requires
        g.wf(),
        g.order <= usize::MAX,
        distinct_vertices(order, g.order),
        k < order.len(),
        greedy_inv(g, order, k, partial),
    ensures
        greedy_inv(g, order, k + 1, greedy_step(g, partial, order[k as int])),
{
    let v = order[k as int];
    let next = greedy_step(g, partial, v);
    let m = mex(blocked(g, partial, v));
    lemma_blocked(g, partial, v);
    let before = order.take(k as int);
    let after = order.take(k as int + 1);
    assert(after =~= before.push(v));
    assert(!before.contains(v));
    assert forall|w: usize| w < g.order implies (#[trigger] next[w as int] is Some <==> after.contains(
        w,
    )) by {
        if w != v {
            assert(next[w as int] == partial[w as int]);
            if before.contains(w) {
                let i = choose|i: int| 0 <= i < before.len() && before[i] == w;
                assert(after[i] == w);
            }
            if after.contains(w) {
                let i = choose|i: int| 0 <= i < after.len() && after[i] == w;
                assert(before[i] == w);
            }
        } else {
            assert(after[k as int] == v);
        }
    }
    assert forall|e: (usize, usize)| #[trigger]
        g.edges.contains(e) && next[e.0 as int] is Some && next[e.1 as int] is Some implies next[e.0 as int]
        != next[e.1 as int] by {
        if e.0 == v || e.1 == v {
            let u = if e.0 == v {
                e.1
            } else {
                e.0
            };
            assert(g.adjacent(u, v));
            assert(g.neighbors(v).contains(u));
            assert(colored_neighbors(g, partial, v).contains(u));
            assert(blocked(g, partial, v).contains(partial[u as int]->0));
        }
    }
}

/// Colouring the first `k` vertices of a permutation greedily keeps the
/// invariant.
pub proof fn lemma_greedy_partial(g: GraphView, order: Seq<usize>, k: nat)
    requires
        g.wf(),
        g.order <= usize::MAX,
        distinct_vertices(order, g.order),
        k <= order.len(),
    ensures
        greedy_inv(g, order, k, greedy_partial(g, order, k)),
    decreases k,
{
    if k > 0 {
        lemma_greedy_partial(g, order, (k - 1) as nat);
        lemma_greedy_step(g, order, (k - 1) as nat, greedy_partial(g, order, (k - 1) as nat));
    }
}

/// A partial colouring that satisfies the invariant for a whole
/// permutation is a proper colouring with no colour above the largest
/// degree.
pub proof fn lemma_greedy_done(g: GraphView, order: Seq<usize>, partial: Seq<Option<usize>>)
    requires
        g.wf(),
        g.order <= usize::MAX,
        is_permutation(order, g.order),
        greedy_inv(g, order, order.len(), partial),
    ensures
        forall|v: usize| v < g.order ==> #[trigger] partial[v as int] is Some,
        proper(g, complete_coloring(partial)),
        forall|v: usize|
            v < g.order ==> #[trigger] complete_coloring(partial)[v as int] <= g.degree(v),
        palette(complete_coloring(partial)).len() <= g.max_degree() + 1,
{
    let c = complete_coloring(partial);
    assert(order.take(order.len() as int) =~= order);
    lemma_permutation_covers(order, g.order);
    assert forall|v: usize| v < g.order implies #[trigger] partial[v as int] is Some by {
        assert(order.contains(v));
    }
    assert forall|e: (usize, usize)| #[trigger] g.edges.contains(e) implies c[e.0 as int] != c[e.1 as int] by {
        assert(partial[e.0 as int] is Some);
        assert(partial[e.1 as int] is Some);
    }
    lemma_palette_bound(g, c);
}

/// A colouring in which no colour exceeds `d` uses at most `d + 1`
/// colours.
pub proof fn lemma_palette_below(c: Seq<usize>, d: nat)
    requires
        forall|i: int| 0 <= i < c.len() ==> #[trigger] c[i] <= d,
    ensures
        palette(c).len() <= d + 1,
{
    if d + 1 <= usize::MAX {
        lemma_below_len(d + 1);
        assert forall|x: usize| palette(c).contains(x) implies below(d + 1).contains(x) by {
            let i = choose|i: int| 0 <= i < c.len() && c[i] == x;
            assert(c[i] <= d);
        }
        vstd::set_lib::lemma_len_subset(palette(c), below(d + 1));
    } else {
        lemma_below_len((usize::MAX + 1) as nat);
        assert(palette(c).subset_of(below((usize::MAX + 1) as nat)));
        vstd::set_lib::lemma_len_subset(palette(c), below((usize::MAX + 1) as nat));
    }
}

/// The colour that a vertex takes when its turn comes is the colour it
/// has in the end.
pub proof fn lemma_greedy_color_stays(g: GraphView, order: Seq<usize>, j: nat, m: nat)
    requires
        g.wf(),
        g.order <= usize::MAX,
        distinct_vertices(order, g.order),
        j < m <= order.len(),
    ensures
        greedy_partial(g, order, m)[order[j as int] as int] == Some(
            mex(blocked(g, greedy_partial(g, order, j), order[j as int])),
        ),
    decreases m,
{
    lemma_greedy_partial(g, order, (m - 1) as nat);
    if m > j + 1 {
        lemma_greedy_color_stays(g, order, j, (m - 1) as nat);
    }
}

/// The neighbours of the vertex at position `j` of `order` that stand
/// before it.
pub open spec fn earlier_neighbors(g: GraphView, order: Seq<usize>, j: int) -> Set<usize> {
    g.neighbors(order[j]).intersect(order.take(j).to_set())
}

/// Along an order in which no vertex has more than `d` neighbours before
/// it, greedy colouring gives no vertex a colour above `d`, and so uses at
/// most `d + 1` colours.
pub proof fn lemma_greedy_earlier_bound(g: GraphView, order: Seq<usize>, d: nat)
    requires
        g.wf(),
        g.order <= usize::MAX,
        is_permutation(order, g.order),
        forall|j: int| 0 <= j < order.len() ==> (#[trigger] earlier_neighbors(g, order, j)).len() <= d,
    ensures
        forall|v: int| 0 <= v < g.order ==> #[trigger] greedy(g, order)[v] <= d,
        palette(greedy(g, order)).len() <= d + 1,
{
    let c = greedy(g, order);
    lemma_permutation_covers(order, g.order);
    lemma_greedy_partial(g, order, order.len());
    assert forall|v: int| 0 <= v < g.order implies #[trigger] c[v] <= d by {
        assert(order.contains(v as usize));
        let j = choose|j: int| 0 <= j < order.len() && order[j] == v as usize;
        let partial = greedy_partial(g, order, j as nat);
        lemma_greedy_color_stays(g, order, j as nat, order.len());
        lemma_blocked(g, partial, order[j]);
        lemma_greedy_partial(g, order, j as nat);
        g.lemma_neighbors(order[j]);
        assert(colored_neighbors(g, partial, order[j]) =~= earlier_neighbors(g, order, j)) by {
            assert forall|u: usize|
                colored_neighbors(g, partial, order[j]).contains(u) <==> earlier_neighbors(
                    g,
                    order,
                    j,
                ).contains(u) by {
                if g.neighbors(order[j]).contains(u) {
                    assert(below(g.order).contains(u));
                    assert(partial[u as int] is Some <==> order.take(j).contains(u));
                }
            }
        }
        assert(earlier_neighbors(g, order, j).len() <= d);
    }
    lemma_palette_below(c, d);
}

/// A colouring in which no colour exceeds its vertex's degree uses at most
/// one colour more than the largest degree.
pub proof fn lemma_palette_bound(g: GraphView, c: Seq<usize>)
    requires
        g.order <= usize::MAX,
        c.len() == g.order,
        forall|v: usize| v < g.order ==> #[trigger] c[v as int] <= g.degree(v),
    ensures
        palette(c).len() <= g.max_degree() + 1,
{
    let d = g.max_degree();
    g.lemma_max_degree_below(g.order);
    if d + 1 <= usize::MAX {
        lemma_below_len(d + 1);
        assert forall|x: usize| palette(c).contains(x) implies below(d + 1).contains(x) by {
            let i = choose|i: int| 0 <= i < c.len() && c[i] == x;
            assert(c[i as usize as int] <= g.degree(i as usize));
        }
        vstd::set_lib::lemma_len_subset(palette(c), below(d + 1));
    } else {
        c.lemma_cardinality_of_set();
    }
}

/// A permutation of the vertices below `n` contains each of them.
pub proof fn lemma_permutation_covers(order: Seq<usize>, n: nat)
    requires
        is_permutation(order, n),
        n <= usize::MAX,
    ensures
        forall|v: usize| v < n ==> order.contains(v),
{
    order.unique_seq_to_set();
    lemma_below_len(n);
    assert(order.to_set().subset_of(below(n)));
    vstd::set_lib::lemma_subset_equality(order.to_set(), below(n));
    assert forall|v: usize| v < n implies order.contains(v) by {
        assert(below(n).contains(v));
        assert(order.to_set().contains(v));
    }
}

/// Distinct vertices below `n` are at most `n` in number, and fewer than
/// `n` of them leave one out.
pub proof fn lemma_distinct_below(s: Seq<usize>, n: nat)
    requires
        distinct_vertices(s, n),
        n <= usize::MAX,
    ensures
        s.len() <= n,
        s.len() < n ==> exists|v: usize| v < n && !s.contains(v),
{
    s.unique_seq_to_set();
    lemma_below_len(n);
    assert(s.to_set().subset_of(below(n)));
    vstd::set_lib::lemma_len_subset(s.to_set(), below(n));
    if s.len() < n && forall|v: usize| v < n ==> s.contains(v) {
        assert(s.to_set() =~= below(n));
    }
}

/// The partial colouring after `k` vertices depends on the first `k`
/// entries of the order only.
pub proof fn lemma_greedy_partial_prefix(g: GraphView, a: Seq<usize>, b: Seq<usize>, k: nat)
    requires
        k <= a.len(),
        k <= b.len(),
        a.take(k as int) == b.take(k as int),
    ensures
        greedy_partial(g, a, k) == greedy_partial(g, b, k),
    decreases k,
{
    if k > 0 {
        assert(a.take(k as int - 1) =~= a.take(k as int).take(k as int - 1));
        assert(b.take(k as int - 1) =~= b.take(k as int).take(k as int - 1));
        lemma_greedy_partial_prefix(g, a, b, (k - 1) as nat);
        assert(a[k - 1] == a.take(k as int)[k - 1]);
        assert(b[k - 1] == b.take(k as int)[k - 1]);
    }
}

/// Greedy colouring along any permutation of the vertices is proper and
/// gives no vertex a colour above its degree.
pub proof fn lemma_greedy_proper(g: GraphView, order: Seq<usize>)
    requires
        g.wf(),
        g.order <= usize::MAX,
        is_permutation(order, g.order),
    ensures
        proper(g, greedy(g, order)),
        forall|v: usize| v < g.order ==> #[trigger] greedy(g, order)[v as int] <= g.degree(v),
        palette(greedy(g, order)).len() <= g.max_degree() + 1,
{
    lemma_greedy_partial(g, order, order.len());
    lemma_greedy_done(g, order, greedy_partial(g, order, order.len()));
}

} // verus!
