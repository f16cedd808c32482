//! Removal of repeated entries from an edge enumeration.

use itertools::Itertools;
use vstd::prelude::*;

verus! {

/// `Itertools::unique` filters out the items that the iteration has
/// produced before. Its documentation promises that it is stable: the
/// items come in the order in which they first occur, and of several equal
/// ones the first is kept. That is `Seq::remove_duplicates` from nothing
/// seen.
#[verifier::external_body]
pub(crate) fn unique_edges(edges: Vec<(usize, usize)>) -> (distinct: Vec<(usize, usize)>)
    ensures
        distinct@ == edges@.remove_duplicates(Seq::empty()),
{
    edges.into_iter().unique().collect()
}

/// Removing duplicates leaves none, and loses no item.
pub proof fn lemma_remove_duplicates(s: Seq<(usize, usize)>, seen: Seq<(usize, usize)>)
    requires
        seen.no_duplicates(),
    ensures
        s.remove_duplicates(seen).no_duplicates(),
        s.remove_duplicates(seen).to_set() == s.to_set().union(seen.to_set()),
    decreases s.len(),
{
    if s.len() == 0 {
        assert(s.to_set() =~= Set::empty());
        assert(s.remove_duplicates(seen).to_set() =~= s.to_set().union(seen.to_set()));
    } else {
        let rest = s.skip(1);
        let next = if seen.contains(s[0]) {
            seen
        } else {
            seen + seq![s[0]]
        };
        assert(next.no_duplicates());
        lemma_remove_duplicates(rest, next);
        assert forall|e: (usize, usize)|
            rest.to_set().union(next.to_set()).contains(e) <==> s.to_set().union(
                seen.to_set(),
            ).contains(e) by {
            if rest.contains(e) {
                let i = choose|i: int| 0 <= i < rest.len() && rest[i] == e;
                assert(s[i + 1] == e);
            }
            if s.contains(e) {
                let i = choose|i: int| 0 <= i < s.len() && s[i] == e;
                if i > 0 {
                    assert(rest[i - 1] == e);
                } else {
                    assert(next.contains(e)) by {
                        if !seen.contains(s[0]) {
                            assert(next[seen.len() as int] == e);
                        }
                    }
                }
            }
            if seen.contains(e) {
                let i = choose|i: int| 0 <= i < seen.len() && seen[i] == e;
                assert(next[i] == e);
            }
            if next.contains(e) && !seen.contains(e) {
                let i = choose|i: int| 0 <= i < next.len() && next[i] == e;
                assert(i == seen.len());
                assert(s[0] == e);
            }
        }
        assert(rest.to_set().union(next.to_set()) =~= s.to_set().union(seen.to_set()));
    }
}

/// Returns the edges given with every repetition after the first removed.
pub fn distinct_edges(edges: Vec<(usize, usize)>) -> (distinct: Vec<(usize, usize)>)
    ensures
        distinct@ == edges@.remove_duplicates(Seq::empty()),
        distinct@.no_duplicates(),
        distinct@.to_set() == edges@.to_set(),
{
    proof {
        lemma_remove_duplicates(edges@, Seq::empty());
        assert(Seq::<(usize, usize)>::empty().to_set() =~= Set::empty());
        assert(edges@.to_set().union(Set::empty()) =~= edges@.to_set());
    }
    unique_edges(edges)
}

} // verus!
