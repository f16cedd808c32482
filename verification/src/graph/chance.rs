//! Random draws for the generation of random graphs.

use vstd::prelude::*;

verus! {

/// `rand::random_ratio` draws `true` with probability
/// `numerator / denominator` from the thread-local generator. It panics
/// on a zero denominator and on a ratio above one, which `requires` leaves
/// out. Its documentation guarantees the outcome at both ends: `true`
/// where the two numbers are equal, `false` where the numerator is zero.
/// Nothing is claimed of a draw in between.
pub assume_specification[ rand::random_ratio ](numerator: u32, denominator: u32) -> (hit: bool)
    requires
        denominator > 0,
        numerator <= denominator,
    ensures
        numerator == denominator ==> hit,
        numerator == 0 ==> !hit,
;

/// `rand::random_range` draws a value from a range with the thread-local
/// generator; here the range is `0..bound`. It panics on an empty range,
/// which `requires` leaves out. Its documentation promises a value in the
/// range, and nothing is claimed of which one.
#[verifier::external_body]
fn random_below(bound: usize) -> (value: usize)
    requires
        bound > 0,
    ensures
        value < bound,
{
    rand::random_range(0..bound)
}

/// Whether a draw that comes out `true` with probability
/// `numerator / denominator` is certain to do so: the ratio is one or
/// more, or has no bound because the denominator is zero.
pub open spec fn certain(numerator: u32, denominator: u32) -> bool {
    numerator > 0 && numerator >= denominator
}

/// Whether a draw that comes out `true` with probability
/// `numerator / denominator` can never do so.
pub open spec fn impossible(numerator: u32, denominator: u32) -> bool {
    numerator == 0
}

/// Draws `true` with probability `numerator / denominator`: never for a
/// zero numerator, and else always for a ratio of one or more or a zero
/// denominator.
pub fn draw(numerator: u32, denominator: u32) -> (hit: bool)
    ensures
        certain(numerator, denominator) ==> hit,
        impossible(numerator, denominator) ==> !hit,
{
    if denominator == 0 {
        numerator > 0
    } else if numerator > denominator {
        true
    } else {
        rand::random_ratio(numerator, denominator)
    }
}

/// Draws an index below `bound`, each with the same probability; there is
/// none below 0.
pub fn random_index(bound: usize) -> (index: Option<usize>)
    ensures
        index is Some <==> bound > 0,
        index is Some ==> index->0 < bound,
{
    if bound == 0 {
        None
    } else {
        Some(random_below(bound))
    }
}

} // verus!
