use rand::Rng;
use vstd::prelude::*;

verus! {

/// Draws a number from `low` up to, but not including, `high`, with the
/// generator that `rand::thread_rng` keeps for the calling thread and its
/// method `Rng::gen_range`.
///
/// Believed, not proved: the number drawn lies in the range. Which number
/// comes is left open, so two draws from one range may differ. An empty
/// range makes `gen_range` panic and is excluded.
#[verifier::external_body]
pub(crate) fn random_in_range(low: usize, high: usize) -> (drawn: usize)
    requires
        low < high,
    ensures
        low <= drawn < high,
{
    rand::thread_rng().gen_range(low, high)
}

} // verus!
