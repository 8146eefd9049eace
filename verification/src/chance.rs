//! The one place where chance enters: drawing an index.

use rand::seq::IteratorRandom;
use vstd::prelude::*;

verus! {

/// Draws one of the indices `0..n` with `rand::seq::IteratorRandom::choose`,
/// on the thread-local generator of `rand::thread_rng`.
///
/// Trusted: `choose` gives `None` exactly for an iterator without items, and
/// otherwise one of the items, which for the range are the numbers below `n`.
/// Which of them comes is left open.
#[verifier::external_body]
pub(crate) fn choose_index(n: usize) -> (r: Option<usize>)
    ensures
        r is None <==> n == 0,
        r matches Some(i) ==> i < n,
{
    (0..n).choose(&mut rand::thread_rng())
}

} // verus!
