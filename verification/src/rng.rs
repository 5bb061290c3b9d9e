//! The one source of randomness the simulation draws on.

use vstd::prelude::*;

verus! {

/// Relies on `quad_rand::gen_range::<usize>`: for `low < high` it returns
/// `low + floor((high - low) * r)` where `r` is drawn in `[0, 1)`, so the
/// result lies in `[low, high)`.  The small cap on `n` keeps the crate's
/// `f64` intermediate arithmetic exact.  Nothing is assumed about the
/// distribution of outcomes.
#[verifier::external_body]
pub(crate) fn random_below(n: usize) -> (r: usize)
    requires
        1 <= n <= 16,
    ensures
        r < n,
{
    quad_rand::gen_range(0usize, n)
}

} // verus!
