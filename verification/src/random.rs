//! The one source of randomness: a uniform draw of an index below a bound.
//!
//! Code generation needs nothing more than picking letters from fixed
//! alphabets, so the whole of the random-number dependency sits behind this
//! single function. Nothing can be promised of which index comes back, only
//! that it lies below the bound.

use rand::Rng;
use vstd::prelude::*;

verus! {

/// Relies on rand::Rng::gen_range over the range `0..n`: it returns a value
/// of that range and panics only when the range is empty, which `n >= 1`
/// rules out.
#[verifier::external_body]
pub(crate) fn random_index(n: usize) -> (r: usize)
    requires
        n >= 1,
    ensures
        r < n,
{
    rand::thread_rng().gen_range(0..n)
}

} // verus!
