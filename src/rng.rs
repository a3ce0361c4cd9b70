//! Draws from the thread-local random generator of `rand`.
use rand::Rng;
use vstd::prelude::*;

verus! {

/// Relies on `rand::random::<u64>`: a value drawn uniformly from all of `u64`.
/// Nothing is known of which value comes back.
#[verifier::external_body]
pub(crate) fn random_u64() -> (r: u64) {
    rand::random::<u64>()
}

/// Relies on `rand::Rng::gen_range` over the inclusive range `0..=1` on `rand::thread_rng()`:
/// the value drawn lies in that range.
#[verifier::external_body]
pub(crate) fn random_bit() -> (r: u64)
    ensures
        r <= 1,
{
    rand::thread_rng().gen_range(0..=1u64)
}

} // verus!
