use vstd::prelude::*;

verus! {

/// Relies on rand::random: one byte drawn from the standard distribution.
/// Nothing is promised of the result.
#[verifier::external_body]
pub(crate) fn rand_byte() -> (r: u8) {
    rand::random::<u8>()
}

/// Relies on rand::Rng::gen_range over the range 0..n: the result is
/// uniformly distributed in that range, so in particular below `n`.
#[verifier::external_body]
pub(crate) fn rand_below(n: usize) -> (r: usize)
    requires
        n > 0,
    ensures
        r < n,
{
    rand::Rng::gen_range(&mut rand::thread_rng(), 0..n)
}

} // verus!
