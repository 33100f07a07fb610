use vstd::prelude::*;

use rand::seq::SliceRandom;
use rand::Rng;
use rand_chacha::ChaCha20Rng;

verus! {

/// Declares rand_chacha's `ChaCha20Rng`, held opaque: the random source that
/// every stochastic decision of generation draws from.
#[verifier::external_type_specification]
#[verifier::external_body]
pub struct ExChaCha20Rng(ChaCha20Rng);

/// Relies on rand's `Rng::gen_range` on `0..n` for `u64`: a value of that
/// half-open range (it panics on an empty range, hence `n > 0`).
#[verifier::external_body]
pub(crate) fn draw_below(rng: &mut ChaCha20Rng, n: u64) -> (r: u64)
    requires
        n > 0,
    ensures
        r < n,
{
    rng.gen_range(0..n)
}

/// Relies on rand's `SliceRandom::shuffle`: the elements are permuted in place.
#[verifier::external_body]
pub(crate) fn shuffle_in_place(rng: &mut ChaCha20Rng, v: &mut Vec<u8>)
    ensures
        final(v)@.len() == old(v)@.len(),
        final(v)@.to_multiset() == old(v)@.to_multiset(),
{
    v.shuffle(rng)
}

} // verus!
