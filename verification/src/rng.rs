use vstd::prelude::*;
use rand::Rng;
use rand::SeedableRng;
use rand_chacha::ChaCha12Rng;

verus! {

/// The generator that every random choice of a maze is drawn from.
#[verifier::external_type_specification]
#[verifier::external_body]
pub struct ExChaCha12Rng(ChaCha12Rng);

/// `SeedableRng::seed_from_u64` on `ChaCha12Rng`: a generator seeded from `seed`.
/// Nothing is claimed of the generator's state.
#[verifier::external_body]
pub(crate) fn seeded(seed: u64) -> (rng: ChaCha12Rng) {
    ChaCha12Rng::seed_from_u64(seed)
}

/// `Rng::random_range` on the half-open range `0..len`: the value drawn lies in
/// that range. The call panics on an empty range, which `requires` leaves out.
#[verifier::external_body]
pub(crate) fn random_below(rng: &mut ChaCha12Rng, len: usize) -> (r: usize)
    requires
        len > 0,
    ensures
        r < len,
{
    rng.random_range(0..len)
}

} // verus!
