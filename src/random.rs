//! The random generator each player owns, and the few calls made on it.
use vstd::prelude::*;

use rand::prng::IsaacRng;
use rand::rngs::EntropyRng;
use rand::Rng;
use rand::SeedableRng;

verus! {

#[verifier::external_type_specification]
#[verifier::external_body]
pub struct ExIsaacRng(IsaacRng);

/// The generator that seeding with `seed` gives.
pub uninterp spec fn seeded(seed: u64) -> IsaacRng;

/// Relies on `IsaacRng::new_from_u64`: a generator seeded from the given
/// value alone (`seed_from_u64` expands the seed deterministically), so the
/// same seed gives the same generator.
#[verifier::external_body]
#[allow(deprecated)]
pub(crate) fn isaac_from_seed(seed: u64) -> (r: IsaacRng)
    ensures
        r == seeded(seed),
{
    IsaacRng::new_from_u64(seed)
}

/// Relies on `SeedableRng::from_rng` over `EntropyRng`: a generator seeded
/// by the system, or nothing when every entropy source fails (`from_rng`
/// reports that through `try_fill_bytes` instead of panicking).
#[verifier::external_body]
pub(crate) fn isaac_from_entropy() -> Option<IsaacRng> {
    IsaacRng::from_rng(EntropyRng::new()).ok()
}

/// What one `gen_range(low, high)` on generator `g` gives: the value and
/// the generator afterwards.
pub uninterp spec fn range_step(g: IsaacRng, low: i16, high: i16) -> (i16, IsaacRng);

/// What one fair coin flipped on generator `g` gives: the side and the
/// generator afterwards.
pub uninterp spec fn coin_step(g: IsaacRng) -> (bool, IsaacRng);

/// Relies on `Rng::gen_range`: a value in `[low, high)`; it panics unless
/// `low < high`. The ISAAC generator is deterministic, so value and new
/// state depend on the generator's state and the bounds alone.
#[verifier::external_body]
pub(crate) fn gen_range_i16(rng: &mut IsaacRng, low: i16, high: i16) -> (r: i16)
    requires
        low < high,
    ensures
        low <= r < high,
        (r, *final(rng)) == range_step(*old(rng), low, high),
{
    rng.gen_range(low, high)
}

/// Relies on `Rng::gen::<bool>`: a fair coin. The ISAAC generator is
/// deterministic, so side and new state depend on the generator's state
/// alone.
#[verifier::external_body]
pub(crate) fn gen_bool(rng: &mut IsaacRng) -> (r: bool)
    ensures
        (r, *final(rng)) == coin_step(*old(rng)),
{
    rng.gen::<bool>()
}

/// What shuffling `values` with generator `g` gives: the new order and the
/// generator afterwards.
pub uninterp spec fn shuffle_step(g: IsaacRng, values: Seq<u8>) -> (Seq<u8>, IsaacRng);

/// Relies on `Rng::shuffle`: it only swaps elements of the slice, so the
/// result holds the same values; the swaps are drawn from the deterministic
/// ISAAC generator, so the new order and the new generator depend on the
/// generator's state and the values alone.
#[verifier::external_body]
pub(crate) fn shuffle_u8(rng: &mut IsaacRng, values: &mut Vec<u8>)
    ensures
        final(values)@.to_multiset() == old(values)@.to_multiset(),
        (final(values)@, *final(rng)) == shuffle_step(*old(rng), old(values)@),
{
    rng.shuffle(values.as_mut_slice())
}

} // verus!
