use vstd::prelude::*;

verus! {

#[verifier::external_type_specification]
#[verifier::external_body]
pub struct ExChaChaRng(rand_chacha::ChaChaRng);

/// The seed a generator value was built from.
pub uninterp spec fn rng_seed(rng: rand_chacha::ChaChaRng) -> Seq<u8>;

/// How many words a generator value has already emitted.
pub uninterp spec fn rng_position(rng: rand_chacha::ChaChaRng) -> int;

/// The word the ChaCha stream for a seed holds at a position: a function of
/// the seed and the position alone, on every machine.
pub uninterp spec fn chacha_word(seed: Seq<u8>, position: int) -> u32;

/// Relies on `rand_chacha::ChaChaRng::from_seed` (`SeedableRng`): builds the
/// deterministic stream cipher generator for a 32-byte seed, positioned at
/// the start of its stream.
#[verifier::external_body]
pub(crate) fn chacha_from_seed(seed: [u8; 32]) -> (r: rand_chacha::ChaChaRng)
    ensures
        rng_seed(r) == seed@,
        rng_position(r) == 0,
{
    <rand_chacha::ChaChaRng as rand_chacha::rand_core::SeedableRng>::from_seed(seed)
}

/// Relies on `rand_chacha::ChaChaRng::next_u32` (`RngCore`): emits the word
/// of the seed's stream at the current position and advances by one, so two
/// generators built from one seed emit the same words.
#[verifier::external_body]
pub(crate) fn chacha_next_u32(rng: &mut rand_chacha::ChaChaRng) -> (r: u32)
    ensures
        r == chacha_word(rng_seed(*old(rng)), rng_position(*old(rng))),
        rng_seed(*final(rng)) == rng_seed(*old(rng)),
        rng_position(*final(rng)) == rng_position(*old(rng)) + 1,
{
    rand_chacha::rand_core::RngCore::next_u32(rng)
}

} // verus!
