//! Randomness drawn from `rand`'s `StdRng`, a ChaCha generator that never fails to
//! produce output.
use vstd::prelude::*;

verus! {

/// Draws 32 random bits from `StdRng` with `rand::RngCore::next_u32`; nothing is promised
/// of the value.
#[verifier::external_body]
pub(crate) fn rng_next_u32(rng: &mut rand::rngs::StdRng) -> u32 {
    rand::RngCore::next_u32(rng)
}

/// Draws 64 random bits from `StdRng` with `rand::RngCore::next_u64`; nothing is promised
/// of the value.
#[verifier::external_body]
pub(crate) fn rng_next_u64(rng: &mut rand::rngs::StdRng) -> u64 {
    rand::RngCore::next_u64(rng)
}

/// Fills 32 bytes from `StdRng` with `rand::RngCore::fill_bytes`; nothing is promised of
/// the bytes.
#[verifier::external_body]
pub(crate) fn rng_fill_32(rng: &mut rand::rngs::StdRng) -> [u8; 32] {
    let mut bytes = [0u8; 32];
    rand::RngCore::fill_bytes(rng, &mut bytes);
    bytes
}

/// The generator `rand::rngs::StdRng`.
#[verifier::external_type_specification]
#[verifier::external_body]
pub struct ExStdRng(rand::rngs::StdRng);

/// The first `n` words that `StdRng` seeded with `seed` gives through `next_u32`.
pub uninterp spec fn std_rng_u32s(seed: Seq<u8>, n: nat) -> Seq<u32>;

/// `rand::SeedableRng::from_seed` for `StdRng`, then `n` calls of `rand::RngCore::next_u32`.
/// `StdRng` is a fixed deterministic generator (ChaCha12 in this version of `rand`), so the
/// words depend on the seed and `n` alone; the contract names them and says that there are
/// `n` of them. Their values are not stated.
#[verifier::external_body]
pub(crate) fn seeded_u32s(seed: [u8; 32], n: usize) -> (r: Vec<u32>)
    ensures
        r@ == std_rng_u32s(seed@, n as nat),
        r.len() == n,
{
    let mut rng = <rand::rngs::StdRng as rand::SeedableRng>::from_seed(seed);
    (0..n).map(|_| rand::RngCore::next_u32(&mut rng)).collect()
}

/// `rand::seq::SliceRandom::shuffle` on the vector's slice: the Fisher-Yates shuffle, which
/// only swaps entries, so the result holds the same entries with the same multiplicities.
/// Which order comes out depends on the generator and is not stated.
#[verifier::external_body]
pub(crate) fn shuffle<T>(v: &mut Vec<T>, rng: &mut rand::rngs::StdRng)
    ensures
        final(v)@.to_multiset() == old(v)@.to_multiset(),
{
    rand::seq::SliceRandom::shuffle(v.as_mut_slice(), rng);
}

} // verus!
