use vstd::prelude::*;

verus! {

#[verifier::external_type_specification]
#[verifier::external_body]
pub struct ExChaCha20Rng(rand_chacha::ChaCha20Rng);

/// The seed a generator was created from.
pub uninterp spec fn gen_seed(g: rand_chacha::ChaCha20Rng) -> Seq<u8>;

/// The (low, high) bounds of the ranged draws made from a generator so far,
/// oldest first.
pub uninterp spec fn gen_taken(g: rand_chacha::ChaCha20Rng) -> Seq<(int, int)>;

/// The value of a ranged draw from a ChaCha stream: a function of the seed,
/// of the bounds of the draws made before, and of the bounds of this draw.
pub uninterp spec fn chacha_draw(seed: Seq<u8>, taken: Seq<(int, int)>, lo: int, hi: int) -> int;

/// Relies on rand_chacha's `ChaCha20Rng::from_seed`: a fresh generator whose
/// output stream is a function of the 32-byte seed alone.
#[verifier::external_body]
pub(crate) fn rng_from_seed(seed: [u8; 32]) -> (g: rand_chacha::ChaCha20Rng)
    ensures
        gen_seed(g) == seed@,
        gen_taken(g) == Seq::<(int, int)>::empty(),
{
    <rand_chacha::ChaCha20Rng as rand_core::SeedableRng>::from_seed(seed)
}

/// Relies on rand's `Rng::gen_range` over a ChaCha generator: the draw lies
/// in `[lo, hi)` (it panics only when `lo >= hi`, which the precondition
/// rules out), and its value is a function of the seed and of the bounds of
/// every draw made before, since the stream itself is a function of the seed
/// and the sampling procedure consumes it deterministically.
#[verifier::external_body]
pub(crate) fn draw_in_range(g: &mut rand_chacha::ChaCha20Rng, lo: u32, hi: u32) -> (r: u32)
    requires
        lo < hi,
    ensures
        gen_seed(*final(g)) == gen_seed(*old(g)),
        gen_taken(*final(g)) == gen_taken(*old(g)).push((lo as int, hi as int)),
        r == chacha_draw(gen_seed(*old(g)), gen_taken(*old(g)), lo as int, hi as int),
        lo <= r < hi,
{
    rand::Rng::gen_range(g, lo, hi)
}

} // verus!
