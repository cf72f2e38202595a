use vstd::prelude::*;

verus! {

/// Relies on `zeroize::Zeroize` for `[u8; 32]`: every byte of the key is
/// overwritten with zero, through a write the compiler will not elide.
#[verifier::external_body]
pub(crate) fn scrub_key(key: &mut [u8; 32])
    ensures
        final(key)@ == Seq::new(32, |i: int| 0u8),
{
    zeroize::Zeroize::zeroize(key)
}

/// Relies on `zeroize::Zeroize` for `Vec<usize>`: every element is
/// overwritten with zero and the vector is cleared, so no position survives
/// in the buffer.
#[verifier::external_body]
pub(crate) fn scrub_positions(buf: &mut Vec<usize>)
    ensures
        final(buf)@ == Seq::<usize>::empty(),
{
    zeroize::Zeroize::zeroize(buf)
}

} // verus!
