use vstd::prelude::*;

verus! {

/// The failure conditions of the embedding engine.
///
/// `Capacity` reports that the message needs more bit slots than the
/// container offers, with both counts. `SequenceExhausted` reports that a
/// position sequence ran out while bits were still being consumed; the
/// capacity check makes it unreachable from `encode` and `decode`.
/// `PassphraseMismatch` reports that a passphrase confirmation disagreed
/// with the first entry.
#[derive(Clone, Copy, Debug, PartialEq, Eq, Structural)]
pub enum StegoError {
    Capacity { required_bits: u128, available_bits: u128 },
    SequenceExhausted,
    PassphraseMismatch,
}

} // verus!
