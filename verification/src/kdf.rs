use vstd::prelude::*;

verus! {

/// The 32-byte key that the fixed-parameter, salt-free key derivation
/// produces from a passphrase: a function of the passphrase alone, so the
/// same passphrase always reproduces the same key.
pub uninterp spec fn scrypt_key(pass: Seq<char>) -> Seq<u8>;

/// Relies on `scrypt::scrypt` with fixed parameters (cost exponent 12, block
/// size 8, parallelism 1), an empty salt and a 32-byte output: the derived
/// key is a deterministic function of the passphrase bytes alone. These
/// parameters always pass `ScryptParams::new`, and 32 is a valid output
/// length, so neither call can fail.
#[verifier::external_body]
pub(crate) fn hash_password(password: &String) -> (r: [u8; 32])
    ensures
        r@ == scrypt_key(password@),
{
    let mut hash = [0u8; 32];
    let params = scrypt::ScryptParams::new(12, 8, 1).unwrap();
    scrypt::scrypt(password.as_bytes(), &[], &params, &mut hash).unwrap();
    hash
}

} // verus!
