//! Secret storage for key material, kept by the `secrecy` crate.
//!
//! An expanded key lives in a `secrecy::SecretVec<u8>`, which overwrites it
//! with zeros when it is dropped. Verus does not read `secrecy`; the few
//! calls into it are made here, and what they return is stated without
//! proof.

use vstd::prelude::*;

verus! {

/// Bytes held in a `secrecy::SecretVec<u8>`. They can be read but not
/// changed, and are wiped from memory when the value is dropped.
#[verifier::external_body]
pub struct SealedBytes {
    secret: secrecy::SecretVec<u8>,
}

/// The bytes that a sealed buffer holds.
pub uninterp spec fn sealed_bytes(sealed: SealedBytes) -> Seq<u8>;

/// `secrecy::Secret::new` on a byte vector: takes the vector over as it is.
#[verifier::external_body]
pub(crate) fn seal(bytes: Vec<u8>) -> (sealed: SealedBytes)
    ensures
        sealed_bytes(sealed) == bytes@,
{
    SealedBytes { secret: secrecy::Secret::new(bytes) }
}

/// `secrecy::ExposeSecret::expose_secret` on a secret byte vector: a
/// reference to the vector that was sealed.
#[verifier::external_body]
pub(crate) fn expose(sealed: &SealedBytes) -> (bytes: &Vec<u8>)
    ensures
        bytes@ == sealed_bytes(*sealed),
{
    secrecy::ExposeSecret::expose_secret(&sealed.secret)
}

/// `secrecy::Zeroize::zeroize` on a byte vector: overwrites the bytes and
/// the spare capacity with zeros and leaves the vector empty.
#[verifier::external_body]
pub(crate) fn wipe(bytes: &mut Vec<u8>)
    ensures
        final(bytes)@ == Seq::<u8>::empty(),
{
    secrecy::Zeroize::zeroize(bytes)
}

} // verus!
