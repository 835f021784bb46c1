//! Message digests.
use sha1::{Digest, Sha1};
use sha2::Sha384;
use vstd::prelude::*;

verus! {

/// The SHA-1 digest of a message.
pub uninterp spec fn sha1_digest(message: Seq<u8>) -> Seq<u8>;

/// The SHA-384 digest of a message.
pub uninterp spec fn sha384_digest(message: Seq<u8>) -> Seq<u8>;

/// `Digest::digest` of `sha1::Sha1`: the 20 bytes that it returns are a function of the
/// message alone, which [`sha1_digest`] names.
#[verifier::external_body]
pub(crate) fn sha1(message: &[u8]) -> (digest: [u8; 20])
    ensures
        digest@ == sha1_digest(message@),
{
    let mut digest = [0u8; 20];
    digest.copy_from_slice(&Sha1::digest(message));
    digest
}

/// `Digest::digest` of `sha2::Sha384`: the 48 bytes that it returns are a function of the
/// message alone, which [`sha384_digest`] names.
#[verifier::external_body]
pub(crate) fn sha384(message: &[u8]) -> (digest: [u8; 48])
    ensures
        digest@ == sha384_digest(message@),
{
    let mut digest = [0u8; 48];
    digest.copy_from_slice(&Sha384::digest(message));
    digest
}

} // verus!
