//! SHA-256 digests.

use sha2::{Digest, Sha256};
use vstd::prelude::*;

verus! {

/// The SHA-256 digest of `data`.
pub uninterp spec fn sha256_of(data: Seq<u8>) -> Seq<u8>;

/// Hash `data` with `sha2::Sha256::digest`: the result is the SHA-256 digest of
/// the bytes, and depends on nothing else. What the digest of given bytes is, and
/// that different bytes have different digests, is not stated.
#[verifier::external_body]
pub(crate) fn sha256(data: &[u8]) -> (digest: [u8; 32])
    ensures
        digest@ == sha256_of(data@),
{
    Sha256::digest(data).into()
}

} // verus!
