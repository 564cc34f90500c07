//! SHA-1 digests, as the `sha1` crate computes them.
use vstd::prelude::*;
use sha1::{Digest, Sha1};

verus! {

/// The SHA-1 digest of a byte sequence.
pub uninterp spec fn sha1_hash(data: Seq<u8>) -> Seq<u8>;

/// `Sha1::digest`: the 20-byte SHA-1 digest of `data`.
/// Claimed: the result is the digest of exactly these bytes (a function of
/// them alone).
#[verifier::external_body]
pub(crate) fn sha1_digest(data: &[u8]) -> (h: [u8; 20])
    ensures
        h@ == sha1_hash(data@),
{
    Sha1::digest(data).into()
}

} // verus!
