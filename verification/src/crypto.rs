//! SHA-256 helpers used for commitments and the settlement hash chain.

use sha2::{Digest, Sha256};
use vstd::prelude::*;

use crate::types;

use crate::encode::{length_prefixed, Encoder};

verus! {

/// The SHA-256 digest of `data`, as the `sha2` crate computes it.
pub uninterp spec fn sha256_digest(data: Seq<u8>) -> Seq<u8>;

/// SHA-256 of `data`.
///
/// Calls `sha2::Sha256::digest`. The contract claims only that the 32 bytes
/// returned are the digest of exactly the bytes passed in; what those bytes
/// are is left to the name `sha256_digest`.
#[verifier::external_body]
pub fn sha256(data: &[u8]) -> (r: types::Hash)
    ensures
        r@ == sha256_digest(data@),
{
    let digest: [u8; 32] = Sha256::digest(data).into();
    types::Hash(digest)
}

/// The bytes hashed for a tagged message: the length-prefixed tag, then the body.
pub open spec fn tagged(tag: Seq<u8>, body: Seq<u8>) -> Seq<u8> {
    length_prefixed(tag) + body
}

/// Hash `length_prefixed(tag) || body`.
pub fn hash_tagged(tag: &[u8], body: &[u8]) -> (r: types::Hash)
    ensures
        r@ == sha256_digest(tagged(tag@, body@)),
{
    let mut encoder = Encoder::new();
    encoder.bytes(tag);
    encoder.bytes_raw(body);
    sha256(encoder.as_slice())
}

} // verus!
