use sha2::{Digest, Sha256};
use vstd::prelude::*;

verus! {

/// The SHA-256 digest of `data`.
pub uninterp spec fn sha256_spec(data: Seq<u8>) -> Seq<u8>;

/// Calls `sha2::Sha256::digest` on `data` and copies the 32 bytes of the digest.
/// Trusted: the result is the SHA-256 digest of exactly the bytes of `data`, as
/// the `sha2` documentation describes it; nothing else is claimed of it.
#[verifier::external_body]
pub(crate) fn sha256(data: &[u8]) -> (r: [u8; 32])
    ensures
        r@ == sha256_spec(data@),
{
    let out = Sha256::digest(data);
    let mut r = [0u8; 32];
    r.copy_from_slice(&out);
    r
}

} // verus!
