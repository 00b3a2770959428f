//! SHA-1.
use sha1::{Digest, Sha1};
use vstd::prelude::*;

verus! {

/// The SHA-1 digest of the bytes.
pub uninterp spec fn sha1_of(data: Seq<u8>) -> Seq<u8>;

/// Calls `Sha1::digest`, which hashes the whole slice: twenty bytes that
/// depend on the hashed bytes alone.
#[verifier::external_body]
pub(crate) fn sha1(data: &[u8]) -> (digest: [u8; 20])
    ensures
        digest@ == sha1_of(data@),
{
    Sha1::digest(data).into()
}

} // verus!
