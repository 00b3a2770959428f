//! Random bytes and numbers.
use rand::Rng;
use vstd::prelude::*;

verus! {

/// Calls `Rng::fill` on the generator of the thread, for twenty bytes.
/// Nothing is known of them.
#[verifier::external_body]
pub(crate) fn random_id() -> [u8; 20] {
    let mut id = [0u8; 20];
    rand::rng().fill(&mut id[..]);
    id
}

/// Calls `rand::random`. Nothing is known of the number.
#[verifier::external_body]
pub(crate) fn random_u32() -> u32 {
    rand::random()
}

/// Calls `rand::random`. Nothing is known of the byte.
#[verifier::external_body]
pub(crate) fn random_u8() -> u8 {
    rand::random()
}

} // verus!
