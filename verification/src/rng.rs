//! The random draws of parameter defaults and of test addresses.

use vstd::prelude::*;

verus! {

/// Calls `rand::random::<[u8; 32]>()`. Nothing is promised of the bytes.
#[verifier::external_body]
pub(crate) fn random_bytes32() -> (r: [u8; 32]) {
    rand::random::<[u8; 32]>()
}

/// Calls `rand::random::<u8>()`. Nothing is promised of the value.
#[verifier::external_body]
pub(crate) fn random_byte() -> (r: u8) {
    rand::random::<u8>()
}

/// Calls `rand::random::<u32>()`. Nothing is promised of the value.
#[verifier::external_body]
pub(crate) fn random_word() -> (r: u32) {
    rand::random::<u32>()
}

} // verus!
