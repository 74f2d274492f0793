//! Random values.

use vstd::prelude::*;

verus! {

/// A random bit from `rand::random`. Nothing is promised of it.
#[verifier::external_body]
pub(crate) fn random_bool() -> (value: bool) {
    rand::random::<bool>()
}

/// A random byte from `rand::random`. Nothing is promised of it.
#[verifier::external_body]
pub(crate) fn random_u8() -> (value: u8) {
    rand::random::<u8>()
}

/// A random number from `rand::random`. Nothing is promised of it.
#[verifier::external_body]
pub(crate) fn random_u32() -> (value: u32) {
    rand::random::<u32>()
}

} // verus!
