//! Random bytes of the machine.
use vstd::prelude::*;

verus! {

/// `rand::random`: sixteen bytes of the thread's generator. Nothing is promised of them.
#[verifier::external_body]
pub(crate) fn random16() -> (bytes: [u8; 16]) {
    rand::random()
}

} // verus!
