//! The one random source of the machine: the RND instruction draws a byte
//! and masks it with the instruction's immediate.

use vstd::prelude::*;

verus! {

/// Relies on rand::random: draws one uniformly distributed byte from the
/// thread-local generator. Nothing is assumed of the value; every caller
/// must hold for every outcome.
#[verifier::external_body]
pub(crate) fn random_byte() -> u8 {
    rand::random::<u8>()
}

} // verus!
