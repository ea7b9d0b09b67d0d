use vstd::prelude::*;

verus! {

/// Relies on `rand::random::<u64>`: one fresh uniform 64-bit word from the
/// thread-local generator.  Nothing can be promised of a random value, so
/// this trusted wrapper carries no contract.
#[verifier::external_body]
pub(crate) fn random_word() -> u64 {
    rand::random::<u64>()
}

} // verus!
