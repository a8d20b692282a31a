//! Randomness, from the `rand` crate.
use vstd::prelude::*;

verus! {

/// Twenty bytes from `rand::rng()` (the thread-local generator), filled in
/// with `RngExt::fill`. Nothing is stated of them: they are random.
#[verifier::external_body]
pub(crate) fn random_bytes_20() -> (r: [u8; 20]) {
    let mut id = [0u8; 20];
    rand::RngExt::fill(&mut rand::rng(), &mut id[..]);
    id
}

} // verus!
