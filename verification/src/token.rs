//! Identity tokens for lists.

use std::collections::hash_map::RandomState;
use std::hash::BuildHasher;
use vstd::prelude::*;

verus! {

/// Calls `RandomState::new`, which std documents as a hasher state
/// initialised with random keys. Nothing is claimed of the state that comes
/// back.
#[verifier::external_body]
fn random_state() -> (state: RandomState) {
    RandomState::new()
}

/// Calls `BuildHasher::hash_one` on `state` with the number zero: the digest
/// of a fixed input under the keys that `state` holds. Nothing is claimed of
/// the digest.
#[verifier::external_body]
fn digest_under(state: &RandomState) -> (digest: u64) {
    state.hash_one(0u64)
}

/// A token drawn from std's randomly keyed hasher.
///
/// Two draws differ unless two keyed digests collide, which nothing here
/// rules out: a caller that needs certainty chooses its tokens itself.
pub(crate) fn fresh_token() -> u64 {
    let state = random_state();
    digest_under(&state)
}

} // verus!
