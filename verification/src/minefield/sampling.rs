//! The random source of the game: draws from the `rand` crate, whose results
//! are believed as documented here and not proved.

use rand::rngs::ThreadRng;
use vstd::prelude::*;

verus! {

/// `rand::rngs::ThreadRng`, the generator that `rand` keeps for each thread.
/// Nothing is known of what it holds.
#[verifier::external_type_specification]
#[verifier::external_body]
pub struct ExThreadRng(rand::rngs::ThreadRng);

/// `rand::thread_rng` hands out the calling thread's generator, which the
/// system seeds; it panics if the system has no randomness to give. No claim
/// is made about the generator.
pub assume_specification[ rand::thread_rng ]() -> (rng: ThreadRng)
;

/// Calls `rand::seq::index::sample`, which draws `amount` indices below
/// `length` without replacement. It panics when `amount` exceeds `length`,
/// and for a `length` beyond 32 bits its debug build refuses an `amount`
/// that is not smaller than `length`.
///
/// Believed of the result: it holds exactly `amount` indices, every one of
/// them below `length`, and none twice. Which indices come out, and in what
/// order, is left open.
#[verifier::external_body]
pub(crate) fn sample_indices(rng: &mut ThreadRng, length: usize, amount: usize) -> (picked: Vec<
    usize,
>)
    requires
        amount <= length,
        length > u32::MAX ==> amount < length,
    ensures
        picked@.len() == amount,
        picked@.no_duplicates(),
        forall|k: int| 0 <= k < picked@.len() ==> #[trigger] picked@[k] < length,
{
    rand::seq::index::sample(rng, length, amount).into_vec()
}

} // verus!
