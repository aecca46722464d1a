//! The source of chance: the thread's random number generator of the `rand`
//! crate.  Nothing here is proved; the contracts say what `rand` documents.

use rand::Rng;
use vstd::prelude::*;

verus! {

/// The generator that `rand::thread_rng` hands out.  Nothing is known of what
/// it holds.
#[verifier::external_type_specification]
#[verifier::external_body]
pub struct ExThreadRng(rand::rngs::ThreadRng);

/// `rand::thread_rng` gives a handle to the generator of the current thread,
/// which the system seeds.  Nothing is claimed of the handle.
pub assume_specification[ rand::thread_rng ]() -> (rng: rand::rngs::ThreadRng);

/// A number below `bound`, each with the same chance.
///
/// Calls `rand::Rng::gen_range` with the range from 0 up to and excluding
/// `bound`.  The contract claims only that the number lies in that range,
/// which is what `gen_range` documents; `gen_range` panics on an empty range,
/// so `bound` must not be 0.
#[verifier::external_body]
pub(crate) fn draw_below(rng: &mut rand::rngs::ThreadRng, bound: usize) -> (n: usize)
    requires
        bound > 0,
    ensures
        n < bound,
{
    rng.gen_range(0..bound)
}

} // verus!
