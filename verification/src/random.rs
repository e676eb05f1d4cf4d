//! Values drawn at random, for filling a tree.

use rand::Rng;
use vstd::prelude::*;

verus! {

/// The handle that `rand` gives to the generator of the running thread.
#[verifier::external_type_specification]
#[verifier::external_body]
pub struct ExThreadRng(rand::rngs::ThreadRng);

/// `rand::thread_rng`: a handle to the generator of the running thread.
/// Nothing is claimed of the handle.
pub assume_specification[ rand::thread_rng ]() -> (rng: rand::rngs::ThreadRng)
;

/// `Rng::gen_range` over the range `0..below`, which is not empty: the
/// value that comes back lies in the range, whichever it is.
#[verifier::external_body]
pub(crate) fn pick_below(rng: &mut rand::rngs::ThreadRng, below: i32) -> (value: i32)
    requires
        below > 0,
    ensures
        0 <= value < below,
{
    rng.gen_range(0..below)
}

} // verus!
