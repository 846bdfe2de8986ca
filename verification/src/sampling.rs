//! Random cell states, drawn from the thread-local generator of `rand`.
use rand::rngs::ThreadRng;
use rand::Rng;
use vstd::prelude::*;

verus! {

/// `rand::rngs::ThreadRng`: a handle to the generator of the calling thread.
/// Nothing is known of its state.
#[verifier::external_type_specification]
#[verifier::external_body]
pub struct ExThreadRng(ThreadRng);

/// `rand::thread_rng` hands out the generator of the calling thread. Nothing
/// is claimed of it.
pub assume_specification[ rand::thread_rng ]() -> (rng: ThreadRng);

/// `Rng::gen_range` on `0..states`: some state below `states`, whichever the
/// generator picks. The range must not be empty, or the call panics.
#[verifier::external_body]
pub(crate) fn random_state(rng: &mut ThreadRng, states: u8) -> (state: u8)
    requires
        states > 0,
    ensures
        state < states,
{
    rng.gen_range(0..states)
}

} // verus!
