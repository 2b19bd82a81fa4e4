//! The source of randomness for decisions, behind contracts that the verifier
//! takes on trust. Nothing is claimed of a random number but its range.

use rand::rngs::ThreadRng;
use rand::Rng;
use vstd::prelude::*;

verus! {

/// The thread-local random number generator of the `rand` crate, opaque to
/// the verifier.
#[verifier::external_type_specification]
#[verifier::external_body]
pub struct ExThreadRng(ThreadRng);

/// `rand::thread_rng`: a handle to the generator of this thread.
#[verifier::external_body]
pub(crate) fn thread_generator() -> ThreadRng {
    rand::thread_rng()
}

/// `Rng::gen_range` from 0: some number below `bound`.
#[verifier::external_body]
pub(crate) fn random_below(generator: &mut ThreadRng, bound: usize) -> (r: usize)
    requires
        bound > 0,
    ensures
        r < bound,
{
    generator.gen_range(0, bound)
}

} // verus!
