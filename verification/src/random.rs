//! The random sources that the oblivious structures draw positions and tags from.
use vstd::prelude::*;
use rand::Rng;
use rand::rngs::ThreadRng;

verus! {

/// Declares `rand::rngs::ThreadRng`, the thread-local generator, as an opaque type.
#[verifier::external_type_specification]
#[verifier::external_body]
pub struct ExThreadRng(ThreadRng);

/// Calls `rand::rng()`, which hands out a handle to the thread-local generator. Nothing
/// is stated about the generator's state.
#[verifier::external_body]
pub(crate) fn thread_rng() -> ThreadRng {
    rand::rng()
}

/// Calls `Rng::random_range(0..bound)` on a `ThreadRng`. rand documents it as a uniform
/// sample of the half-open range that panics when the range is empty; the contract states
/// only that the sample lies in the range (which value comes is chance).
#[verifier::external_body]
pub(crate) fn random_below(rng: &mut ThreadRng, bound: usize) -> (r: usize)
    requires
        bound > 0,
    ensures
        r < bound,
{
    rng.random_range(0..bound)
}

/// Calls `Rng::random::<u64>()` on a `ThreadRng`: a uniformly random `u64`. Any value
/// can come, so nothing is stated about it.
#[verifier::external_body]
pub(crate) fn random_u64(rng: &mut ThreadRng) -> u64 {
    rng.random::<u64>()
}

/// Calls `rand::random::<u64>()`, which draws from the thread-local generator. Any value
/// can come, so nothing is stated about it; `drawn` marks the values it handed out.
#[verifier::external_body]
pub(crate) fn random_u64_thread_local() -> u64 {
    rand::random::<u64>()
}

/// `t` is a value that `rand::random::<u64>()` handed out: Verus learns this only from an
/// actual call, so a tag that was computed rather than drawn does not satisfy it.
pub closed spec fn drawn(t: u64) -> bool {
    call_ensures(random_u64_thread_local, (), t)
}

/// Draws a random tag from the thread-local generator.
pub(crate) fn draw_tag() -> (t: u64)
    ensures
        drawn(t),
{
    random_u64_thread_local()
}

} // verus!
