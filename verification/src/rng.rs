//! A thin handle on the process random number generator.

use vstd::prelude::*;

verus! {

#[verifier::external_type_specification]
#[verifier::external_body]
pub struct ExThreadRng(rand::rngs::ThreadRng);

/// A source of random draws.
pub struct Rng {
    inner: rand::rngs::ThreadRng,
}

impl Rng {
    /// Relies on rand::thread_rng: a handle on the thread-local generator.
    #[verifier::external_body]
    pub fn new() -> (r: Rng) {
        Rng { inner: rand::thread_rng() }
    }

    /// Relies on rand::Rng::gen_range: the result lies in `[0, bound)`; the
    /// call panics only on an empty range, which the precondition excludes.
    #[verifier::external_body]
    pub fn below(&mut self, bound: u64) -> (r: u64)
        requires
            bound >= 1,
        ensures
            r < bound,
    {
        rand::Rng::gen_range(&mut self.inner, 0..bound)
    }
}

} // verus!
