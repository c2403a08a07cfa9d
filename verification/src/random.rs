//! Index sources.  All randomness the engine uses is drawn through the
//! `IndexSource` trait, so shuffling and generation can be driven by a
//! deterministic sequence under test and by a real generator otherwise.
use rand::Rng;
use vstd::prelude::*;

verus! {

/// A source of indices below a requested bound.
pub trait IndexSource {
    /// Some index in `[0, len)`.
    fn next_index(&mut self, len: usize) -> (r: usize)
        requires
            len > 0,
        ensures
            r < len,
    ;
}

/// A deterministic source that walks a fixed list, reducing each entry
/// modulo the asked bound.  An empty list always yields zero.
pub struct CycleIndexSource {
    pub values: Vec<usize>,
    pub at: usize,
}

impl CycleIndexSource {
    pub fn new(values: Vec<usize>) -> (r: CycleIndexSource)
        ensures
            r.values == values,
            r.at == 0,
    {
        CycleIndexSource { values, at: 0 }
    }
}

impl IndexSource for CycleIndexSource {
    fn next_index(&mut self, len: usize) -> (r: usize) {
        if self.values.len() == 0 {
            return 0;
        }
        let v = self.values[self.at % self.values.len()];
        self.at = (self.at % self.values.len()) + 1;
        v % len
    }
}

#[verifier::external_type_specification]
#[verifier::external_body]
pub struct ExThreadRng(rand::rngs::ThreadRng);

/// A source backed by the thread-local random generator of `rand`.
pub struct RandomIndexSource {
    pub rng: rand::rngs::ThreadRng,
}

/// Relies on rand::thread_rng: hands out the thread-local generator.
#[verifier::external_body]
fn fresh_rng() -> (r: rand::rngs::ThreadRng) {
    rand::thread_rng()
}

/// Relies on rand's Rng::gen_range: a random value drawn from the
/// non-empty range `0..len`, so always below `len`.
#[verifier::external_body]
fn random_below(rng: &mut rand::rngs::ThreadRng, len: usize) -> (r: usize)
    requires
        len > 0,
    ensures
        r < len,
{
    rng.gen_range(0..len)
}

impl RandomIndexSource {
    pub fn new() -> (r: RandomIndexSource) {
        RandomIndexSource { rng: fresh_rng() }
    }
}

impl IndexSource for RandomIndexSource {
    fn next_index(&mut self, len: usize) -> (r: usize) {
        random_below(&mut self.rng, len)
    }
}

} // verus!
