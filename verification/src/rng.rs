//! A small deterministic pseudo-random source (xorshift64).
//!
//! Maze carving needs a stream of pseudo-random numbers; the generator is
//! seeded explicitly, so a fixed seed always yields the same stream and
//! therefore the same maze.

use vstd::prelude::*;

verus! {

/// The successor state of the xorshift64 generator: three shift-xor steps.
pub open spec fn spec_rng_next(s: u64) -> u64 {
    let a = s ^ (s << 13u64);
    let b = a ^ (a >> 7u64);
    b ^ (b << 17u64)
}

/// Deterministic pseudo-random number generator with an explicit seed.
///
/// The whole state is one 64-bit word; every draw is a pure function of it,
/// which is what makes maze generation reproducible.
pub struct Rng {
    pub state: u64,
}

impl Rng {
    /// Create a generator from an explicit seed.
    pub fn new(seed: u64) -> (r: Rng)
        ensures
            r.state == seed,
    {
        Rng { state: seed }
    }

    /// Advance the state once and return it as the next pseudo-random word.
    pub fn next_u64(&mut self) -> (r: u64)
        ensures
            final(self).state == spec_rng_next(old(self).state),
            r == spec_rng_next(old(self).state),
    {
        let mut x = self.state;
        x = x ^ (x << 13u64);
        x = x ^ (x >> 7u64);
        x = x ^ (x << 17u64);
        self.state = x;
        x
    }

    /// Draw a pseudo-random number below `n`.
    pub fn pick(&mut self, n: u64) -> (r: u64)
        requires
            n > 0,
        ensures
            final(self).state == spec_rng_next(old(self).state),
            r == spec_rng_next(old(self).state) % n,
            r < n,
    {
        let x = self.next_u64();
        x % n
    }
}

} // verus!
