//! A linear congruential generator.

use vstd::prelude::*;

verus! {

/// The multiplier of the generator.
pub const MULTIPLIER: u64 = 1103515245;

/// The increment of the generator.
pub const INCREMENT: u64 = 12345;

/// The state that follows `s`: `s * 1103515245 + 12345`, reduced to 64
/// bits.
pub open spec fn next_state(s: u64) -> u64 {
    s.wrapping_mul(1103515245).wrapping_add(12345)
}

/// A generator of pseudo-random numbers. The numbers it gives are fixed by
/// its seed.
#[derive(Debug)]
pub struct PseudoRand {
    s: u64,
}

impl View for PseudoRand {
    type V = u64;

    closed spec fn view(&self) -> u64 {
        self.s
    }
}

impl PseudoRand {
    /// A generator in state `seed`.
    pub fn new(seed: u64) -> (r: Self)
        ensures
            r@ == seed,
    {
        Self { s: seed }
    }

    /// Moves to the next state and returns it.
    pub fn rand(&mut self) -> (x: u64)
        ensures
            x == next_state(old(self)@),
            final(self)@ == x,
    {
        let x = self.s.wrapping_mul(MULTIPLIER).wrapping_add(INCREMENT);
        self.s = x;
        x
    }
}

} // verus!
