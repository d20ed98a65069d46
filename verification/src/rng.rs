//! Deterministic linear congruential generator shared across the crate
//! (Numerical Recipes multiplier and increment, modulo 2^64).
use vstd::prelude::*;

verus! {

/// One step of the generator: `x * 6364136223846793005 + 1442695040888963407`,
/// wrapping at 2^64.
pub open spec fn lcg_step(x: u64) -> u64 {
    vstd::wrapping::u64_specs::wrapping_add(
        vstd::wrapping::u64_specs::wrapping_mul(x, 6364136223846793005u64),
        1442695040888963407u64,
    )
}

/// The generator state after `n` steps from `x`.
pub open spec fn lcg_steps(x: u64, n: nat) -> u64
    decreases n,
{
    if n == 0 {
        x
    } else {
        lcg_step(lcg_steps(x, (n - 1) as nat))
    }
}

pub struct LcgRng {
    state: u64,
}

impl View for LcgRng {
    type V = u64;

    /// The generator state.
    closed spec fn view(&self) -> u64 {
        self.state
    }
}

/// One step of the generator.
pub fn lcg_next(state: u64) -> (r: u64)
    ensures
        r == lcg_step(state),
{
    state.wrapping_mul(6364136223846793005).wrapping_add(1442695040888963407)
}

impl LcgRng {
    pub fn new(seed: u64) -> (r: Self)
        ensures
            r@ == seed,
    {
        Self { state: seed }
    }

    /// Advances the state one step and returns the new state.
    pub fn next_u64(&mut self) -> (r: u64)
        ensures
            r == lcg_step(old(self)@),
            final(self)@ == r,
    {
        self.state = lcg_next(self.state);
        self.state
    }

    /// A number in `range`: `range.start` for an empty range, otherwise the start plus
    /// the next output reduced modulo the length of the range.
    pub fn gen_range(&mut self, range: core::ops::Range<usize>) -> (r: usize)
        requires
            range.start <= range.end,
        ensures
            range.start == range.end ==> r == range.start && final(self)@ == old(self)@,
            range.start < range.end ==> final(self)@ == lcg_step(old(self)@) && r == range.start
                + (final(self)@ as usize) % ((range.end - range.start) as usize),
            range.start < range.end ==> range.start <= r < range.end,
    {
        let span = range.end - range.start;
        if span == 0 {
            return range.start;
        }
        let x = self.next_u64() as usize % span;
        range.start + x
    }
}

} // verus!
