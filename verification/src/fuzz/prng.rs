//! SplitMix64, a small deterministic generator of pseudo-random numbers. The
//! seed fully determines the stream. It is not meant for cryptography.

use vstd::prelude::*;

verus! {

/// The increment of the state.
pub const GAMMA: u64 = 0x9E37_79B9_7F4A_7C15;

/// The state behind `s`.
pub open spec fn step(s: u64) -> u64 {
    s.wrapping_add(GAMMA)
}

/// The output at a state.
#[verifier::opaque]
pub open spec fn mix(z: u64) -> u64 {
    let a = (z ^ (z >> 30)).wrapping_mul(0xBF58_476D_1CE4_E5B9);
    let b = (a ^ (a >> 27)).wrapping_mul(0x94D0_49BB_1331_11EB);
    b ^ (b >> 31)
}

/// The number in `0..n` that is drawn at state `s`; the draw moves the
/// generator to `step(s)`.
pub open spec fn roll(s: u64, n: int) -> int {
    mix(step(s)) as int % n
}

/// The generator: 64 bits of state.
pub struct SplitMix64 {
    state: u64,
}

impl View for SplitMix64 {
    type V = u64;

    closed spec fn view(&self) -> u64 {
        self.state
    }
}

impl SplitMix64 {
    pub fn new(seed: u64) -> (rng: Self)
        ensures
            rng@ == seed,
    {
        Self { state: seed }
    }

    /// The next pseudo-random u64.
    pub fn next(&mut self) -> (z: u64)
        ensures
            final(self)@ == step(old(self)@),
            z == mix(step(old(self)@)),
    {
        reveal(mix);
        self.state = self.state.wrapping_add(GAMMA);
        let z: u64 = self.state;
        let a: u64 = (z ^ (z >> 30)).wrapping_mul(0xBF58_476D_1CE4_E5B9);
        let b: u64 = (a ^ (a >> 27)).wrapping_mul(0x94D0_49BB_1331_11EB);
        b ^ (b >> 31)
    }

    /// A value in `0..n`.
    pub fn below(&mut self, n: u64) -> (v: u64)
        requires
            n > 0,
        ensures
            final(self)@ == step(old(self)@),
            v == roll(old(self)@, n as int),
            v < n,
    {
        self.next() % n
    }

    /// An element of a non-empty slice.
    pub fn pick<'a, T>(&mut self, slice: &'a [T]) -> (x: &'a T)
        requires
            slice@.len() > 0,
        ensures
            final(self)@ == step(old(self)@),
            *x == slice@[roll(old(self)@, slice@.len() as int)],
    {
        let i: u64 = self.below(slice.len() as u64);
        &slice[i as usize]
    }
}

} // verus!
