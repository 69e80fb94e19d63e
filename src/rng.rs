//! A small seeded source of uniform draws (SplitMix64), so that a board can
//! be generated again from the same seed.
use vstd::prelude::*;

verus! {

/// What the state advances by at each draw.
pub const GOLDEN_GAMMA: u64 = 0x9e37_79b9_7f4a_7c15;

/// The state after one draw from state `s`.
pub open spec fn advance(s: u64) -> u64 {
    s.wrapping_add(GOLDEN_GAMMA)
}

/// The 64 bits drawn from state `z`.
pub open spec fn mix(z: u64) -> u64 {
    let a = (z ^ (z >> 30u64)).wrapping_mul(0xbf58_476d_1ce4_e5b9u64);
    let b = (a ^ (a >> 27u64)).wrapping_mul(0x94d0_49bb_1331_11ebu64);
    b ^ (b >> 31u64)
}

pub struct Rng {
    state: u64,
}

impl Rng {
    pub closed spec fn state(&self) -> u64 {
        self.state
    }

    /// A source whose draws are determined by `seed`.
    pub fn new(seed: u64) -> (r: Rng)
        ensures
            r.state() == seed,
    {
        Rng { state: seed }
    }

    /// The next 64 random bits.
    pub fn next_u64(&mut self) -> (r: u64)
        ensures
            final(self).state() == advance(old(self).state()),
            r == mix(final(self).state()),
    {
        self.state = self.state.wrapping_add(GOLDEN_GAMMA);
        let z = self.state;
        let a = (z ^ (z >> 30u64)).wrapping_mul(0xbf58_476d_1ce4_e5b9u64);
        let b = (a ^ (a >> 27u64)).wrapping_mul(0x94d0_49bb_1331_11ebu64);
        b ^ (b >> 31u64)
    }

    /// A draw from `a` (inclusive) to `b` (exclusive).
    pub fn uniform(&mut self, a: usize, b: usize) -> (r: usize)
        requires
            a < b,
        ensures
            final(self).state() == advance(old(self).state()),
            r == a + mix(final(self).state()) as int % (b - a),
            a <= r < b,
    {
        let bits = self.next_u64();
        let span = (b - a) as u64;
        let off = bits % span;
        a + off as usize
    }
}

} // verus!
