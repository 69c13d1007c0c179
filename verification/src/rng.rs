//! The deterministic random stream that drives branching.
//!
//! The simulation only asks for "a reproducible sequence of uniform values
//! given a fixed seed and call order", so the stream is a 64-bit xorshift
//! whose every transition is stated exactly: two registries seeded alike and
//! stepped alike draw identical values.

use vstd::prelude::*;

verus! {

/// The stream state a seed starts from. The low bit is forced so the state
/// is never zero (zero is the one fixed point of the xorshift transition).
pub open spec fn rng_seed_state(seed: u64) -> u64 {
    seed | 1
}

/// One xorshift transition of the stream state.
pub open spec fn rng_next_state(s: u64) -> u64 {
    let a = s ^ (s << 13);
    let b = a ^ (a >> 7);
    b ^ (b << 17)
}

/// The uniform value in `[0, SCALE)` drawn by one call on state `s`: the top
/// sixteen bits of the successor state, as a fixed-point fraction of unity.
pub open spec fn rng_unit_of(s: u64) -> int {
    (rng_next_state(s) >> 48) as int
}

/// A seeded deterministic generator of uniform fixed-point values.
#[derive(Clone, Copy, Debug, PartialEq, Eq, Structural)]
pub struct Rng {
    pub state: u64,
}

impl Rng {
    /// Seed the stream.
    pub fn new(seed: u64) -> (r: Rng)
        ensures
            r.state == rng_seed_state(seed),
    {
        Rng { state: seed | 1 }
    }

    /// Draw one uniform value in `[0, SCALE)`, advancing the stream.
    pub fn next_unit(&mut self) -> (r: i64)
        ensures
            final(self).state == rng_next_state(old(self).state),
            r == rng_unit_of(old(self).state),
            0 <= r < 65536,
    {
        let s0 = self.state;
        let a = s0 ^ (s0 << 13u64);
        let b = a ^ (a >> 7u64);
        let c = b ^ (b << 17u64);
        self.state = c;
        proof {
            assert((c >> 48u64) < 65536u64) by (bit_vector);
        }
        (c >> 48u64) as i64
    }
}

} // verus!
