//! Shared utilities.

use vstd::prelude::*;

verus! {

/// Deterministic linear congruential generator (Knuth's MMIX constants).
/// Repeatable, not cryptographic.
pub struct SubMsLcg(u64);

/// One step of the generator's state: `s * 6364136223846793005 +
/// 1442695040888963407`, modulo 2^64.
pub open spec fn lcg_step(s: u64) -> u64 {
    vstd::wrapping::u64_specs::wrapping_add(
        vstd::wrapping::u64_specs::wrapping_mul(s, 6364136223846793005),
        1442695040888963407,
    )
}

impl SubMsLcg {
    /// The generator's current state.
    pub closed spec fn state(&self) -> u64 {
        self.0
    }

    /// A generator seeded with `seed | 1`, so seed 0 doesn't collapse the
    /// sequence.
    pub fn new(seed: u64) -> (g: Self)
        ensures
            g.state() == seed | 1,
    {
        SubMsLcg(seed | 1)
    }

    /// Advance the state (`s * 6364136223846793005 + 1442695040888963407`,
    /// wrapping) and return its upper 32 bits.
    pub fn next_u32(&mut self) -> (r: u32)
        ensures
            final(self).state() == lcg_step(old(self).state()),
            r == final(self).state() >> 32,
    {
        let s = self.0.wrapping_mul(6364136223846793005).wrapping_add(1442695040888963407);
        self.0 = s;
        assert(s >> 32 <= u32::MAX) by (bit_vector);
        (s >> 32) as u32
    }

    /// `next_u32() % n`, or `0` (without advancing) when `n == 0`.
    pub fn bounded(&mut self, n: u32) -> (r: u32)
        ensures
            n == 0 ==> r == 0 && final(self).state() == old(self).state(),
            n > 0 ==> final(self).state() == lcg_step(old(self).state()),
            n > 0 ==> r == ((final(self).state() >> 32) as u32) % n,
            n > 0 ==> r < n,
    {
        if n == 0 {
            return 0;
        }
        self.next_u32() % n
    }
}

} // verus!
