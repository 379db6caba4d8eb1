//! Deterministic pseudo-random numbers.
use vstd::prelude::*;

verus! {

/// Multiplier of the linear congruential step.
pub const LCG_A: u64 = 1664525;
/// Increment of the linear congruential step.
pub const LCG_C: u64 = 1013904223;

/// The state after one step from `state`: `A * state + C` with 64-bit
/// wrap-around, reduced modulo 2^32.
pub open spec fn lcg_step(state: u64) -> u64 {
    (((LCG_A * state + LCG_C) % 0x1_0000_0000_0000_0000int) % 0x1_0000_0000int) as u64
}

/// Seeded generator; the same seed gives the same sequence.
pub struct DeterministicRng {
    seed: u64,
    state: u64,
}

impl DeterministicRng {
    pub closed spec fn spec_seed(&self) -> u64 {
        self.seed
    }

    pub closed spec fn spec_state(&self) -> u64 {
        self.state
    }

    pub fn new(seed: u64) -> (r: Self)
        ensures
            r.spec_seed() == seed,
            r.spec_state() == seed,
    {
        DeterministicRng { seed, state: seed }
    }

    /// Advance one step and return the new state.
    pub fn next_u32(&mut self) -> (v: u32)
        ensures
            final(self).spec_seed() == old(self).spec_seed(),
            final(self).spec_state() == lcg_step(old(self).spec_state()),
            v == lcg_step(old(self).spec_state()),
    {
        let p = LCG_A.wrapping_mul(self.state);
        let x = p.wrapping_add(LCG_C);
        proof {
            let s = self.state as int;
            let m = 0x1_0000_0000_0000_0000int;
            let a = LCG_A as int;
            let c = LCG_C as int;
            assert(p as int == (a * s) % m);
            assert(x as int == (p + c) % m) by {
                if p + c >= m {
                    vstd::arithmetic::div_mod::lemma_fundamental_div_mod_converse(p + c, m, 1, p + c - m);
                } else {
                    vstd::arithmetic::div_mod::lemma_small_mod((p + c) as nat, m as nat);
                }
            }
            vstd::arithmetic::div_mod::lemma_add_mod_noop(a * s, c, m);
            vstd::arithmetic::div_mod::lemma_small_mod(c as nat, m as nat);
            vstd::arithmetic::div_mod::lemma_mod_twice(p + c, m);
            assert(x as int == (a * s + c) % m);
        }
        self.state = x % 0x1_0000_0000;
        self.state as u32
    }
}

} // verus!
