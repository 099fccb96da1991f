//! A tiny deterministic generator (xorshift64*). Deliberately cheap on wasm32: three shift and xor
//! pairs and one 64-bit multiplication.
use vstd::prelude::*;

use crate::testing::rng::{lemma_scaled, scaled};

verus! {

/// The state after `x`.
pub open spec fn stepped(x: u64) -> u64 {
    let a = x ^ (x >> 12);
    let b = a ^ (a << 25);
    b ^ (b >> 27)
}

/// What is put out with state `x`.
pub open spec fn output(x: u64) -> u32 {
    (x.wrapping_mul(0x2545_F491_4F6C_DD1D) >> 32) as u32
}

pub struct Rng {
    state: u64,
}

impl Rng {
    /// The state, which the next output is computed from.
    pub closed spec fn view(&self) -> u64 {
        self.state
    }

    /// Start from `seed`. A zero state would be a fixed point, so some bits are always set.
    pub fn new(seed: u64) -> (r: Self)
        ensures
            r@ == seed | 0x9E37_79B9_7F4A_7C15,
    {
        Rng { state: seed | 0x9E37_79B9_7F4A_7C15 }
    }

    /// Next 32 random bits.
    pub fn next_u32(&mut self) -> (r: u32)
        ensures
            final(self)@ == stepped(old(self)@),
            r == output(final(self)@),
    {
        let x: u64 = self.state;
        let a: u64 = x ^ (x >> 12);
        let b: u64 = a ^ (a << 25);
        let c: u64 = b ^ (b >> 27);
        self.state = c;
        (c.wrapping_mul(0x2545_F491_4F6C_DD1D) >> 32) as u32
    }

    /// Uniform in `0..n` (a multiplication and a shift; the tiny bias is irrelevant here), 0 for
    /// an empty range.
    pub fn below(&mut self, n: u32) -> (r: u32)
        ensures
            final(self)@ == stepped(old(self)@),
            r == scaled(output(final(self)@) as int, n as int),
            n > 0 ==> r < n,
    {
        let x: u32 = self.next_u32();
        if n == 0 {
            assert(x * 0 == 0);
            return 0;
        }
        proof {
            lemma_scaled(x, n);
        }
        let wide: u64 = x as u64 * n as u64;
        (wide >> 32) as u32
    }
}

/// The generator never reaches the fixed point at zero.
pub proof fn law_the_state_is_never_zero(seed: u64, x: u64)
    ensures
        seed | 0x9E37_79B9_7F4A_7C15 != 0,
        x != 0 ==> stepped(x) != 0,
{
    let a: u64 = x ^ (x >> 12);
    let b: u64 = a ^ (a << 25);
    assert(seed | 0x9E37_79B9_7F4A_7C15 != 0 && (x != 0 ==> x ^ (x >> 12) != 0) && (a != 0 ==> a ^ (
    a << 25) != 0) && (b != 0 ==> b ^ (b >> 27) != 0)) by (bit_vector);
}

/// Different states step to different states, so the generator runs through one cycle.
pub proof fn law_steps_are_reversible(x: u64, y: u64)
    requires
        stepped(x) == stepped(y),
    ensures
        x == y,
{
    let a: u64 = x ^ (x >> 12);
    let b: u64 = a ^ (a << 25);
    let c: u64 = y ^ (y >> 12);
    let d: u64 = c ^ (c << 25);
    assert((b ^ (b >> 27) == d ^ (d >> 27) ==> b == d) && (a ^ (a << 25) == c ^ (c << 25) ==> a
        == c) && (x ^ (x >> 12) == y ^ (y >> 12) ==> x == y)) by (bit_vector);
}

} // verus!
