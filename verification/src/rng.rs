//! A tiny seeded generator (mulberry32). The fault rolls draw from this instead
//! of a system generator, so a stepped run with a fixed seed produces the same
//! frame sequence every time: the basis for record & replay.

use vstd::arithmetic::mul::lemma_mul_strict_inequality;
use vstd::arithmetic::power2::*;
use vstd::prelude::*;
use crate::double::Double;

verus! {

/// What one step adds to the state.
pub const GAMMA: u32 = 0x6d2b_79f5;

/// mulberry32: 32 bits of state, one draw of 32 bits per step.
#[derive(Clone, Copy, Debug)]
pub struct Mulberry32 {
    state: u32,
}

/// The state one step after `state`.
pub open spec fn stepped(state: u32) -> u32 {
    ((state + GAMMA) % 0x1_0000_0000) as u32
}

/// The product of `a` and `b` in 32 bits.
pub open spec fn product32(a: u32, b: u32) -> u32 {
    ((a * b) % 0x1_0000_0000) as u32
}

/// The sum of `a` and `b` in 32 bits.
pub open spec fn sum32(a: u32, b: u32) -> u32 {
    ((a + b) % 0x1_0000_0000) as u32
}

/// The 32 bits drawn from the stepped state `s`.
pub open spec fn scrambled(s: u32) -> u32 {
    let t = product32(s ^ (s >> 15), 1u32 | s);
    let u = sum32(t, product32(t ^ (t >> 7), 61u32 | t)) ^ t;
    u ^ (u >> 14)
}

/// The draw that a generator in `state` makes next.
pub open spec fn drawn(state: u32) -> u32 {
    scrambled(stepped(state))
}

impl View for Mulberry32 {
    type V = u32;

    closed spec fn view(&self) -> u32 {
        self.state
    }
}

impl Mulberry32 {
    pub fn new(seed: u32) -> (r: Self)
        ensures
            r@ == seed,
    {
        Self { state: seed }
    }

    /// The next draw, as a count of 2^-32.
    pub fn next_u32(&mut self) -> (r: u32)
        ensures
            final(self)@ == stepped(old(self)@),
            r == drawn(old(self)@),
    {
        self.state = self.state.wrapping_add(GAMMA);
        let s: u32 = self.state;
        let t: u32 = (s ^ (s >> 15)).wrapping_mul(1u32 | s);
        let u: u32 = t.wrapping_add((t ^ (t >> 7)).wrapping_mul(61u32 | t)) ^ t;
        u ^ (u >> 14)
    }

    /// The next draw, in `[0, 1)`.
    pub fn next_f64(&mut self) -> (r: Double)
        ensures
            final(self)@ == stepped(old(self)@),
            !r.is_nan(),
            !r.negative(),
            r.scaled() == drawn(old(self)@) * pow2(1042),
            0 <= r.scaled() < pow2(1074),
    {
        let draw: u32 = self.next_u32();
        proof {
            lemma2_to64();
            lemma_pow2_pos(1042);
            lemma_pow2_adds(32, 1042);
            lemma_mul_strict_inequality(draw as int, pow2(32) as int, pow2(1042) as int);
        }
        Double::of_ratio(draw as u64, 32)
    }

    /// `true` with probability `p`: whether the next draw is below `p`.
    pub fn chance(&mut self, p: Double) -> (r: bool)
        ensures
            final(self)@ == stepped(old(self)@),
            r == p.exceeds_draw(drawn(old(self)@)),
    {
        let draw: u32 = self.next_u32();
        p.above_draw(draw)
    }
}

/// No roll succeeds at probability zero or below.
pub proof fn law_no_chance(p: Double, draw: u32)
    requires
        p.scaled() <= 0,
    ensures
        !p.exceeds_draw(draw),
{
}

/// Every roll succeeds at probability one or above.
pub proof fn law_certainty(p: Double, draw: u32)
    requires
        !p.is_nan(),
        p.scaled() >= pow2(1074),
    ensures
        p.exceeds_draw(draw),
{
    lemma2_to64();
    lemma_pow2_pos(1042);
    lemma_pow2_pos(1074);
    lemma_pow2_adds(32, 1042);
    lemma_mul_strict_inequality(draw as int, pow2(32) as int, pow2(1042) as int);
}

} // verus!
