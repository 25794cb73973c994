//! A small deterministic generator, so that generated cases are the same on
//! every run and a change in them is a change in the crate.

use vstd::prelude::*;

verus! {

/// The multiplier of xorshift64*.
pub const XORSHIFT_MUL: u64 = 0x2545_f491_4f6c_dd1d;

/// An xorshift64* generator; the field is its state.
pub struct Rng(pub u64);

/// The state after one xorshift64 step from `s`.
pub open spec fn xorshift(s: u64) -> u64 {
    let a = s ^ (s >> 12u64);
    let b = a ^ ((a << 25u64) as u64);
    b ^ (b >> 27u64)
}

/// The number xorshift64* hands out from the state `s` (the state after the
/// step, times the multiplier, modulo 2^64).
pub open spec fn scramble(s: u64) -> u64 {
    ((s as nat * XORSHIFT_MUL as nat) % 0x1_0000_0000_0000_0000) as u64
}

impl Rng {
    /// Advances the state by one xorshift64 step and returns it scrambled.
    pub fn next(&mut self) -> (r: u64)
        ensures
            final(self).0 == xorshift(old(self).0),
            r == scramble(xorshift(old(self).0)),
    {
        self.0 ^= self.0 >> 12u64;
        self.0 ^= self.0 << 25u64;
        self.0 ^= self.0 >> 27u64;
        self.0.wrapping_mul(XORSHIFT_MUL)
    }

    /// The next number reduced below `n`.
    pub fn below(&mut self, n: usize) -> (r: usize)
        requires
            n > 0,
        ensures
            final(self).0 == xorshift(old(self).0),
            r as nat == (scramble(xorshift(old(self).0)) as nat) % (n as nat),
            r < n,
    {
        (self.next() % n as u64) as usize
    }
}

} // verus!
