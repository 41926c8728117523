//! The small xorshift generator that randomises where address-space
//! searches begin.
use vstd::prelude::*;

verus! {

/// Rotates a 64-bit word left by 17 bits.
pub open spec fn rotl17(x: u64) -> u64 {
    (x << 17u64) | (x >> 47u64)
}

/// The state after one step of the generator from `(s0, s1)`, together
/// with the value that step yields.
pub open spec fn rng_step(s0: u64, s1: u64) -> (u64, u64, u64) {
    let x1 = s0 ^ (s0 << 23u64);
    let x2 = x1 ^ (x1 >> 17u64);
    let x = x2 ^ (s1 ^ (s1 >> 26u64));
    let z = vstd::wrapping::u64_specs::wrapping_add(x, s1);
    let new_s0 = s1 ^ rotl17(z);
    let o1 = z ^ (z >> 30u64);
    let o2 = vstd::wrapping::u64_specs::wrapping_mul(o1, 0xbf58476d1ce4e5b9u64);
    let o3 = o2 ^ (o2 >> 27u64);
    let o4 = vstd::wrapping::u64_specs::wrapping_mul(o3, 0x94d049bb133111ebu64);
    let out = o4 ^ (o4 >> 31u64);
    (new_s0, x, out)
}

pub struct Rng {
    s0: u64,
    s1: u64,
}

impl Rng {
    /// The two words of state.
    pub closed spec fn state(&self) -> (u64, u64) {
        (self.s0, self.s1)
    }

    /// The value that the next call of `next_u64` yields.
    pub open spec fn next_value(&self) -> u64 {
        rng_step(self.state().0, self.state().1).2
    }

    /// The state after the next call of `next_u64`.
    pub open spec fn next_state(&self) -> (u64, u64) {
        (rng_step(self.state().0, self.state().1).0, rng_step(self.state().0, self.state().1).1)
    }

    /// A generator seeded with `seed`: the first word is the seed, the
    /// second the seed XOR-ed with itself shifted up by 32 bits.
    pub fn new(seed: u64) -> (rng: Self)
        ensures
            rng.state() == (seed, (seed << 32u64) ^ seed),
    {
        let mut rng = Self { s0: 0, s1: 0 };
        rng.s0 = seed;
        rng.s1 = (seed << 32) ^ seed;
        rng
    }

    /// Advances the generator one step and returns the mixed output.
    pub fn next_usize(&mut self) -> (out: u64)
        ensures
            out == old(self).next_value(),
            final(self).state() == old(self).next_state(),
    {
        let mut x = self.s0;
        let y = self.s1;

        x ^= x << 23;
        x ^= x >> 17;
        x ^= y ^ (y >> 26);

        self.s0 = y;
        self.s1 = x;

        let z = x.wrapping_add(y);
        self.s0 ^= (z << 17) | (z >> 47);

        let mut out = z;
        out ^= out >> 30;
        out = out.wrapping_mul(0xbf58476d1ce4e5b9);
        out ^= out >> 27;
        out = out.wrapping_mul(0x94d049bb133111eb);
        out ^= out >> 31;

        out
    }
}

} // verus!
