//! The deterministic pseudo-random stream behind election timeouts.
use vstd::prelude::*;

use crate::ids::Seed;

verus! {

/// Four words of xoshiro256++ state.
#[derive(Clone, Copy, Debug, PartialEq, Eq, Structural)]
pub struct Xoshiro256pp {
    pub s0: u64,
    pub s1: u64,
    pub s2: u64,
    pub s3: u64,
}

pub open spec fn rotated(word: u64, by: u64) -> u64 {
    (word << by) | (word >> ((64 - by) as u64))
}

/// One word of the splitmix64 stream that seeds the state.
pub open spec fn mixed(word: u64) -> u64 {
    let a = (word ^ (word >> 30)).wrapping_mul(0xBF58_476D_1CE4_E5B9);
    let b = (a ^ (a >> 27)).wrapping_mul(0x94D0_49BB_1331_11EB);
    b ^ (b >> 31)
}

/// The state of the stream of one node.
pub open spec fn seeded(seed: Seed, node: u64) -> Xoshiro256pp {
    let a = seed.0.wrapping_add(node.wrapping_mul(0x9E37_79B9_7F4A_7C15));
    let b = a.wrapping_add(0x9E37_79B9_7F4A_7C15);
    let c = b.wrapping_add(0x9E37_79B9_7F4A_7C15);
    let d = c.wrapping_add(0x9E37_79B9_7F4A_7C15);
    Xoshiro256pp { s0: mixed(a), s1: mixed(b), s2: mixed(c), s3: mixed(d) }
}

impl Xoshiro256pp {
    /// The next word of the stream.
    pub open spec fn word(self) -> u64 {
        rotated(self.s0.wrapping_add(self.s3), 23).wrapping_add(self.s0)
    }

    /// The state behind the next word.
    pub open spec fn advanced(self) -> Xoshiro256pp {
        let t = self.s1 << 17;
        let s2 = self.s2 ^ self.s0;
        let s3 = self.s3 ^ self.s1;
        Xoshiro256pp {
            s0: self.s0 ^ s3,
            s1: self.s1 ^ s2,
            s2: s2 ^ t,
            s3: rotated(s3, 45),
        }
    }

    /// The next number of the half-open range from `low` to `high`.
    pub open spec fn drawn(self, low: u64, high: u64) -> u64 {
        (low + self.word() % ((high - low) as u64)) as u64
    }

    pub fn stream(seed: Seed, node: u64) -> (generator: Self)
        ensures
            generator == seeded(seed, node),
    {
        let a: u64 = seed.0.wrapping_add(node.wrapping_mul(0x9E37_79B9_7F4A_7C15));
        let b: u64 = a.wrapping_add(0x9E37_79B9_7F4A_7C15);
        let c: u64 = b.wrapping_add(0x9E37_79B9_7F4A_7C15);
        let d: u64 = c.wrapping_add(0x9E37_79B9_7F4A_7C15);
        Xoshiro256pp { s0: mix(a), s1: mix(b), s2: mix(c), s3: mix(d) }
    }

    fn next(&mut self) -> (word: u64)
        ensures
            word == old(self).word(),
            *final(self) == old(self).advanced(),
    {
        let word: u64 = rotate(self.s0.wrapping_add(self.s3), 23).wrapping_add(self.s0);
        let t: u64 = self.s1 << 17;
        let s2: u64 = self.s2 ^ self.s0;
        let s3: u64 = self.s3 ^ self.s1;
        self.s1 = self.s1 ^ s2;
        self.s0 = self.s0 ^ s3;
        self.s2 = s2 ^ t;
        self.s3 = rotate(s3, 45);
        word
    }

    /// A number of the half-open range from `low` to `high`.
    pub fn range_u64(&mut self, low: u64, high: u64) -> (value: u64)
        requires
            low < high,
        ensures
            value == old(self).drawn(low, high),
            low <= value < high,
            *final(self) == old(self).advanced(),
    {
        let word: u64 = self.next();
        let span: u64 = high - low;
        let rest: u64 = word % span;
        assert(rest < span);
        low + rest
    }
}

fn rotate(word: u64, by: u64) -> (r: u64)
    requires
        0 < by < 64,
    ensures
        r == rotated(word, by),
{
    (word << by) | (word >> (64 - by))
}

fn mix(word: u64) -> (r: u64)
    ensures
        r == mixed(word),
{
    let a: u64 = (word ^ (word >> 30)).wrapping_mul(0xBF58_476D_1CE4_E5B9);
    let b: u64 = (a ^ (a >> 27)).wrapping_mul(0x94D0_49BB_1331_11EB);
    b ^ (b >> 31)
}

} // verus!
