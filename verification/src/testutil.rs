//! Deterministic pseudo-random numbers for tests and benchmarks
//! (xoshiro256**, seeded through SplitMix64): reproducible across platforms.
use vstd::prelude::*;

verus! {

/// The SplitMix64 increment.
pub const GOLDEN: u64 = 0x9E37_79B9_7F4A_7C15;

/// SplitMix64's output function.
pub open spec fn mix_spec(x: u64) -> u64 {
    let z1 = (x ^ (x >> 30u64)).wrapping_mul(0xBF58_476D_1CE4_E5B9u64);
    let z2 = (z1 ^ (z1 >> 27u64)).wrapping_mul(0x94D0_49BB_1331_11EBu64);
    z2 ^ (z2 >> 31u64)
}

/// Rotation left by `k` bits, `0 < k < 64`.
pub open spec fn rotl_spec(x: u64, k: u64) -> u64 {
    (x << k) | (x >> (64 - k) as u64)
}

/// The four state words after `Rng::new(seed)`.
pub open spec fn seeded(seed: u64) -> (u64, u64, u64, u64) {
    let x0 = seed.wrapping_add(GOLDEN);
    let x1 = x0.wrapping_add(GOLDEN);
    let x2 = x1.wrapping_add(GOLDEN);
    let x3 = x2.wrapping_add(GOLDEN);
    let x4 = x3.wrapping_add(GOLDEN);
    (mix_spec(x1), mix_spec(x2), mix_spec(x3), mix_spec(x4))
}

/// The output of one xoshiro256** step from state `s`.
pub open spec fn output_spec(s: (u64, u64, u64, u64)) -> u64 {
    rotl_spec(s.1.wrapping_mul(5), 7).wrapping_mul(9)
}

/// The state after one xoshiro256** step from state `s`.
pub open spec fn step_spec(s: (u64, u64, u64, u64)) -> (u64, u64, u64, u64) {
    let t = s.1 << 17u64;
    let s2 = s.2 ^ s.0;
    let s3 = s.3 ^ s.1;
    let s1 = s.1 ^ s2;
    let s0 = s.0 ^ s3;
    (s0, s1, s2 ^ t, rotl_spec(s3, 45))
}

/// A xoshiro256** generator.
pub struct Rng {
    pub(crate) s0: u64,
    pub(crate) s1: u64,
    pub(crate) s2: u64,
    pub(crate) s3: u64,
}

fn mix(x: u64) -> (r: u64)
    ensures
        r == mix_spec(x),
{
    let z = (x ^ (x >> 30)).wrapping_mul(0xBF58_476D_1CE4_E5B9);
    let z = (z ^ (z >> 27)).wrapping_mul(0x94D0_49BB_1331_11EB);
    z ^ (z >> 31)
}

fn rotl(x: u64, k: u64) -> (r: u64)
    requires
        0 < k < 64,
    ensures
        r == rotl_spec(x, k),
{
    (x << k) | (x >> (64 - k))
}

impl Rng {
    /// The current state words.
    pub open(crate) spec fn state(&self) -> (u64, u64, u64, u64) {
        (self.s0, self.s1, self.s2, self.s3)
    }

    /// A generator whose state is SplitMix64 spread over `seed`.
    pub fn new(seed: u64) -> (r: Self)
        ensures
            r.state() == seeded(seed),
    {
        let x0 = seed.wrapping_add(GOLDEN);
        let x1 = x0.wrapping_add(GOLDEN);
        let a = mix(x1);
        let x2 = x1.wrapping_add(GOLDEN);
        let b = mix(x2);
        let x3 = x2.wrapping_add(GOLDEN);
        let c = mix(x3);
        let x4 = x3.wrapping_add(GOLDEN);
        let d = mix(x4);
        Rng { s0: a, s1: b, s2: c, s3: d }
    }

    /// The next 64 random bits.
    pub fn next(&mut self) -> (r: u64)
        ensures
            r == output_spec(old(self).state()),
            final(self).state() == step_spec(old(self).state()),
    {
        let result = rotl(self.s1.wrapping_mul(5), 7).wrapping_mul(9);
        let t = self.s1 << 17;
        self.s2 = self.s2 ^ self.s0;
        self.s3 = self.s3 ^ self.s1;
        self.s1 = self.s1 ^ self.s2;
        self.s0 = self.s0 ^ self.s3;
        self.s2 = self.s2 ^ t;
        self.s3 = rotl(self.s3, 45);
        result
    }

    /// Uniform in `[0, n)`.
    pub fn below(&mut self, n: u64) -> (r: u64)
        requires
            n > 0,
        ensures
            r == output_spec(old(self).state()) % n,
            r < n,
            final(self).state() == step_spec(old(self).state()),
    {
        self.next() % n
    }

    /// Uniform `i64` in `[lo, hi]`.
    pub fn range_i64(&mut self, lo: i64, hi: i64) -> (r: i64)
        requires
            lo <= hi,
            hi - lo + 1 <= i64::MAX,
        ensures
            r == lo + (output_spec(old(self).state()) % ((hi - lo + 1) as u64)) as int,
            lo <= r <= hi,
            final(self).state() == step_spec(old(self).state()),
    {
        let n = (hi - lo + 1) as u64;
        let k = self.below(n);
        lo + k as i64
    }
}

} // verus!
