//! The particle filter's random numbers.
//!
//! Determinism is a feature: a run that reproduces bit for bit from a seed can be
//! replayed against a recorded session. xoshiro256++ seeded through splitmix64.
//! Uniform numbers leave here as integers; normals come in pairs, and the spare one
//! of a pair is kept here until it is asked for.

use vstd::prelude::*;
use crate::ieee::Single;

verus! {

pub const GOLDEN: u64 = 0x9E37_79B9_7F4A_7C15;

pub const MIX_A: u64 = 0xBF58_476D_1CE4_E5B9;

pub const MIX_B: u64 = 0x94D0_49BB_1331_11EB;

/// One output of splitmix64 for the counter `x`.
pub open spec fn mixed(x: u64) -> u64 {
    let a = (x ^ (x >> 30)).wrapping_mul(MIX_A);
    let b = (a ^ (a >> 27)).wrapping_mul(MIX_B);
    b ^ (b >> 31)
}

/// The counter after `n` steps from a seed.
pub open spec fn counter(seed: u64, n: nat) -> u64
    decreases n,
{
    if n == 0 {
        seed
    } else {
        counter(seed, (n - 1) as nat).wrapping_add(GOLDEN)
    }
}

/// The four words that a seed expands into.
pub open spec fn seeded(seed: u64) -> Seq<u64> {
    seq![
        mixed(counter(seed, 1)),
        mixed(counter(seed, 2)),
        mixed(counter(seed, 3)),
        mixed(counter(seed, 4)),
    ]
}

/// `x` turned left by `k` bits.
pub open spec fn rotated(x: u64, k: u64) -> u64 {
    (x << k) | (x >> ((64 - k) as u64))
}

/// What the generator hands out in this state.
pub open spec fn output(s: Seq<u64>) -> u64 {
    rotated(s[0].wrapping_add(s[3]), 23).wrapping_add(s[0])
}

/// The state after that.
pub open spec fn advanced(s: Seq<u64>) -> Seq<u64> {
    let s2 = s[2] ^ s[0];
    let s3 = s[3] ^ s[1];
    seq![s[0] ^ s3, s[1] ^ s2, s2 ^ (s[1] << 17), rotated(s3, 45)]
}

/// The state after `n` numbers.
pub open spec fn advanced_by(s: Seq<u64>, n: nat) -> Seq<u64>
    decreases n,
{
    if n == 0 {
        s
    } else {
        advanced(advanced_by(s, (n - 1) as nat))
    }
}

fn mix(x: u64) -> (z: u64)
    ensures
        z == mixed(x),
{
    let a: u64 = (x ^ (x >> 30)).wrapping_mul(MIX_A);
    let b: u64 = (a ^ (a >> 27)).wrapping_mul(MIX_B);
    b ^ (b >> 31)
}

fn rotate(x: u64, k: u64) -> (r: u64)
    requires
        0 < k < 64,
    ensures
        r == rotated(x, k),
{
    (x << k) | (x >> (64 - k))
}

/// How to make a normal number.
pub enum NormalDraw {
    /// The spare of the last pair.
    Spare(Single),
    /// A fresh pair is to be made from these two uniform numbers, each a count of
    /// 2^-24; the second of the pair goes to [`Rng::keep_spare`].
    Fresh { radius: u32, angle: u32 },
}

pub struct Rng {
    s: [u64; 4],
    spare_normal: Option<Single>,
}

impl Rng {
    /// The generator's four words.
    pub closed spec fn words(&self) -> Seq<u64> {
        self.s@
    }

    /// The normal number kept for the next call.
    pub closed spec fn spare(&self) -> Option<Single> {
        self.spare_normal
    }

    /// Expands the seed into the four words, so that small seeds still start
    /// well-mixed.
    pub fn from_seed(seed: u64) -> (rng: Self)
        ensures
            rng.words() == seeded(seed),
            rng.spare() is None,
    {
        proof {
            reveal_with_fuel(counter, 5);
        }
        let x1: u64 = seed.wrapping_add(GOLDEN);
        let x2: u64 = x1.wrapping_add(GOLDEN);
        let x3: u64 = x2.wrapping_add(GOLDEN);
        let x4: u64 = x3.wrapping_add(GOLDEN);
        let rng = Rng { s: [mix(x1), mix(x2), mix(x3), mix(x4)], spare_normal: None };
        assert(rng.s@ =~= seeded(seed));
        rng
    }

    /// The next 64 bits of the stream.
    pub fn next_u64(&mut self) -> (x: u64)
        ensures
            x == output(old(self).words()),
            final(self).words() == advanced(old(self).words()),
            final(self).spare() == old(self).spare(),
    {
        let s0: u64 = self.s[0];
        let s1: u64 = self.s[1];
        let s2: u64 = self.s[2] ^ s0;
        let s3: u64 = self.s[3] ^ s1;
        let result: u64 = rotate(s0.wrapping_add(self.s[3]), 23).wrapping_add(s0);
        self.s = [s0 ^ s3, s1 ^ s2, s2 ^ (s1 << 17), rotate(s3, 45)];
        assert(self.s@ =~= advanced(old(self).words()));
        result
    }

    /// A uniform number in [0, 1), as a count of 2^-24: all the precision a single
    /// holds.
    pub fn uniform(&mut self) -> (n: u32)
        ensures
            n == output(old(self).words()) >> 40,
            n < 0x100_0000,
            final(self).words() == advanced(old(self).words()),
            final(self).spare() == old(self).spare(),
    {
        let x: u64 = self.next_u64();
        assert(x >> 40 < 0x100_0000) by (bit_vector);
        (x >> 40) as u32
    }

    /// A uniform integer below `n`.
    pub fn index(&mut self, n: usize) -> (i: usize)
        requires
            n > 0,
        ensures
            i < n,
            i == output(old(self).words()) % (n as u64),
            final(self).words() == advanced(old(self).words()),
            final(self).spare() == old(self).spare(),
    {
        let x: u64 = self.next_u64();
        (x % n as u64) as usize
    }

    /// What the next normal number is made of: the spare of the last pair, which is
    /// then gone, or two fresh uniform numbers.
    pub fn normal_draw(&mut self) -> (draw: NormalDraw)
        ensures
            final(self).spare() is None,
            match old(self).spare() {
                Some(z) => draw == NormalDraw::Spare(z) && final(self).words() == old(
                    self,
                ).words(),
                None => {
                    &&& draw matches NormalDraw::Fresh { radius, angle }
                    &&& radius == output(old(self).words()) >> 40
                    &&& angle == output(advanced(old(self).words())) >> 40
                    &&& radius < 0x100_0000
                    &&& angle < 0x100_0000
                    &&& final(self).words() == advanced(advanced(old(self).words()))
                },
            },
    {
        match self.spare_normal {
            Some(z) => {
                self.spare_normal = None;
                NormalDraw::Spare(z)
            },
            None => {
                let radius: u32 = self.uniform();
                let angle: u32 = self.uniform();
                NormalDraw::Fresh { radius, angle }
            },
        }
    }

    /// Keeps the second normal number of a pair.
    pub fn keep_spare(&mut self, z: Single)
        ensures
            final(self).spare() == Some(z),
            final(self).words() == old(self).words(),
    {
        self.spare_normal = Some(z);
    }
}

/// The stream is pinned by the seed: after as many numbers, two generators of one
/// seed are in the same state and hand out the same number.
pub proof fn law_stream_is_deterministic(a: Rng, b: Rng, seed: u64, n: nat)
    requires
        a.words() == advanced_by(seeded(seed), n),
        b.words() == advanced_by(seeded(seed), n),
    ensures
        output(a.words()) == output(b.words()),
        advanced(a.words()) == advanced_by(seeded(seed), n + 1),
        advanced(b.words()) == advanced(a.words()),
{
}

} // verus!
