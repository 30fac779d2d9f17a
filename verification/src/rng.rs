//! Deterministic random streams.
//!
//! Every random decision draws from a stream named by the world seed, a
//! domain, the round and an entity, so a replay of the same commands makes
//! the same decisions on every machine. The generator is xoshiro256**,
//! seeded through SplitMix64.

use vstd::prelude::*;

verus! {

/// What a random stream is for. Each domain is independent of the others.
#[derive(Debug, Clone, Copy, PartialEq, Eq, Structural, PartialOrd, Ord, Hash)]
pub enum SeedDomain {
    Terrain,
    CoverSeeding,
    ForestSpread,
    CapitalRelocation,
    AiJitter,
    UnitPlacement,
}

pub open spec fn domain_code(d: SeedDomain) -> u64 {
    match d {
        SeedDomain::Terrain => 1,
        SeedDomain::CoverSeeding => 2,
        SeedDomain::ForestSpread => 3,
        SeedDomain::CapitalRelocation => 4,
        SeedDomain::AiJitter => 5,
        SeedDomain::UnitPlacement => 6,
    }
}

impl SeedDomain {
    /// The stable number mixed into the seed for this domain.
    pub fn code(self) -> (c: u64)
        ensures
            c == domain_code(self),
    {
        match self {
            SeedDomain::Terrain => 1,
            SeedDomain::CoverSeeding => 2,
            SeedDomain::ForestSpread => 3,
            SeedDomain::CapitalRelocation => 4,
            SeedDomain::AiJitter => 5,
            SeedDomain::UnitPlacement => 6,
        }
    }
}

pub const GOLDEN_GAMMA: u64 = 0x9e37_79b9_7f4a_7c15;

/// `x` rotated left by `k` bits, `0 < k < 64`.
pub open spec fn rotl(x: u64, k: u64) -> u64 {
    (x << k) | (x >> (64 - k) as u64)
}

fn rotate(x: u64, k: u64) -> (r: u64)
    requires
        0 < k < 64,
    ensures
        r == rotl(x, k),
{
    (x << k) | (x >> (64 - k))
}

/// SplitMix64: fold one value into the state.
pub open spec fn mix_absorb(x: u64, v: u64) -> u64 {
    let y = x.wrapping_add(v.wrapping_mul(GOLDEN_GAMMA));
    y ^ (y >> 29u64)
}

/// SplitMix64: the state after one output.
pub open spec fn mix_advance(x: u64) -> u64 {
    x.wrapping_add(GOLDEN_GAMMA)
}

/// SplitMix64: the output drawn from the state `x` (before advancing).
pub open spec fn mix_output(x: u64) -> u64 {
    let z0 = mix_advance(x);
    let z1 = (z0 ^ (z0 >> 30u64)).wrapping_mul(0xbf58_476d_1ce4_e5b9);
    let z2 = (z1 ^ (z1 >> 27u64)).wrapping_mul(0x94d0_49bb_1331_11eb);
    z2 ^ (z2 >> 31u64)
}

/// The generator state: four words of xoshiro256**.
#[derive(Debug, Clone, Copy, PartialEq, Eq, Structural)]
pub struct Rng {
    s0: u64,
    s1: u64,
    s2: u64,
    s3: u64,
}

/// The four words a SplitMix64 state `x` produces, with the all-zero state
/// (which xoshiro cannot leave) replaced by `1, 2, 3, 4`.
pub open spec fn seeded(x: u64) -> (u64, u64, u64, u64) {
    let a = mix_output(x);
    let b = mix_output(mix_advance(x));
    let c = mix_output(mix_advance(mix_advance(x)));
    let d = mix_output(mix_advance(mix_advance(mix_advance(x))));
    if a == 0 && b == 0 && c == 0 && d == 0 {
        (1, 2, 3, 4)
    } else {
        (a, b, c, d)
    }
}

/// The SplitMix64 state a stream is seeded from.
pub open spec fn stream_mixer(world_seed: u64, domain: SeedDomain, turn: u32, entity: u32) -> u64 {
    mix_absorb(mix_absorb(mix_absorb(world_seed, domain_code(domain)), turn as u64), entity as u64)
}

/// The output of xoshiro256** from state `s`.
pub open spec fn xo_output(s: (u64, u64, u64, u64)) -> u64 {
    rotl(s.1.wrapping_mul(5), 7).wrapping_mul(9)
}

/// The xoshiro256** state after one output.
pub open spec fn xo_advance(s: (u64, u64, u64, u64)) -> (u64, u64, u64, u64) {
    let t = s.1 << 17u64;
    let s2 = s.2 ^ s.0;
    let s3 = s.3 ^ s.1;
    let s1 = s.1 ^ s2;
    let s0 = s.0 ^ s3;
    (s0, s1, s2 ^ t, rotl(s3, 45))
}

/// The 32-bit draw: the high half of the next 64-bit output.
pub open spec fn draw32(s: (u64, u64, u64, u64)) -> u32 {
    (xo_output(s) >> 32u64) as u32
}

/// The largest draw accepted by `below(n)`: the top of the last whole block
/// of `n` values, so accepted draws are uniform modulo `n`.
pub open spec fn zone(n: u32) -> u32 {
    (u32::MAX - (u32::MAX % n) - 1) as u32
}

/// How many draws `below` makes before it stops rejecting.
pub const DRAW_LIMIT: u32 = 0xffff_ffff;

/// The result and final state of `below(n)` with `tries` draws left: the
/// first draw at or below the zone, reduced modulo `n`. Should the draws run
/// out, the last one is reduced as it stands.
pub open spec fn below_from(s: (u64, u64, u64, u64), n: u32, tries: nat) -> (u32, (u64, u64, u64, u64))
    decreases tries,
{
    let v = draw32(s);
    let next = xo_advance(s);
    if n <= 1 {
        (0, s)
    } else if v <= zone(n) || tries <= 1 {
        ((v % n) as u32, next)
    } else {
        below_from(next, n, (tries - 1) as nat)
    }
}

pub open spec fn below_spec(s: (u64, u64, u64, u64), n: u32) -> (u32, (u64, u64, u64, u64)) {
    below_from(s, n, DRAW_LIMIT as nat)
}

proof fn lemma_below_from_range(s: (u64, u64, u64, u64), n: u32, tries: nat)
    requires
        n > 1,
    ensures
        below_from(s, n, tries).0 < n,
    decreases tries,
{
    let v = draw32(s);
    if !(v <= zone(n) || tries <= 1) {
        lemma_below_from_range(xo_advance(s), n, (tries - 1) as nat);
    }
}

/// A draw below `n` is below `n`.
pub proof fn lemma_below_in_range(s: (u64, u64, u64, u64), n: u32)
    requires
        n > 0,
    ensures
        below_spec(s, n).0 < n,
{
    if n > 1 {
        lemma_below_from_range(s, n, DRAW_LIMIT as nat);
    }
}

/// The SplitMix64 generator that seeds every stream.
pub struct SplitMix64 {
    x: u64,
}

impl SplitMix64 {
    pub closed spec fn state(&self) -> u64 {
        self.x
    }

    pub fn new(seed: u64) -> (m: SplitMix64)
        ensures
            m.state() == seed,
    {
        SplitMix64 { x: seed }
    }

    /// Fold a value into the state.
    pub fn absorb(&mut self, v: u64)
        ensures
            final(self).state() == mix_absorb(old(self).state(), v),
    {
        let y = self.x.wrapping_add(v.wrapping_mul(GOLDEN_GAMMA));
        self.x = y ^ (y >> 29);
    }

    /// The next output.
    pub fn next(&mut self) -> (out: u64)
        ensures
            out == mix_output(old(self).state()),
            final(self).state() == mix_advance(old(self).state()),
    {
        self.x = self.x.wrapping_add(GOLDEN_GAMMA);
        let mut z = self.x;
        z = (z ^ (z >> 30)).wrapping_mul(0xbf58_476d_1ce4_e5b9);
        z = (z ^ (z >> 27)).wrapping_mul(0x94d0_49bb_1331_11eb);
        z ^ (z >> 31)
    }
}

/// A stream named by the world seed, a domain, the round and an entity.
pub fn stream(world_seed: u64, domain: SeedDomain, turn: u32, entity: u32) -> (r: Rng)
    ensures
        r.state() == seeded(stream_mixer(world_seed, domain, turn, entity)),
{
    let mut mixer = SplitMix64 { x: world_seed };
    mixer.absorb(domain.code());
    mixer.absorb(turn as u64);
    mixer.absorb(entity as u64);
    Rng::from_splitmix(&mut mixer)
}

impl Rng {
    /// The four state words.
    pub closed spec fn state(&self) -> (u64, u64, u64, u64) {
        (self.s0, self.s1, self.s2, self.s3)
    }

    /// A generator seeded from a single number.
    pub fn seed_from_u64(seed: u64) -> (r: Rng)
        ensures
            r.state() == seeded(seed),
    {
        let mut mixer = SplitMix64 { x: seed };
        Rng::from_splitmix(&mut mixer)
    }

    fn from_splitmix(mixer: &mut SplitMix64) -> (r: Rng)
        ensures
            r.state() == seeded(old(mixer).state()),
    {
        let a = mixer.next();
        let b = mixer.next();
        let c = mixer.next();
        let d = mixer.next();
        if a == 0 && b == 0 && c == 0 && d == 0 {
            return Rng { s0: 1, s1: 2, s2: 3, s3: 4 };
        }
        Rng { s0: a, s1: b, s2: c, s3: d }
    }

    /// The next 64 bits.
    pub fn next_u64(&mut self) -> (out: u64)
        ensures
            out == xo_output(old(self).state()),
            final(self).state() == xo_advance(old(self).state()),
    {
        let result = rotate(self.s1.wrapping_mul(5), 7).wrapping_mul(9);
        let t = self.s1 << 17;
        self.s2 = self.s2 ^ self.s0;
        self.s3 = self.s3 ^ self.s1;
        self.s1 = self.s1 ^ self.s2;
        self.s0 = self.s0 ^ self.s3;
        self.s2 = self.s2 ^ t;
        self.s3 = rotate(self.s3, 45);
        result
    }

    /// The next 32 bits: the high half of the next 64.
    pub fn next_u32(&mut self) -> (out: u32)
        ensures
            out == draw32(old(self).state()),
            final(self).state() == xo_advance(old(self).state()),
    {
        (self.next_u64() >> 32) as u32
    }

    /// A uniform integer in `0..n`; always `0` when `n <= 1`. Draws that
    /// would bias the result are rejected and drawn again.
    pub fn below(&mut self, n: u32) -> (r: u32)
        ensures
            (r, final(self).state()) == below_spec(old(self).state(), n),
            n <= 1 ==> r == 0 && final(self).state() == old(self).state(),
            n > 1 ==> r < n,
    {
        proof {
            if n > 1 {
                lemma_below_from_range(self.state(), n, DRAW_LIMIT as nat);
            }
        }
        if n <= 1 {
            return 0;
        }
        let top = u32::MAX - (u32::MAX % n) - 1;
        let mut tries: u32 = DRAW_LIMIT;
        loop
            invariant
                n > 1,
                top == zone(n),
                1 <= tries <= DRAW_LIMIT,
                below_from(self.state(), n, tries as nat) == below_spec(old(self).state(), n),
            decreases tries,
        {
            let v = self.next_u32();
            if v <= top || tries == 1 {
                return v % n;
            }
            tries = tries - 1;
        }
    }

    /// True with probability `percent`/100: never at 0, always from 100 up.
    pub fn chance_percent(&mut self, percent: u32) -> (b: bool)
        ensures
            percent == 0 ==> !b && final(self).state() == old(self).state(),
            percent >= 100 ==> b && final(self).state() == old(self).state(),
            0 < percent < 100 ==> b == (below_spec(old(self).state(), 100).0 < percent)
                && final(self).state() == below_spec(old(self).state(), 100).1,
    {
        if percent == 0 {
            return false;
        }
        if percent >= 100 {
            return true;
        }
        self.below(100) < percent
    }

    /// A uniformly chosen item; `None` for an empty slice.
    pub fn pick<'a, T>(&mut self, items: &'a [T]) -> (r: Option<&'a T>)
        ensures
            items@.len() == 0 ==> r is None && final(self).state() == old(self).state(),
            items@.len() > 0 ==> {
                let (i, s) = below_spec(old(self).state(), items@.len() as u32);
                &&& i < items@.len()
                &&& r == Some(&items@[i as int])
                &&& final(self).state() == s
            },
    {
        if items.len() == 0 {
            return None;
        }
        let len = items.len();
        #[verifier::truncate]
        let n = len as u32;
        proof {
            assert(n <= len) by (bit_vector)
                requires n == len as u32;
        }
        let i = self.below(n);
        Some(&items[i as usize])
    }
}

} // verus!
