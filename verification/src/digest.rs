//! FNV-1a, the fingerprint every snapshot and replay check is taken with.
//!
//! A [`Digest`] keeps, as ghost state, every byte written into it, so the value
//! it finishes with is always `fnv1a_spec` of exactly those bytes.

use vstd::prelude::*;

verus! {

pub const FNV_OFFSET: u64 = 0xcbf2_9ce4_8422_2325;

pub const FNV_PRIME: u64 = 0x0000_0100_0000_01b3;

/// One FNV-1a round: xor the byte in, multiply by the prime modulo 2^64.
pub open spec fn fnv_step(h: u64, b: u8) -> u64 {
    (h ^ (b as u64)).wrapping_mul(FNV_PRIME)
}

/// FNV-1a rounds over `bytes`, in order, starting from `h`.
pub open spec fn fnv_fold(h: u64, bytes: Seq<u8>) -> u64
    decreases bytes.len(),
{
    if bytes.len() == 0 {
        h
    } else {
        fnv_step(fnv_fold(h, bytes.drop_last()), bytes.last())
    }
}

/// The 64-bit FNV-1a hash of a byte sequence.
pub open spec fn fnv1a_spec(bytes: Seq<u8>) -> u64 {
    fnv_fold(FNV_OFFSET, bytes)
}

pub proof fn lemma_fnv_push(h: u64, bytes: Seq<u8>, b: u8)
    ensures
        fnv_fold(h, bytes.push(b)) == fnv_step(fnv_fold(h, bytes), b),
{
    assert(bytes.push(b).drop_last() =~= bytes);
}

/// Little-endian bytes of a `u32`.
pub open spec fn le_u32(v: u32) -> Seq<u8> {
    seq![(v & 0xff) as u8, ((v >> 8u32) & 0xff) as u8, ((v >> 16u32) & 0xff) as u8, ((v >> 24u32) & 0xff) as u8]
}

/// Little-endian bytes of a `u64`.
pub open spec fn le_u64(v: u64) -> Seq<u8> {
    le_u32((v & 0xffff_ffff) as u32) + le_u32((v >> 32u64) as u32)
}

/// FNV-1a over a byte slice.
pub fn fnv1a(bytes: &[u8]) -> (h: u64)
    ensures
        h == fnv1a_spec(bytes@),
{
    let mut h = FNV_OFFSET;
    let mut i: usize = 0;
    while i < bytes.len()
        invariant
            i <= bytes@.len(),
            h == fnv1a_spec(bytes@.take(i as int)),
        decreases bytes@.len() - i,
    {
        proof {
            lemma_fnv_push(FNV_OFFSET, bytes@.take(i as int), bytes@[i as int]);
            assert(bytes@.take(i as int).push(bytes@[i as int]) =~= bytes@.take(i + 1));
        }
        h = (h ^ bytes[i] as u64).wrapping_mul(FNV_PRIME);
        i = i + 1;
    }
    assert(bytes@.take(i as int) =~= bytes@);
    h
}

/// A streaming FNV-1a writer.
pub struct Digest {
    state: u64,
    written: Ghost<Seq<u8>>,
}

impl Digest {
    /// Every byte written so far.
    pub closed spec fn bytes(&self) -> Seq<u8> {
        self.written@
    }

    pub closed spec fn wf(&self) -> bool {
        self.state == fnv1a_spec(self.written@)
    }

    pub fn new() -> (d: Digest)
        ensures
            d.wf(),
            d.bytes() == Seq::<u8>::empty(),
    {
        Digest { state: FNV_OFFSET, written: Ghost(Seq::empty()) }
    }

    pub fn byte(&mut self, b: u8)
        requires
            old(self).wf(),
        ensures
            final(self).wf(),
            final(self).bytes() == old(self).bytes().push(b),
    {
        proof {
            lemma_fnv_push(FNV_OFFSET, self.written@, b);
        }
        self.state = (self.state ^ b as u64).wrapping_mul(FNV_PRIME);
        self.written = Ghost(self.written@.push(b));
    }

    pub fn u32(&mut self, v: u32)
        requires
            old(self).wf(),
        ensures
            final(self).wf(),
            final(self).bytes() == old(self).bytes() + le_u32(v),
    {
        let ghost start = self.bytes();
        self.byte((v & 0xff) as u8);
        self.byte(((v >> 8u32) & 0xff) as u8);
        self.byte(((v >> 16u32) & 0xff) as u8);
        self.byte(((v >> 24u32) & 0xff) as u8);
        assert(self.bytes() =~= start + le_u32(v));
    }

    pub fn i32(&mut self, v: i32)
        requires
            old(self).wf(),
        ensures
            final(self).wf(),
            final(self).bytes() == old(self).bytes() + le_u32(v as u32),
    {
        self.u32(v as u32);
    }

    pub fn u64(&mut self, v: u64)
        requires
            old(self).wf(),
        ensures
            final(self).wf(),
            final(self).bytes() == old(self).bytes() + le_u64(v),
    {
        let ghost start = self.bytes();
        self.u32((v & 0xffff_ffff) as u32);
        self.u32((v >> 32u64) as u32);
        assert(self.bytes() =~= start + le_u64(v));
    }

    /// A sentinel-prefixed optional value, so `None` and `Some(0)` differ.
    pub fn opt_u32(&mut self, v: Option<u32>)
        requires
            old(self).wf(),
        ensures
            final(self).wf(),
            final(self).bytes() == old(self).bytes() + opt_bytes(v),
    {
        let ghost start = self.bytes();
        match v {
            None => self.byte(0),
            Some(x) => {
                self.byte(1);
                self.u32(x);
            },
        }
        assert(self.bytes() =~= start + opt_bytes(v));
    }

    pub fn finish(&self) -> (h: u64)
        requires
            self.wf(),
        ensures
            h == fnv1a_spec(self.bytes()),
    {
        self.state
    }
}

/// The encoding of an optional `u32` that [`Digest::opt_u32`] writes.
pub open spec fn opt_bytes(v: Option<u32>) -> Seq<u8> {
    match v {
        None => seq![0u8],
        Some(x) => seq![1u8] + le_u32(x),
    }
}

} // verus!
