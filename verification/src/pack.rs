//! Small codes packed into little-endian words for fingerprinting: a planet
//! mask of one bit per tile, or cover of two bits per tile.

use crate::digest::{le_u32, Digest};
use vstd::prelude::*;

verus! {

/// `radix` to the power `k`.
pub open spec fn power(radix: int, k: nat) -> int
    decreases k,
{
    if k == 0 {
        1
    } else {
        radix * power(radix, (k - 1) as nat)
    }
}

/// The first `k` codes from `start` as the digits of one number, lowest
/// first; positions past the end count as zero.
pub open spec fn packed(codes: Seq<u32>, start: int, k: nat, radix: int) -> int
    decreases k,
{
    if k == 0 {
        0
    } else {
        packed(codes, start, (k - 1) as nat, radix) + (if start + k - 1 < codes.len() {
            codes[start + k - 1] as int
        } else {
            0
        }) * power(radix, (k - 1) as nat)
    }
}

/// How many words of `per` codes it takes to hold `len` codes.
pub open spec fn word_count(len: int, per: int) -> int {
    (len + per - 1) / per
}

/// The bytes of the first `c` words of `per` codes each.
pub open spec fn packed_bytes(codes: Seq<u32>, per: nat, radix: int, c: nat) -> Seq<u8>
    decreases c,
{
    if c == 0 {
        Seq::empty()
    } else {
        packed_bytes(codes, per, radix, (c - 1) as nat) + le_u32(packed(codes, (c - 1) * per, per, radix) as u32)
    }
}

/// A word layout that fills exactly 32 bits.
pub open spec fn full_word(per: nat, radix: int) -> bool {
    (per == 32 && radix == 2) || (per == 16 && radix == 4)
}

proof fn lemma_power_step(radix: int, k: nat)
    requires
        radix >= 1,
    ensures
        power(radix, k) >= 1,
        power(radix, k + 1) == radix * power(radix, k),
    decreases k,
{
    if k > 0 {
        lemma_power_step(radix, (k - 1) as nat);
        assert(power(radix, k) >= 1) by (nonlinear_arith)
            requires power(radix, k) == radix * power(radix, (k - 1) as nat), radix >= 1, power(radix, (k - 1) as nat) >= 1;
    }
}

proof fn lemma_packed_bound(codes: Seq<u32>, start: int, k: nat, radix: int)
    requires
        radix >= 2,
        start >= 0,
        forall|i: int| 0 <= i < codes.len() ==> (#[trigger] codes[i]) < radix,
    ensures
        0 <= packed(codes, start, k, radix) < power(radix, k),
    decreases k,
{
    lemma_power_step(radix, k);
    if k > 0 {
        let km = (k - 1) as nat;
        lemma_packed_bound(codes, start, km, radix);
        lemma_power_step(radix, km);
        let v: int = if start + k - 1 < codes.len() { codes[start + k - 1] as int } else { 0 };
        if start + k - 1 < codes.len() {
            assert(codes[start + k - 1] < radix);
        }
        let p = power(radix, km);
        let prev = packed(codes, start, km, radix);
        assert(0 <= v < radix);
        assert(0 <= prev + v * p < radix * p) by (nonlinear_arith)
            requires 0 <= prev < p, 0 <= v < radix, p >= 1;
    }
}

proof fn lemma_full_word(per: nat, radix: int)
    requires
        full_word(per, radix),
    ensures
        power(radix, per) == 0x1_0000_0000,
{
    reveal_with_fuel(power, 33);
    if per == 32 {
        assert(power(2, 32) == 0x1_0000_0000);
    } else {
        assert(power(4, 16) == 0x1_0000_0000);
    }
}

/// Write `codes` packed `per` to a little-endian word, lowest position in
/// the lowest digit.
pub fn write_packed(d: &mut Digest, codes: &Vec<u32>, per: u32, radix: u32)
    requires
        old(d).wf(),
        codes@.len() + 32 <= usize::MAX,
        full_word(per as nat, radix as int),
        forall|i: int| 0 <= i < codes@.len() ==> (#[trigger] codes@[i]) < radix,
    ensures
        final(d).wf(),
        final(d).bytes() == old(d).bytes() + packed_bytes(codes@, per as nat, radix as int,
            word_count(codes@.len() as int, per as int) as nat),
{
    let ghost start_bytes = d.bytes();
    let n = codes.len();
    let mut start: usize = 0;
    let mut c: usize = 0;
    proof {
        lemma_full_word(per as nat, radix as int);
    }
    while start < n
        invariant
            n == codes@.len(),
            n + 32 <= usize::MAX,
            full_word(per as nat, radix as int),
            power(radix as int, per as nat) == 0x1_0000_0000,
            forall|i: int| 0 <= i < codes@.len() ==> (#[trigger] codes@[i]) < radix,
            start == c * per,
            c <= word_count(n as int, per as int),
            start < n ==> c < word_count(n as int, per as int),
            start >= n ==> c == word_count(n as int, per as int),
            d.wf(),
            d.bytes() == start_bytes + packed_bytes(codes@, per as nat, radix as int, c as nat),
        decreases word_count(n as int, per as int) - c,
    {
        let mut bits: u64 = 0;
        let mut p: u64 = 1;
        let mut s: u32 = 0;
        while s < per
            invariant
                s <= per,
                full_word(per as nat, radix as int),
                power(radix as int, per as nat) == 0x1_0000_0000,
                forall|i: int| 0 <= i < codes@.len() ==> (#[trigger] codes@[i]) < radix,
                n == codes@.len(),
                start == c * per,
                p == power(radix as int, s as nat),
                bits == packed(codes@, start as int, s as nat, radix as int),
            decreases per - s,
        {
            proof {
                lemma_packed_bound(codes@, start as int, s as nat, radix as int);
                lemma_power_step(radix as int, s as nat);
                lemma_power_mono(radix as int, (s + 1) as nat, per as nat);
            }
            let v: u64 = if start < n && (s as usize) < n - start { codes[start + s as usize] as u64 } else { 0 };
            proof {
                let pi = p as int;
                assert(v * pi <= (radix - 1) * pi) by (nonlinear_arith)
                    requires v <= radix - 1, pi >= 1;
                assert((radix - 1) * pi + pi == radix * pi) by (nonlinear_arith);
            }
            proof {
                assert(p * (radix as int) == (radix as int) * p) by (nonlinear_arith);
            }
            bits = bits + v * p;
            p = p * radix as u64;
            s = s + 1;
        }
        proof {
            lemma_packed_bound(codes@, start as int, per as nat, radix as int);
        }
        d.u32(bits as u32);
        proof {
            assert(packed_bytes(codes@, per as nat, radix as int, (c + 1) as nat) == packed_bytes(codes@, per as nat, radix as int, c as nat)
                + le_u32(packed(codes@, (c as int) * (per as int), per as nat, radix as int) as u32));
            assert(word_count(n as int, per as int) == (n + per - 1) / (per as int));
            if start + per >= n {
                assert(c + 1 == word_count(n as int, per as int)) by (nonlinear_arith)
                    requires start == c * per, start < n, start + per >= n, per >= 16;
            } else {
                assert(c + 1 < word_count(n as int, per as int)) by (nonlinear_arith)
                    requires start == c * per, start + per < n, per >= 16;
            }
        }
        start = start + per as usize;
        c = c + 1;
    }
    proof {
        if n == 0 {
            assert(word_count(0, per as int) == 0) by (nonlinear_arith)
                requires per >= 16;
        }
    }
}

proof fn lemma_power_mono(radix: int, a: nat, b: nat)
    requires
        radix >= 1,
        a <= b,
    ensures
        power(radix, a) <= power(radix, b),
    decreases b - a,
{
    if a < b {
        lemma_power_mono(radix, a, (b - 1) as nat);
        lemma_power_step(radix, (b - 1) as nat);
        assert(power(radix, (b - 1) as nat) <= radix * power(radix, (b - 1) as nat)) by (nonlinear_arith)
            requires radix >= 1, power(radix, (b - 1) as nat) >= 1;
    }
}

} // verus!
