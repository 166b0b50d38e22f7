//! Little-endian decoding of bytes into words, the one load path that
//! every engine uses, whatever the alignment of its input.

use vstd::prelude::*;

verus! {

/// The number that the bytes of `s` spell in little-endian order:
/// the first byte counts least.
pub open spec fn le_value(s: Seq<u8>) -> nat
    decreases s.len(),
{
    if s.len() == 0 {
        0
    } else {
        s[0] as nat + 256 * le_value(s.skip(1))
    }
}

/// The word that the bytes of `s` from `i` on spell, four of them or as
/// many as there are: bytes past the end of `s` count as absent.
pub open spec fn word_at(s: Seq<u8>, i: int) -> u32 {
    let lo = if i < s.len() { i } else { s.len() as int };
    let hi = if i + 4 < s.len() { i + 4 } else { s.len() as int };
    le_value(s.subrange(lo, hi)) as u32
}

/// The 32-bit word that four bytes of `s`, starting at `i`, spell.
pub open spec fn le_u32_at(s: Seq<u8>, i: int) -> u32 {
    le_value(s.subrange(i, i + 4)) as u32
}

/// The 64-bit word that eight bytes of `s`, starting at `i`, spell.
pub open spec fn le_u64_at(s: Seq<u8>, i: int) -> u64 {
    le_value(s.subrange(i, i + 8)) as u64
}

/// `256^n`.
pub open spec fn pow256(n: nat) -> nat
    decreases n,
{
    if n == 0 {
        1
    } else {
        256 * pow256((n - 1) as nat)
    }
}

/// The powers of 256 at the word widths in use.
pub proof fn lemma_pow256_values()
    ensures
        pow256(0) == 1,
        pow256(1) == 0x100,
        pow256(2) == 0x1_0000,
        pow256(3) == 0x100_0000,
        pow256(4) == 0x1_0000_0000,
        pow256(8) == 0x1_0000_0000_0000_0000,
{
    reveal_with_fuel(pow256, 9);
}

/// Four bytes, written out.
pub proof fn lemma_le_value_unfold4(s: Seq<u8>)
    requires
        s.len() == 4,
    ensures
        le_value(s) == s[0] as nat + 0x100 * (s[1] as nat) + 0x1_0000 * (s[2] as nat) + 0x100_0000
            * (s[3] as nat),
{
    reveal_with_fuel(le_value, 5);
    let t = s.skip(1);
    let u = t.skip(1);
    let v = u.skip(1);
    assert(v.skip(1).len() == 0);
    assert(t[0] == s[1] && u[0] == s[2] && v[0] == s[3]);
}

/// Up to three bytes, written out.
pub proof fn lemma_le_value_short(s: Seq<u8>)
    requires
        s.len() <= 3,
    ensures
        s.len() == 0 ==> le_value(s) == 0,
        s.len() == 1 ==> le_value(s) == s[0] as nat,
        s.len() == 2 ==> le_value(s) == s[0] as nat + 0x100 * (s[1] as nat),
        s.len() == 3 ==> le_value(s) == s[0] as nat + 0x100 * (s[1] as nat) + 0x1_0000 * (
        s[2] as nat),
{
    reveal_with_fuel(le_value, 4);
    if s.len() >= 1 {
        let t = s.skip(1);
        if s.len() >= 2 {
            let u = t.skip(1);
            assert(t[0] == s[1]);
            if s.len() >= 3 {
                assert(u[0] == s[2]);
                assert(u.skip(1).len() == 0);
            }
        }
    }
}

/// The value of a sequence from the values of its two parts: the second
/// part counts `256^k` times as much.
pub proof fn lemma_le_value_split(s: Seq<u8>, k: int)
    requires
        0 <= k <= s.len(),
    ensures
        le_value(s) == le_value(s.take(k)) + pow256(k as nat) * le_value(s.skip(k)),
    decreases k,
{
    if k == 0 {
        assert(s.skip(0) =~= s);
        assert(s.take(0).len() == 0);
        let whole = le_value(s.skip(k));
        assert(pow256(k as nat) * whole == whole) by (nonlinear_arith)
            requires
                pow256(k as nat) == 1,
        ;
    } else {
        let t = s.skip(1);
        let lo = s.take(k);
        lemma_le_value_split(t, k - 1);
        assert(t.take(k - 1) =~= lo.skip(1));
        assert(t.skip(k - 1) =~= s.skip(k));
        assert(lo[0] == s[0]);
        let hi = le_value(s.skip(k));
        let p = pow256((k - 1) as nat);
        let m = le_value(lo.skip(1));
        assert(le_value(t) == m + p * hi);
        assert(le_value(s) == s[0] as nat + 256 * le_value(t));
        assert(le_value(lo) == s[0] as nat + 256 * m);
        assert(pow256(k as nat) == 256 * p);
        assert(256 * (m + p * hi) == 256 * m + pow256(k as nat) * hi) by (nonlinear_arith)
            requires
                pow256(k as nat) == 256 * p,
        ;
    }
}

/// Reads four bytes of `buf`, starting at `i`, as a little-endian word.
pub fn load_u32_le(buf: &[u8], i: usize) -> (r: u32)
    requires
        i + 4 <= buf.len(),
    ensures
        r == le_u32_at(buf@, i as int),
        r as nat == le_value(buf@.subrange(i as int, i + 4)),
{
    let b0: u32 = buf[i] as u32;
    let b1: u32 = buf[i + 1] as u32;
    let b2: u32 = buf[i + 2] as u32;
    let b3: u32 = buf[i + 3] as u32;
    proof {
        let s = buf@.subrange(i as int, i + 4);
        lemma_le_value_unfold4(s);
        assert(b0 | (b1 << 8) | (b2 << 16) | (b3 << 24) == b0 + 0x100 * b1 + 0x1_0000 * b2
            + 0x100_0000 * b3) by (bit_vector)
            requires
                b0 < 0x100,
                b1 < 0x100,
                b2 < 0x100,
                b3 < 0x100,
        ;
    }
    b0 | (b1 << 8) | (b2 << 16) | (b3 << 24)
}

/// Reads eight bytes of `buf`, starting at `i`, as a little-endian word.
pub fn load_u64_le(buf: &[u8], i: usize) -> (r: u64)
    requires
        i + 8 <= buf.len(),
    ensures
        r == le_u64_at(buf@, i as int),
        r as nat == le_value(buf@.subrange(i as int, i + 8)),
{
    let lo: u64 = load_u32_le(buf, i) as u64;
    let hi: u64 = load_u32_le(buf, i + 4) as u64;
    proof {
        let s = buf@.subrange(i as int, i + 8);
        lemma_le_value_split(s, 4);
        assert(s.take(4) =~= buf@.subrange(i as int, i + 4));
        assert(s.skip(4) =~= buf@.subrange(i + 4, i + 8));
        lemma_pow256_values();
        assert(lo | (hi << 32) == lo + 0x1_0000_0000 * hi) by (bit_vector)
            requires
                lo < 0x1_0000_0000,
                hi < 0x1_0000_0000,
        ;
    }
    lo | (hi << 32)
}

} // verus!
