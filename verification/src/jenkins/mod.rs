//! Bob Jenkins' hash functions: one-at-a-time, lookup3 and (in a module of
//! its own) SpookyHash, with the rotations they share.

use vstd::prelude::*;
use vstd::slice::slice_subrange;
use crate::bytes::{lemma_le_value_short, lemma_le_value_unfold4, word_at};

pub mod spooky_hash;

verus! {

// ================================
// rotations

/// `x` rotated left by `k` bit positions, counted modulo 32.
pub open spec fn rotl32(x: u32, k: nat) -> u32 {
    let n = (k % 32) as u32;
    if n == 0 {
        x
    } else {
        (x << n) | (x >> ((32 - n) as u32))
    }
}

/// `x` rotated left by `k` bit positions, counted modulo 64.
pub open spec fn rotl64(x: u64, k: nat) -> u64 {
    let n = (k % 64) as u64;
    if n == 0 {
        x
    } else {
        (x << n) | (x >> ((64 - n) as u64))
    }
}

/// Rotates a 64-bit word left by `k` positions, without a branch: a
/// shift by the whole width counts as a shift by nothing.
pub fn rot64(x: u64, k: usize) -> (r: u64)
    ensures
        r == rotl64(x, k as nat),
{
    let n: u32 = (k % 64) as u32;
    proof {
        assert((x << 0u32) | (x >> 0u32) == x) by (bit_vector);
    }
    x.wrapping_shl(n) | x.wrapping_shr(64 - n)
}

/// Rotates a 32-bit word left by `k` positions, without a branch: a
/// shift by the whole width counts as a shift by nothing.
pub fn rot(x: u32, k: usize) -> (r: u32)
    ensures
        r == rotl32(x, k as nat),
{
    let n: u32 = (k % 32) as u32;
    proof {
        assert((x << 0u32) | (x >> 0u32) == x) by (bit_vector);
    }
    x.wrapping_shl(n) | x.wrapping_shr(32 - n)
}

/// The `len` bytes of `s` that start at `offset`.
pub(crate) fn slice_window(s: &[u8], offset: usize, len: usize) -> (w: &[u8])
    requires
        offset + len <= s.len(),
    ensures
        w@ == s@.subrange(offset as int, offset + len),
{
    slice_subrange(s, offset, offset + len)
}

// ================================
// one_at_a_time

/// What one byte does to the one-at-a-time accumulator.
pub open spec fn oaat_step(h: u64, b: u8) -> u64 {
    let h = h.wrapping_add(b as u64);
    let h = h.wrapping_add(h << 10);
    h ^ (h >> 6)
}

/// The accumulator `h` after the bytes of `s`, in order.
pub open spec fn oaat_fold(h: u64, s: Seq<u8>) -> u64 {
    s.fold_left(h, |h: u64, b: u8| oaat_step(h, b))
}

/// The digest that the one-at-a-time hash draws from its accumulator.
pub open spec fn oaat_digest(h: u64) -> u64 {
    let h = h.wrapping_add(h << 3);
    let h = h ^ (h >> 11);
    h.wrapping_add(h << 15)
}

/// The one-at-a-time hasher: simple, and superseded by later algorithms.
/// It mixes its whole state with each byte.
#[derive(PartialEq, Eq, Copy, Clone, Debug, PartialOrd, Ord)]
pub struct OAATHasher(pub u64);

impl OAATHasher {
    /// The digest of the bytes written so far.
    pub fn finish(&self) -> (r: u64)
        ensures
            r == oaat_digest(self.0),
    {
        let mut hash: u64 = self.0;
        hash = hash.wrapping_add(hash << 3);
        hash ^= hash >> 11;
        hash = hash.wrapping_add(hash << 15);
        hash
    }

    /// Feeds `bytes` to the accumulator, one at a time.
    pub fn write(&mut self, bytes: &[u8])
        ensures
            final(self).0 == oaat_fold(old(self).0, bytes@),
    {
        let mut i: usize = 0;
        while i < bytes.len()
            invariant
                i <= bytes.len(),
                self.0 == oaat_fold(old(self).0, bytes@.take(i as int)),
            decreases bytes.len() - i,
        {
            proof {
                assert(bytes@.take(i + 1).drop_last() =~= bytes@.take(i as int));
            }
            self.0 = self.0.wrapping_add(bytes[i] as u64);
            self.0 = self.0.wrapping_add(self.0 << 10);
            self.0 ^= self.0 >> 6;
            i += 1;
        }
        proof {
            assert(bytes@.take(i as int) =~= bytes@);
        }
    }
}

impl Default for OAATHasher {
    fn default() -> (h: OAATHasher)
        ensures
            h.0 == 0,
    {
        OAATHasher(0)
    }
}

impl core::hash::Hasher for OAATHasher {
    fn finish(&self) -> (r: u64)
        ensures
            r == oaat_digest(self.0),
    {
        OAATHasher::finish(self)
    }

    fn write(&mut self, bytes: &[u8])
        ensures
            final(self).0 == oaat_fold(old(self).0, bytes@),
    {
        OAATHasher::write(self, bytes)
    }
}

/// The one-at-a-time digest of `bytes`, in a single call.
pub fn oaat(bytes: &[u8]) -> (r: u64)
    ensures
        r == oaat_digest(oaat_fold(0, bytes@)),
{
    let mut hasher = OAATHasher(0);
    hasher.write(bytes);
    hasher.finish()
}

/// Writing `a` and then `b` leaves the accumulator that writing `a + b`
/// at once leaves.
pub proof fn lemma_oaat_chunking(h: u64, a: Seq<u8>, b: Seq<u8>)
    ensures
        oaat_fold(oaat_fold(h, a), b) == oaat_fold(h, a + b),
{
    let s = a + b;
    s.lemma_fold_left_split(h, |h: u64, b: u8| oaat_step(h, b), a.len() as int);
    assert(s.subrange(0, a.len() as int) =~= a);
    assert(s.subrange(a.len() as int, s.len() as int) =~= b);
}

// ================================
// lookup3

/// The constant that every `write` of lookup3 starts from.
pub const INIT_MAGIC: u32 = 0xdeadbeef;

/// One of the six steps of `mix`: `x` loses `y` and takes up `y` rotated
/// by `k`, then `y` gains `z`. Gives the new `x` and the new `y`.
pub open spec fn mix_step(x: u32, y: u32, z: u32, k: nat) -> (u32, u32) {
    (x.wrapping_sub(y) ^ rotl32(y, k), y.wrapping_add(z))
}

/// The reversible mixing of three words that lookup3 applies after each
/// block of twelve bytes: six steps, the three words taking turns.
pub open spec fn lookup3_mix(v: (u32, u32, u32)) -> (u32, u32, u32) {
    let (a, b, c) = v;
    let (a, c) = mix_step(a, c, b, 4);
    let (b, a) = mix_step(b, a, c, 6);
    let (c, b) = mix_step(c, b, a, 8);
    let (a, c) = mix_step(a, c, b, 16);
    let (b, a) = mix_step(b, a, c, 19);
    let (c, b) = mix_step(c, b, a, 4);
    (a, b, c)
}

/// A step of `mix` undone: from the new `x` and the new `y`, and from `z`,
/// which the step left alone, the old `x` and the old `y`.
pub open spec fn mix_unstep(x: u32, y: u32, z: u32, k: nat) -> (u32, u32) {
    let y = y.wrapping_sub(z);
    ((x ^ rotl32(y, k)).wrapping_add(y), y)
}

/// `mix` undone: its six steps undone, the last first.
pub open spec fn lookup3_unmix(v: (u32, u32, u32)) -> (u32, u32, u32) {
    let (a, b, c) = v;
    let (c, b) = mix_unstep(c, b, a, 4);
    let (b, a) = mix_unstep(b, a, c, 19);
    let (a, c) = mix_unstep(a, c, b, 16);
    let (c, b) = mix_unstep(c, b, a, 8);
    let (b, a) = mix_unstep(b, a, c, 6);
    let (a, c) = mix_unstep(a, c, b, 4);
    (a, b, c)
}

/// A step of `mix` loses nothing: undoing it gives back what went in.
pub proof fn lemma_mix_step_reversible(x: u32, y: u32, z: u32, k: nat)
    ensures
        mix_unstep(mix_step(x, y, z, k).0, mix_step(x, y, z, k).1, z, k) == (x, y),
{
    let r = rotl32(y, k);
    let y1 = y.wrapping_add(z);
    let x1 = x.wrapping_sub(y) ^ r;
    assert(y1.wrapping_sub(z) == y) by (bit_vector)
        requires
            y1 == y.wrapping_add(z),
    ;
    assert((x1 ^ r).wrapping_add(y) == x) by (bit_vector)
        requires
            x1 == x.wrapping_sub(y) ^ r,
    ;
}

/// `mix` is reversible: whatever was in the three words before it is
/// still in them after it.
pub proof fn lemma_lookup3_mix_reversible(v: (u32, u32, u32))
    ensures
        lookup3_unmix(lookup3_mix(v)) == v,
{
    let (a0, b0, c0) = v;
    let (a1, c1) = mix_step(a0, c0, b0, 4);
    let (b2, a2) = mix_step(b0, a1, c1, 6);
    let (c3, b3) = mix_step(c1, b2, a2, 8);
    let (a4, c4) = mix_step(a2, c3, b3, 16);
    let (b5, a5) = mix_step(b3, a4, c4, 19);
    let (c6, b6) = mix_step(c4, b5, a5, 4);
    lemma_mix_step_reversible(c4, b5, a5, 4);
    lemma_mix_step_reversible(b3, a4, c4, 19);
    lemma_mix_step_reversible(a2, c3, b3, 16);
    lemma_mix_step_reversible(c1, b2, a2, 8);
    lemma_mix_step_reversible(b0, a1, c1, 6);
    lemma_mix_step_reversible(a0, c0, b0, 4);
}

/// One of the seven steps of `final_mix`: `x` takes up `y`, then loses
/// `y` rotated by `k`.
pub open spec fn final_step(x: u32, y: u32, k: nat) -> u32 {
    (x ^ y).wrapping_sub(rotl32(y, k))
}

/// The last mixing of three words, which folds `a` and `b` into `c`.
pub open spec fn lookup3_final(v: (u32, u32, u32)) -> (u32, u32, u32) {
    let (a, b, c) = v;
    let c = final_step(c, b, 14);
    let a = final_step(a, c, 11);
    let b = final_step(b, a, 25);
    let c = final_step(c, b, 16);
    let a = final_step(a, c, 4);
    let b = final_step(b, a, 14);
    let c = final_step(c, b, 24);
    (a, b, c)
}

/// The three words with the first twelve bytes of `s` added, four bytes
/// to each word, as far as `s` has them.
pub open spec fn lookup3_load(v: (u32, u32, u32), s: Seq<u8>) -> (u32, u32, u32) {
    (
        v.0.wrapping_add(word_at(s, 0)),
        v.1.wrapping_add(word_at(s, 4)),
        v.2.wrapping_add(word_at(s, 8)),
    )
}

/// The three words after all of `s`: each block of twelve bytes is loaded
/// and mixed, and what is left, under twelve bytes and maybe none, is
/// loaded and mixed for the last time.
pub open spec fn lookup3_absorb(v: (u32, u32, u32), s: Seq<u8>) -> (u32, u32, u32)
    decreases s.len(),
{
    if s.len() >= 12 {
        lookup3_absorb(lookup3_mix(lookup3_load(v, s)), s.skip(12))
    } else {
        lookup3_final(lookup3_load(v, s))
    }
}

/// The words that a `write` of `len` bytes starts from, given the two
/// accumulators: the length salts all three, the secondary accumulator
/// the third.
pub open spec fn lookup3_init(pc: u32, pb: u32, len: nat) -> (u32, u32, u32) {
    let initial = INIT_MAGIC.wrapping_add((len % 0x1_0000_0000) as u32).wrapping_add(pc);
    (initial, initial, initial.wrapping_add(pb))
}

/// The accumulators `(pc, pb)` after one `write` of `s`. An empty `s`
/// leaves them as they are.
pub open spec fn lookup3_write(pc: u32, pb: u32, s: Seq<u8>) -> (u32, u32) {
    if s.len() == 0 {
        (pc, pb)
    } else {
        let (a, b, c) = lookup3_absorb(lookup3_init(pc, pb, s.len()), s);
        (c, b)
    }
}

/// The 64-bit digest of two accumulators: the primary one is the low half.
pub open spec fn lookup3_digest(pc: u32, pb: u32) -> u64 {
    (pc as u64 + 0x1_0000_0000 * (pb as u64)) as u64
}

/// The hex digit, in lower case, of a number under 16.
pub open spec fn hex_digit(d: int) -> char {
    "0123456789abcdef"@[d]
}

/// The eight hex digits of `x`, the highest first.
pub open spec fn hex8(x: u32) -> Seq<char> {
    Seq::new(8, |i: int| hex_digit(((x >> ((28 - 4 * i) as u32)) & 0xf) as int))
}

/// A hasher with the accumulators `pc` and `pb`, in words.
pub open spec fn lookup3_text(pc: u32, pb: u32) -> Seq<char> {
    "Lookup3Hasher { pc: 0x"@ + hex8(pc) + ", pb: 0x"@ + hex8(pb) + " }"@
}

/// The lookup3 hasher ("hashlittle2"): two 32-bit accumulators, input
/// taken in blocks of twelve bytes.
///
/// Each `write` starts from the accumulators and from the length of what
/// it is given, so the digest depends on how a stream is cut into writes.
#[derive(PartialEq, Eq, Copy, Clone, Debug, PartialOrd, Ord)]
pub struct Lookup3Hasher {
    /// The primary seed, then the primary hash.
    pub pc: u32,
    /// The secondary seed, then the secondary hash.
    pub pb: u32,
}

impl Lookup3Hasher {
    /// A hasher seeded with `pc` and `pb`.
    pub fn new(pc: u32, pb: u32) -> (h: Lookup3Hasher)
        ensures
            h.pc == pc,
            h.pb == pb,
    {
        Lookup3Hasher { pc, pb }
    }

    /// The digest of `bytes` as one write to a hasher seeded with `pc`
    /// and `pb`.
    pub fn oneshot(bytes: &[u8], pc: u32, pb: u32) -> (r: u64)
        ensures
            r == lookup3_digest(lookup3_write(pc, pb, bytes@).0, lookup3_write(pc, pb, bytes@).1),
    {
        let mut hasher = Lookup3Hasher::new(pc, pb);
        hasher.write(bytes);
        hasher.finish()
    }

    /// The digest that the two accumulators make.
    pub fn finish(&self) -> (r: u64)
        ensures
            r == lookup3_digest(self.pc, self.pb),
    {
        let lo: u64 = self.pc as u64;
        let hi: u64 = self.pb as u64;
        proof {
            assert(lo | (hi << 32) == lo + 0x1_0000_0000 * hi) by (bit_vector)
                requires
                    lo < 0x1_0000_0000,
                    hi < 0x1_0000_0000,
            ;
        }
        lo | (hi << 32)
    }

    /// Mixes three words reversibly.
    pub fn mix(a: &mut u32, b: &mut u32, c: &mut u32)
        ensures
            (*final(a), *final(b), *final(c)) == lookup3_mix((*old(a), *old(b), *old(c))),
    {
        *a = a.wrapping_sub(*c);
        *a ^= rot(*c, 4);
        *c = c.wrapping_add(*b);
        *b = b.wrapping_sub(*a);
        *b ^= rot(*a, 6);
        *a = a.wrapping_add(*c);
        *c = c.wrapping_sub(*b);
        *c ^= rot(*b, 8);
        *b = b.wrapping_add(*a);
        *a = a.wrapping_sub(*c);
        *a ^= rot(*c, 16);
        *c = c.wrapping_add(*b);
        *b = b.wrapping_sub(*a);
        *b ^= rot(*a, 19);
        *a = a.wrapping_add(*c);
        *c = c.wrapping_sub(*b);
        *c ^= rot(*b, 4);
        *b = b.wrapping_add(*a);
    }

    /// Mixes three words for the last time, into `c`.
    pub fn final_mix(a: &mut u32, b: &mut u32, c: &mut u32)
        ensures
            (*final(a), *final(b), *final(c)) == lookup3_final((*old(a), *old(b), *old(c))),
    {
        *c ^= *b;
        *c = c.wrapping_sub(rot(*b, 14));
        *a ^= *c;
        *a = a.wrapping_sub(rot(*c, 11));
        *b ^= *a;
        *b = b.wrapping_sub(rot(*a, 25));
        *c ^= *b;
        *c = c.wrapping_sub(rot(*b, 16));
        *a ^= *c;
        *a = a.wrapping_sub(rot(*c, 4));
        *b ^= *a;
        *b = b.wrapping_sub(rot(*a, 14));
        *c ^= *b;
        *c = c.wrapping_sub(rot(*b, 24));
    }

    /// Turns the first bytes of `s`, four of them at most, into a word.
    pub fn shift_add(s: &[u8]) -> (r: u32)
        ensures
            r == word_at(s@, 0),
    {
        let n: usize = s.len();
        if n == 0 {
            proof {
                lemma_le_value_short(s@.subrange(0, 0));
            }
            0
        } else if n == 1 {
            proof {
                lemma_le_value_short(s@.subrange(0, 1));
            }
            s[0] as u32
        } else if n == 2 {
            let b0: u32 = s[0] as u32;
            let b1: u32 = s[1] as u32;
            proof {
                lemma_le_value_short(s@.subrange(0, 2));
                assert(b0 | (b1 << 8) == b0 + 0x100 * b1) by (bit_vector)
                    requires
                        b0 < 0x100,
                        b1 < 0x100,
                ;
            }
            b0 | (b1 << 8)
        } else if n == 3 {
            let b0: u32 = s[0] as u32;
            let b1: u32 = s[1] as u32;
            let b2: u32 = s[2] as u32;
            proof {
                lemma_le_value_short(s@.subrange(0, 3));
                assert(b0 | (b1 << 8) | (b2 << 16) == b0 + 0x100 * b1 + 0x1_0000 * b2)
                    by (bit_vector)
                    requires
                        b0 < 0x100,
                        b1 < 0x100,
                        b2 < 0x100,
                ;
            }
            b0 | (b1 << 8) | (b2 << 16)
        } else {
            let b0: u32 = s[0] as u32;
            let b1: u32 = s[1] as u32;
            let b2: u32 = s[2] as u32;
            let b3: u32 = s[3] as u32;
            proof {
                lemma_le_value_unfold4(s@.subrange(0, 4));
                assert(b0 | (b1 << 8) | (b2 << 16) | (b3 << 24) == b0 + 0x100 * b1 + 0x1_0000 * b2
                    + 0x100_0000 * b3) by (bit_vector)
                    requires
                        b0 < 0x100,
                        b1 < 0x100,
                        b2 < 0x100,
                        b3 < 0x100,
                ;
            }
            b0 | (b1 << 8) | (b2 << 16) | (b3 << 24)
        }
    }

    /// Ends a write: the words are mixed for the last time and the last
    /// two become the accumulators.
    fn finish_write(&mut self, a: u32, b: u32, c: u32)
        ensures
            final(self).pb == lookup3_final((a, b, c)).1,
            final(self).pc == lookup3_final((a, b, c)).2,
    {
        let mut a = a;
        let mut b = b;
        let mut c = c;
        Self::final_mix(&mut a, &mut b, &mut c);
        self.pb = b;
        self.pc = c;
    }

    /// The hasher in words, for display: both accumulators in hex.
    ///
    /// The text is made by `format!` of std, which is not verified. The
    /// contract states what std documents of `{:#010x}` on a `u32`: the
    /// prefix `0x`, then the number in lower-case hex digits, filled up
    /// with zeros to eight digits.
    #[verifier::external_body]
    pub fn to_string(&self) -> (s: String)
        ensures
            s@ == lookup3_text(self.pc, self.pb),
    {
        format!("Lookup3Hasher {{ pc: {:#010x}, pb: {:#010x} }}", self.pc, self.pb)
    }

    /// Hashes `bytes` into the accumulators. Nothing happens when `bytes`
    /// is empty.
    pub fn write(&mut self, bytes: &[u8])
        ensures
            (final(self).pc, final(self).pb) == lookup3_write(old(self).pc, old(self).pb, bytes@),
    {
        if bytes.is_empty() {
            return ;
        }
        let initial: u32 = INIT_MAGIC.wrapping_add((bytes.len() as u64 % 0x1_0000_0000) as u32)
            .wrapping_add(self.pc);
        let mut a: u32 = initial;
        let mut b: u32 = initial;
        let mut c: u32 = initial;
        c = c.wrapping_add(self.pb);

        let mut bytes_cursor = bytes;
        while bytes_cursor.len() >= 12
            invariant
                lookup3_absorb((a, b, c), bytes_cursor@) == lookup3_absorb(
                    lookup3_init(old(self).pc, old(self).pb, bytes@.len()),
                    bytes@,
                ),
            decreases bytes_cursor.len(),
        {
            let ghost before = bytes_cursor@;
            a = a.wrapping_add(Self::shift_add(slice_window(bytes_cursor, 0, 4)));
            b = b.wrapping_add(Self::shift_add(slice_window(bytes_cursor, 4, 4)));
            c = c.wrapping_add(
                Self::shift_add(slice_window(bytes_cursor, 8, bytes_cursor.len() - 8)),
            );
            proof {
                lemma_word_at_window(before, 0, 4);
                lemma_word_at_window(before, 4, 4);
                lemma_word_at_window(before, 8, before.len() - 8);
            }
            Self::mix(&mut a, &mut b, &mut c);
            bytes_cursor = slice_window(bytes_cursor, 12, bytes_cursor.len() - 12);
            proof {
                assert(bytes_cursor@ =~= before.skip(12));
            }
        }

        let ghost rest = bytes_cursor@;
        if bytes_cursor.len() >= 4 {
            a = a.wrapping_add(Self::shift_add(slice_window(bytes_cursor, 0, 4)));
            proof {
                lemma_word_at_window(rest, 0, 4);
            }
            if bytes_cursor.len() >= 8 {
                b = b.wrapping_add(Self::shift_add(slice_window(bytes_cursor, 4, 4)));
                c = c.wrapping_add(
                    Self::shift_add(slice_window(bytes_cursor, 8, bytes_cursor.len() - 8)),
                );
                proof {
                    lemma_word_at_window(rest, 4, 4);
                    lemma_word_at_window(rest, 8, rest.len() - 8);
                }
            } else {
                b = b.wrapping_add(
                    Self::shift_add(slice_window(bytes_cursor, 4, bytes_cursor.len() - 4)),
                );
                proof {
                    lemma_word_at_window(rest, 4, rest.len() - 4);
                    lemma_word_at_past_end(rest, 8);
                }
            }
        } else {
            a = a.wrapping_add(Self::shift_add(bytes_cursor));
            proof {
                lemma_word_at_window(rest, 0, rest.len() as int);
                lemma_word_at_past_end(rest, 4);
                lemma_word_at_past_end(rest, 8);
            }
        }
        self.finish_write(a, b, c);
    }
}

impl Default for Lookup3Hasher {
    fn default() -> (h: Lookup3Hasher)
        ensures
            h.pc == 0,
            h.pb == 0,
    {
        Lookup3Hasher { pc: 0, pb: 0 }
    }
}

impl core::hash::Hasher for Lookup3Hasher {
    fn finish(&self) -> (r: u64)
        ensures
            r == lookup3_digest(self.pc, self.pb),
    {
        Lookup3Hasher::finish(self)
    }

    fn write(&mut self, bytes: &[u8])
        ensures
            (final(self).pc, final(self).pb) == lookup3_write(old(self).pc, old(self).pb, bytes@),
    {
        Lookup3Hasher::write(self, bytes)
    }
}

/// The lookup3 digest of `bytes`, as one write to an unseeded hasher.
pub fn lookup3(bytes: &[u8]) -> (r: u64)
    ensures
        r == lookup3_digest(lookup3_write(0, 0, bytes@).0, lookup3_write(0, 0, bytes@).1),
{
    let mut hasher = Lookup3Hasher { pc: 0, pb: 0 };
    hasher.write(bytes);
    hasher.finish()
}

/// A write of nothing changes nothing, so a stream may be cut into an
/// empty piece and the rest without changing the digest. No more holds:
/// each write starts from the length of its own piece, so two pieces that
/// both hold bytes hash otherwise than the two as one.
pub proof fn lemma_lookup3_chunking_with_empty(pc: u32, pb: u32, a: Seq<u8>, b: Seq<u8>)
    requires
        a.len() == 0 || b.len() == 0,
    ensures
        ({
            let (pc1, pb1) = lookup3_write(pc, pb, a);
            lookup3_write(pc1, pb1, b) == lookup3_write(pc, pb, a + b)
        }),
{
    if a.len() == 0 {
        assert(a + b =~= b);
    } else {
        assert(a + b =~= a);
    }
}

/// The first word of a window of `s` is the word of `s` where the window
/// starts, when the window is four bytes long or runs to the end of `s`.
pub proof fn lemma_word_at_window(s: Seq<u8>, i: int, len: int)
    requires
        0 <= i,
        0 <= len,
        i + len <= s.len(),
        len == 4 || i + len == s.len(),
    ensures
        word_at(s.subrange(i, i + len), 0) == word_at(s, i),
{
    let w = s.subrange(i, i + len);
    let hi = if 4 < len { 4 } else { len };
    assert(w.subrange(0, hi) =~= s.subrange(i, i + hi));
}

/// Where `s` has no bytes left, its word is zero.
pub proof fn lemma_word_at_past_end(s: Seq<u8>, i: int)
    requires
        s.len() <= i,
    ensures
        word_at(s, i) == 0,
{
    assert(s.subrange(s.len() as int, s.len() as int).len() == 0);
}

} // verus!
