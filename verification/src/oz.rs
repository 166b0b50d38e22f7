//! Three classic string hashes: djb2, sdbm and the "lose lose" hash of
//! the first edition of K&R.

use vstd::prelude::*;

verus! {

// ====================================
// DJB2

/// What one byte does to the djb2 hash: times 33, the byte taken up.
pub open spec fn djb2_step(h: u32, b: u8) -> u32 {
    ((h * 33) % 0x1_0000_0000) as u32 ^ (b as u32)
}

/// The djb2 hash `h` after the bytes of `s`, in order.
pub open spec fn djb2_fold(h: u32, s: Seq<u8>) -> u32 {
    s.fold_left(h, |h: u32, b: u8| djb2_step(h, b))
}

/// Dan Bernstein's hash, in the form that takes each byte up by xor.
/// Said to be good for small tables with lowercase ASCII keys.
#[derive(PartialEq, Eq, Copy, Clone, Debug, PartialOrd, Ord)]
pub struct DJB2Hasher(pub u32);

impl DJB2Hasher {
    /// A hasher that starts from 5381.
    pub fn default() -> (h: Self)
        ensures
            h.0 == 5381,
    {
        DJB2Hasher(5381)
    }

    /// A hasher that starts from `seed`.
    pub fn new(seed: u32) -> (h: DJB2Hasher)
        ensures
            h.0 == seed,
    {
        DJB2Hasher(seed)
    }

    /// The hash of the bytes written so far.
    pub fn finish(&self) -> (r: u64)
        ensures
            r == self.0,
    {
        self.0 as u64
    }

    /// Takes in `bytes`, one at a time.
    pub fn write(&mut self, bytes: &[u8])
        ensures
            final(self).0 == djb2_fold(old(self).0, bytes@),
    {
        let mut i: usize = 0;
        while i < bytes.len()
            invariant
                i <= bytes.len(),
                self.0 == djb2_fold(old(self).0, bytes@.take(i as int)),
            decreases bytes.len() - i,
        {
            proof {
                assert(bytes@.take(i + 1).drop_last() =~= bytes@.take(i as int));
            }
            self.0 = self.0.wrapping_mul(33) ^ bytes[i] as u32;
            i += 1;
        }
        proof {
            assert(bytes@.take(i as int) =~= bytes@);
        }
    }
}

impl Default for DJB2Hasher {
    fn default() -> (h: DJB2Hasher)
        ensures
            h.0 == 5381,
    {
        DJB2Hasher::default()
    }
}

impl core::hash::Hasher for DJB2Hasher {
    fn finish(&self) -> (r: u64)
        ensures
            r == self.0,
    {
        DJB2Hasher::finish(self)
    }

    fn write(&mut self, bytes: &[u8])
        ensures
            final(self).0 == djb2_fold(old(self).0, bytes@),
    {
        DJB2Hasher::write(self, bytes)
    }
}

/// The djb2 hash of `bytes`, in a single call.
pub fn djb2(bytes: &[u8]) -> (r: u64)
    ensures
        r == djb2_fold(5381, bytes@),
{
    let mut hasher = DJB2Hasher::default();
    hasher.write(bytes);
    hasher.finish()
}

/// Writing `a` and then `b` leaves the hash that writing `a + b` at once
/// leaves.
pub proof fn lemma_djb2_chunking(h: u32, a: Seq<u8>, b: Seq<u8>)
    ensures
        djb2_fold(djb2_fold(h, a), b) == djb2_fold(h, a + b),
{
    let s = a + b;
    s.lemma_fold_left_split(h, |h: u32, b: u8| djb2_step(h, b), a.len() as int);
    assert(s.subrange(0, a.len() as int) =~= a);
    assert(s.subrange(a.len() as int, s.len() as int) =~= b);
}

// ====================================
// sdbm

/// What one byte does to the sdbm hash: times 65599, plus the byte.
pub open spec fn sdbm_step(h: u32, b: u8) -> u32 {
    ((h * 65599 + b) % 0x1_0000_0000) as u32
}

/// The sdbm hash `h` after the bytes of `s`, in order.
pub open spec fn sdbm_fold(h: u32, s: Seq<u8>) -> u32 {
    s.fold_left(h, |h: u32, b: u8| sdbm_step(h, b))
}

/// The multiplication by 65599 done with two shifts and a subtraction,
/// as gawk does it.
pub proof fn lemma_sdbm_shifts(h: u32, b: u8)
    ensures
        (b as u32).wrapping_add(h << 6).wrapping_add(h << 16).wrapping_sub(h) == sdbm_step(h, b),
{
    let x: u32 = b as u32;
    let s1: u32 = h << 6;
    let s2: u32 = h << 16;
    let r: u32 = x.wrapping_add(s1).wrapping_add(s2).wrapping_sub(h);
    assert(r == x.wrapping_add(h << 6).wrapping_add(h << 16).wrapping_sub(h));
    assert(x.wrapping_add(h << 6).wrapping_add(h << 16).wrapping_sub(h) == ((h * 65599 + x)
        % 0x1_0000_0000) as u32) by (bit_vector);
}

/// The hash function of the sdbm database library.
#[derive(PartialEq, Eq, Copy, Clone, Debug, PartialOrd, Ord)]
pub struct SDBMHasher(pub u32);

impl SDBMHasher {
    /// A hasher that starts from zero.
    pub fn default() -> (h: Self)
        ensures
            h.0 == 0,
    {
        SDBMHasher(0)
    }

    /// The hash of the bytes written so far.
    pub fn finish(&self) -> (r: u64)
        ensures
            r == self.0,
    {
        self.0 as u64
    }

    /// Takes in `bytes`, one at a time.
    pub fn write(&mut self, bytes: &[u8])
        ensures
            final(self).0 == sdbm_fold(old(self).0, bytes@),
    {
        let mut i: usize = 0;
        while i < bytes.len()
            invariant
                i <= bytes.len(),
                self.0 == sdbm_fold(old(self).0, bytes@.take(i as int)),
            decreases bytes.len() - i,
        {
            proof {
                assert(bytes@.take(i + 1).drop_last() =~= bytes@.take(i as int));
                lemma_sdbm_shifts(self.0, bytes@[i as int]);
            }
            self.0 = (bytes[i] as u32).wrapping_add(self.0 << 6).wrapping_add(
                self.0 << 16,
            ).wrapping_sub(self.0);
            i += 1;
        }
        proof {
            assert(bytes@.take(i as int) =~= bytes@);
        }
    }
}

impl Default for SDBMHasher {
    fn default() -> (h: SDBMHasher)
        ensures
            h.0 == 0,
    {
        SDBMHasher::default()
    }
}

impl core::hash::Hasher for SDBMHasher {
    fn finish(&self) -> (r: u64)
        ensures
            r == self.0,
    {
        SDBMHasher::finish(self)
    }

    fn write(&mut self, bytes: &[u8])
        ensures
            final(self).0 == sdbm_fold(old(self).0, bytes@),
    {
        SDBMHasher::write(self, bytes)
    }
}

/// The sdbm hash of `bytes`, in a single call.
pub fn sdbm(bytes: &[u8]) -> (r: u64)
    ensures
        r == sdbm_fold(0, bytes@),
{
    let mut hasher = SDBMHasher::default();
    hasher.write(bytes);
    hasher.finish()
}

/// Writing `a` and then `b` leaves the hash that writing `a + b` at once
/// leaves.
pub proof fn lemma_sdbm_chunking(h: u32, a: Seq<u8>, b: Seq<u8>)
    ensures
        sdbm_fold(sdbm_fold(h, a), b) == sdbm_fold(h, a + b),
{
    let s = a + b;
    s.lemma_fold_left_split(h, |h: u32, b: u8| sdbm_step(h, b), a.len() as int);
    assert(s.subrange(0, a.len() as int) =~= a);
    assert(s.subrange(a.len() as int, s.len() as int) =~= b);
}

// ====================================
// lose_lose

/// What one byte does to the lose-lose hash: it is added.
pub open spec fn loselose_step(h: u64, b: u8) -> u64 {
    ((h + b) % 0x1_0000_0000_0000_0000) as u64
}

/// The lose-lose hash `h` after the bytes of `s`: their sum.
pub open spec fn loselose_fold(h: u64, s: Seq<u8>) -> u64 {
    s.fold_left(h, |h: u64, b: u8| loselose_step(h, b))
}

/// The hash of the first edition of K&R: the sum of the bytes. It is a
/// terrible hash, kept to compare the others with.
#[derive(PartialEq, Eq, Copy, Clone, Debug, PartialOrd, Ord)]
pub struct LoseLoseHasher(pub u64);

impl LoseLoseHasher {
    /// A hasher that starts from zero.
    pub fn default() -> (h: Self)
        ensures
            h.0 == 0,
    {
        LoseLoseHasher(0)
    }

    /// The hash of the bytes written so far.
    pub fn finish(&self) -> (r: u64)
        ensures
            r == self.0,
    {
        self.0
    }

    /// Takes in `bytes`, one at a time.
    pub fn write(&mut self, bytes: &[u8])
        ensures
            final(self).0 == loselose_fold(old(self).0, bytes@),
    {
        let mut i: usize = 0;
        while i < bytes.len()
            invariant
                i <= bytes.len(),
                self.0 == loselose_fold(old(self).0, bytes@.take(i as int)),
            decreases bytes.len() - i,
        {
            proof {
                assert(bytes@.take(i + 1).drop_last() =~= bytes@.take(i as int));
            }
            self.0 = self.0.wrapping_add(bytes[i] as u64);
            i += 1;
        }
        proof {
            assert(bytes@.take(i as int) =~= bytes@);
        }
    }
}

impl Default for LoseLoseHasher {
    fn default() -> (h: LoseLoseHasher)
        ensures
            h.0 == 0,
    {
        LoseLoseHasher::default()
    }
}

impl core::hash::Hasher for LoseLoseHasher {
    fn finish(&self) -> (r: u64)
        ensures
            r == self.0,
    {
        LoseLoseHasher::finish(self)
    }

    fn write(&mut self, bytes: &[u8])
        ensures
            final(self).0 == loselose_fold(old(self).0, bytes@),
    {
        LoseLoseHasher::write(self, bytes)
    }
}

/// The lose-lose hash of `bytes`, in a single call.
pub fn loselose(bytes: &[u8]) -> (r: u64)
    ensures
        r == loselose_fold(0, bytes@),
{
    let mut hasher = LoseLoseHasher::default();
    hasher.write(bytes);
    hasher.finish()
}

/// Writing `a` and then `b` leaves the hash that writing `a + b` at once
/// leaves.
pub proof fn lemma_loselose_chunking(h: u64, a: Seq<u8>, b: Seq<u8>)
    ensures
        loselose_fold(loselose_fold(h, a), b) == loselose_fold(h, a + b),
{
    let s = a + b;
    s.lemma_fold_left_split(h, |h: u64, b: u8| loselose_step(h, b), a.len() as int);
    assert(s.subrange(0, a.len() as int) =~= a);
    assert(s.subrange(a.len() as int, s.len() as int) =~= b);
}

} // verus!
