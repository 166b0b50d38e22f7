//! The Fowler-Noll-Vo hash, in its FNV-1a form, 32 and 64 bits wide.
//! It is fast and spreads nearly identical keys (URLs, file names) well.

use vstd::prelude::*;

verus! {

/// What one byte does to the 32-bit FNV-1a hash: the byte is taken up,
/// then the hash is multiplied by the FNV prime.
pub open spec fn fnv1a32_step(h: u32, b: u8) -> u32 {
    (((h ^ (b as u32)) * 16777619) % 0x1_0000_0000) as u32
}

/// The 32-bit FNV-1a hash `h` after the bytes of `s`, in order.
pub open spec fn fnv1a32_fold(h: u32, s: Seq<u8>) -> u32 {
    s.fold_left(h, |h: u32, b: u8| fnv1a32_step(h, b))
}

/// The 32-bit FNV-1a hasher.
pub struct FNV1aHasher32(u32);

impl View for FNV1aHasher32 {
    type V = u32;

    /// The hash so far.
    closed spec fn view(&self) -> u32 {
        self.0
    }
}

impl FNV1aHasher32 {
    /// A hasher that starts from the FNV offset basis.
    pub fn default() -> (h: FNV1aHasher32)
        ensures
            h@ == 0x811c9dc5,
    {
        FNV1aHasher32(0x811c9dc5)
    }

    /// The hash of the bytes written so far.
    pub fn finish(&self) -> (r: u64)
        ensures
            r == self@,
    {
        self.0 as u64
    }

    /// Takes in `bytes`, one at a time.
    pub fn write(&mut self, bytes: &[u8])
        ensures
            final(self)@ == fnv1a32_fold(old(self)@, bytes@),
    {
        let mut i: usize = 0;
        while i < bytes.len()
            invariant
                i <= bytes.len(),
                self@ == fnv1a32_fold(old(self)@, bytes@.take(i as int)),
            decreases bytes.len() - i,
        {
            proof {
                assert(bytes@.take(i + 1).drop_last() =~= bytes@.take(i as int));
            }
            self.0 ^= bytes[i] as u32;
            self.0 = self.0.wrapping_mul(16777619);
            i += 1;
        }
        proof {
            assert(bytes@.take(i as int) =~= bytes@);
        }
    }
}

impl Default for FNV1aHasher32 {
    fn default() -> (h: FNV1aHasher32)
        ensures
            h@ == 0x811c9dc5,
    {
        FNV1aHasher32::default()
    }
}

impl core::hash::Hasher for FNV1aHasher32 {
    fn finish(&self) -> (r: u64)
        ensures
            r == self@,
    {
        FNV1aHasher32::finish(self)
    }

    fn write(&mut self, bytes: &[u8])
        ensures
            final(self)@ == fnv1a32_fold(old(self)@, bytes@),
    {
        FNV1aHasher32::write(self, bytes)
    }
}

/// The 32-bit FNV-1a hash of `bytes`, in a single call.
pub fn fnv1a32(bytes: &[u8]) -> (r: u64)
    ensures
        r == fnv1a32_fold(0x811c9dc5, bytes@),
{
    let mut hasher = FNV1aHasher32::default();
    hasher.write(bytes);
    hasher.finish()
}

/// Writing `a` and then `b` leaves the hash that writing `a + b` at once
/// leaves.
pub proof fn lemma_fnv1a32_chunking(h: u32, a: Seq<u8>, b: Seq<u8>)
    ensures
        fnv1a32_fold(fnv1a32_fold(h, a), b) == fnv1a32_fold(h, a + b),
{
    let s = a + b;
    s.lemma_fold_left_split(h, |h: u32, b: u8| fnv1a32_step(h, b), a.len() as int);
    assert(s.subrange(0, a.len() as int) =~= a);
    assert(s.subrange(a.len() as int, s.len() as int) =~= b);
}

/// What one byte does to the 64-bit FNV-1a hash: the byte is taken up,
/// then the hash is multiplied by the FNV prime.
pub open spec fn fnv1a64_step(h: u64, b: u8) -> u64 {
    (((h ^ (b as u64)) * 1099511628211) % 0x1_0000_0000_0000_0000) as u64
}

/// The 64-bit FNV-1a hash `h` after the bytes of `s`, in order.
pub open spec fn fnv1a64_fold(h: u64, s: Seq<u8>) -> u64 {
    s.fold_left(h, |h: u64, b: u8| fnv1a64_step(h, b))
}

/// The 64-bit FNV-1a hasher.
pub struct FNV1aHasher64(u64);

impl View for FNV1aHasher64 {
    type V = u64;

    /// The hash so far.
    closed spec fn view(&self) -> u64 {
        self.0
    }
}

impl FNV1aHasher64 {
    /// A hasher that starts from the FNV offset basis.
    pub fn default() -> (h: FNV1aHasher64)
        ensures
            h@ == 0xcbf29ce484222325,
    {
        FNV1aHasher64(0xcbf29ce484222325)
    }

    /// The hash of the bytes written so far.
    pub fn finish(&self) -> (r: u64)
        ensures
            r == self@,
    {
        self.0 as u64
    }

    /// Takes in `bytes`, one at a time.
    pub fn write(&mut self, bytes: &[u8])
        ensures
            final(self)@ == fnv1a64_fold(old(self)@, bytes@),
    {
        let mut i: usize = 0;
        while i < bytes.len()
            invariant
                i <= bytes.len(),
                self@ == fnv1a64_fold(old(self)@, bytes@.take(i as int)),
            decreases bytes.len() - i,
        {
            proof {
                assert(bytes@.take(i + 1).drop_last() =~= bytes@.take(i as int));
            }
            self.0 ^= bytes[i] as u64;
            self.0 = self.0.wrapping_mul(1099511628211);
            i += 1;
        }
        proof {
            assert(bytes@.take(i as int) =~= bytes@);
        }
    }
}

impl Default for FNV1aHasher64 {
    fn default() -> (h: FNV1aHasher64)
        ensures
            h@ == 0xcbf29ce484222325,
    {
        FNV1aHasher64::default()
    }
}

impl core::hash::Hasher for FNV1aHasher64 {
    fn finish(&self) -> (r: u64)
        ensures
            r == self@,
    {
        FNV1aHasher64::finish(self)
    }

    fn write(&mut self, bytes: &[u8])
        ensures
            final(self)@ == fnv1a64_fold(old(self)@, bytes@),
    {
        FNV1aHasher64::write(self, bytes)
    }
}

/// The 64-bit FNV-1a hash of `bytes`, in a single call.
pub fn fnv1a64(bytes: &[u8]) -> (r: u64)
    ensures
        r == fnv1a64_fold(0xcbf29ce484222325, bytes@),
{
    let mut hasher = FNV1aHasher64::default();
    hasher.write(bytes);
    hasher.finish()
}

/// Writing `a` and then `b` leaves the hash that writing `a + b` at once
/// leaves.
pub proof fn lemma_fnv1a64_chunking(h: u64, a: Seq<u8>, b: Seq<u8>)
    ensures
        fnv1a64_fold(fnv1a64_fold(h, a), b) == fnv1a64_fold(h, a + b),
{
    let s = a + b;
    s.lemma_fold_left_split(h, |h: u64, b: u8| fnv1a64_step(h, b), a.len() as int);
    assert(s.subrange(0, a.len() as int) =~= a);
    assert(s.subrange(a.len() as int, s.len() as int) =~= b);
}

} // verus!
