//! Two poor hashers for testing: one that forgets everything and one that
//! keeps the last eight bytes.

use vstd::prelude::*;

verus! {

/// The hasher whose hash is always 0.
#[derive(PartialEq, Eq, Copy, Clone, Debug, PartialOrd, Ord)]
pub struct NullHasher;

impl NullHasher {
    /// The one null hasher.
    pub fn default() -> (h: NullHasher)
        ensures
            h == NullHasher,
    {
        NullHasher
    }

    /// Zero, whatever was written.
    pub fn finish(&self) -> (r: u64)
        ensures
            r == 0,
    {
        0u64
    }

    /// Takes `bytes` and does nothing with them.
    pub fn write(&mut self, _bytes: &[u8])
        ensures
            *final(self) == *old(self),
    {
    }
}

impl Default for NullHasher {
    fn default() -> (h: NullHasher)
        ensures
            h == NullHasher,
    {
        NullHasher
    }
}

impl core::hash::Hasher for NullHasher {
    fn finish(&self) -> (r: u64)
        ensures
            r == 0,
    {
        NullHasher::finish(self)
    }

    fn write(&mut self, bytes: &[u8])
        ensures
            *final(self) == *old(self),
    {
        NullHasher::write(self, bytes)
    }
}

/// The null hash of `bytes`: zero.
pub fn null(bytes: &[u8]) -> (r: u64)
    ensures
        r == 0,
{
    let mut hasher = NullHasher::default();
    hasher.write(bytes);
    hasher.finish()
}

// --------------------------------

/// What one byte does to the pass-through hash: the hash moves up by one
/// byte, the oldest byte falls off the top, and the new byte comes in at
/// the bottom.
pub open spec fn passthrough_step(h: u64, b: u8) -> u64 {
    ((h * 0x100 + b) % 0x1_0000_0000_0000_0000) as u64
}

/// The pass-through hash `h` after the bytes of `s`, in order.
pub open spec fn passthrough_fold(h: u64, s: Seq<u8>) -> u64 {
    s.fold_left(h, |h: u64, b: u8| passthrough_step(h, b))
}

/// Moving up by a byte and adding the new one cannot overflow, and gives
/// the step.
pub proof fn lemma_passthrough_shift(h: u64, b: u8)
    ensures
        (h << 8) + b <= u64::MAX,
        ((h << 8) + b) as u64 == passthrough_step(h, b),
{
    let x: u64 = b as u64;
    assert((h << 8) + x <= 0xffff_ffff_ffff_ffff && ((h << 8) + x) as u64 == ((h * 0x100 + x)
        % 0x1_0000_0000_0000_0000) as u64) by (bit_vector)
        requires
            x < 0x100,
    ;
}

/// The hasher whose hash is the last eight bytes of the data, the last
/// byte counting least.
#[derive(PartialEq, Eq, Copy, Clone, Debug, PartialOrd, Ord)]
pub struct PassThroughHasher(pub u64);

impl PassThroughHasher {
    /// A hasher that starts from zero.
    pub fn default() -> (h: PassThroughHasher)
        ensures
            h.0 == 0,
    {
        PassThroughHasher(0)
    }

    /// The last eight bytes written, as one number.
    pub fn finish(&self) -> (r: u64)
        ensures
            r == self.0,
    {
        self.0
    }

    /// Takes in `bytes`, one at a time.
    pub fn write(&mut self, bytes: &[u8])
        ensures
            final(self).0 == passthrough_fold(old(self).0, bytes@),
    {
        let mut i: usize = 0;
        while i < bytes.len()
            invariant
                i <= bytes.len(),
                self.0 == passthrough_fold(old(self).0, bytes@.take(i as int)),
            decreases bytes.len() - i,
        {
            proof {
                assert(bytes@.take(i + 1).drop_last() =~= bytes@.take(i as int));
                lemma_passthrough_shift(self.0, bytes@[i as int]);
            }
            self.0 = (self.0 << 8) + (bytes[i] as u64);
            i += 1;
        }
        proof {
            assert(bytes@.take(i as int) =~= bytes@);
        }
    }
}

impl Default for PassThroughHasher {
    fn default() -> (h: PassThroughHasher)
        ensures
            h.0 == 0,
    {
        PassThroughHasher::default()
    }
}

impl core::hash::Hasher for PassThroughHasher {
    fn finish(&self) -> (r: u64)
        ensures
            r == self.0,
    {
        PassThroughHasher::finish(self)
    }

    fn write(&mut self, bytes: &[u8])
        ensures
            final(self).0 == passthrough_fold(old(self).0, bytes@),
    {
        PassThroughHasher::write(self, bytes)
    }
}

/// The pass-through hash of `bytes`, in a single call.
pub fn passthrough(bytes: &[u8]) -> (r: u64)
    ensures
        r == passthrough_fold(0, bytes@),
{
    let mut hasher = PassThroughHasher::default();
    hasher.write(bytes);
    hasher.finish()
}

/// Writing `a` and then `b` leaves the hash that writing `a + b` at once
/// leaves.
pub proof fn lemma_passthrough_chunking(h: u64, a: Seq<u8>, b: Seq<u8>)
    ensures
        passthrough_fold(passthrough_fold(h, a), b) == passthrough_fold(h, a + b),
{
    let s = a + b;
    s.lemma_fold_left_split(h, |h: u64, b: u8| passthrough_step(h, b), a.len() as int);
    assert(s.subrange(0, a.len() as int) =~= a);
    assert(s.subrange(a.len() as int, s.len() as int) =~= b);
}

} // verus!
