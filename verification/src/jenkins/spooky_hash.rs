//! SpookyHash: a 128-bit hash for byte streams of any length, fed in
//! fragments of any size.

use vstd::prelude::*;
use crate::bytes::{le_u32_at, le_u64_at, load_u32_le, load_u64_le};
use crate::jenkins::{rot64, rotl64, slice_window};

verus! {

/// The number of 64-bit words of internal state.
pub const SC_NUM_VARS: usize = 12;

/// The size of the internal state, and of a block of input, in bytes.
pub const SC_BLOCK_SIZE: usize = 96;

/// The size of the buffer of bytes not yet mixed in.
pub const SC_BUF_SIZE: usize = 192;

/// A constant that is odd, not zero, and an irregular mix of ones and
/// zeros.
pub const SC_CONST: u64 = 0xdeadbeefdeadbeef;

// ================================
// the block permutation

/// By how much round `i` of `mix` rotates.
pub open spec fn mix_rotation(i: int) -> nat {
    seq![11nat, 32, 43, 31, 17, 28, 39, 57, 55, 54, 22, 46][i]
}

/// Round `i` of `mix`, of twelve: word `i` takes in word `i` of the data,
/// is folded into its neighbours and rotated. Indices count modulo 12.
#[verifier::opaque]
pub open spec fn mix_round(h: Seq<u64>, d: Seq<u64>, i: int) -> Seq<u64> {
    let i1 = (i + 1) % 12;
    let i2 = (i + 2) % 12;
    let i10 = (i + 10) % 12;
    let i11 = (i + 11) % 12;
    let h = h.update(i, h[i].wrapping_add(d[i]));
    let h = h.update(i2, h[i2] ^ h[i10]);
    let h = h.update(i11, h[i11] ^ h[i]);
    let h = h.update(i, rotl64(h[i], mix_rotation(i)));
    h.update(i11, h[i11].wrapping_add(h[i1]))
}

/// The first `n` rounds of `mix`.
pub open spec fn mix_rounds(h: Seq<u64>, d: Seq<u64>, n: nat) -> Seq<u64>
    decreases n,
{
    if n == 0 {
        h
    } else {
        mix_round(mix_rounds(h, d, (n - 1) as nat), d, n - 1)
    }
}

/// The state `h` of twelve words after a block of twelve data words `d`
/// is mixed in.
pub open spec fn spooky_mix(h: Seq<u64>, d: Seq<u64>) -> Seq<u64> {
    mix_rounds(h, d, 12)
}

/// Round `i` of `mix` undone, with the same data: its five operations
/// undone, the last first.
pub open spec fn mix_unround(h: Seq<u64>, d: Seq<u64>, i: int) -> Seq<u64> {
    let i1 = (i + 1) % 12;
    let i2 = (i + 2) % 12;
    let i10 = (i + 10) % 12;
    let i11 = (i + 11) % 12;
    let h = h.update(i11, h[i11].wrapping_sub(h[i1]));
    let h = h.update(i, rotl64(h[i], (64 - mix_rotation(i)) as nat));
    let h = h.update(i11, h[i11] ^ h[i]);
    let h = h.update(i2, h[i2] ^ h[i10]);
    h.update(i, h[i].wrapping_sub(d[i]))
}

/// The first `n` rounds of `mix` undone, the last of them first.
pub open spec fn mix_unrounds(h: Seq<u64>, d: Seq<u64>, n: nat) -> Seq<u64>
    decreases n,
{
    if n == 0 {
        h
    } else {
        mix_unrounds(mix_unround(h, d, n - 1), d, (n - 1) as nat)
    }
}

/// `mix` undone: the state before the block `d` was mixed in.
pub open spec fn spooky_unmix(h: Seq<u64>, d: Seq<u64>) -> Seq<u64> {
    mix_unrounds(h, d, 12)
}

/// Every round of `mix` rotates by more than nothing and less than a
/// whole word.
pub proof fn lemma_mix_rotation_bounds(i: int)
    requires
        0 <= i < 12,
    ensures
        0 < mix_rotation(i) < 64,
{
    let r = seq![11nat, 32, 43, 31, 17, 28, 39, 57, 55, 54, 22, 46];
    assert(r[0] == 11 && r[1] == 32 && r[2] == 43 && r[3] == 31 && r[4] == 17 && r[5] == 28);
    assert(r[6] == 39 && r[7] == 57 && r[8] == 55 && r[9] == 54 && r[10] == 22 && r[11] == 46);
}

/// A rotation to the left by `k` is undone by one by `64 - k`.
pub proof fn lemma_rotl64_undone(x: u64, k: nat)
    requires
        0 < k < 64,
    ensures
        rotl64(rotl64(x, k), (64 - k) as nat) == x,
{
    let n: u64 = k as u64;
    let m: u64 = (64 - k) as u64;
    let y: u64 = (x << n) | (x >> m);
    assert(((y << m) | (y >> n)) == x) by (bit_vector)
        requires
            0 < n < 64,
            m == 64 - n,
            y == (x << n) | (x >> m),
    ;
    assert(rotl64(x, k) == y);
    assert((64 - m) as u64 == n);
}

/// A round of `mix` loses nothing: undoing it gives back what went in.
pub proof fn lemma_mix_round_reversible(h: Seq<u64>, d: Seq<u64>, i: int)
    requires
        h.len() == 12,
        0 <= i < 12,
    ensures
        mix_round(h, d, i).len() == 12,
        mix_unround(mix_round(h, d, i), d, i) == h,
{
    let i1 = (i + 1) % 12;
    let i2 = (i + 2) % 12;
    let i10 = (i + 10) % 12;
    let i11 = (i + 11) % 12;
    let k = mix_rotation(i);
    reveal(mix_round);
    lemma_mix_rotation_bounds(i);
    let hi = h[i];
    let di = d[i];
    let h2 = h[i2];
    let h10 = h[i10];
    let h11 = h[i11];
    let e = h[i1];
    let a = hi.wrapping_add(di);
    let b = h2 ^ h10;
    let c = h11 ^ a;
    lemma_rotl64_undone(a, k);
    assert(a.wrapping_sub(di) == hi) by (bit_vector)
        requires
            a == hi.wrapping_add(di),
    ;
    assert(b ^ h10 == h2) by (bit_vector)
        requires
            b == h2 ^ h10,
    ;
    assert(c ^ a == h11) by (bit_vector)
        requires
            c == h11 ^ a,
    ;
    assert(c.wrapping_add(e).wrapping_sub(e) == c) by (bit_vector);
    assert(c.wrapping_add(b).wrapping_sub(b) == c) by (bit_vector);
    assert(mix_unround(mix_round(h, d, i), d, i) =~= h);
}

/// The rounds of `mix` keep the twelve words twelve.
pub proof fn lemma_mix_rounds_len(h: Seq<u64>, d: Seq<u64>, n: nat)
    requires
        h.len() == 12,
        n <= 12,
    ensures
        mix_rounds(h, d, n).len() == 12,
    decreases n,
{
    if n > 0 {
        lemma_mix_rounds_len(h, d, (n - 1) as nat);
        lemma_mix_round_reversible(mix_rounds(h, d, (n - 1) as nat), d, n - 1);
    }
}

/// The first `n` rounds of `mix`, undone, give back what went in.
pub proof fn lemma_mix_rounds_reversible(h: Seq<u64>, d: Seq<u64>, n: nat)
    requires
        h.len() == 12,
        n <= 12,
    ensures
        mix_unrounds(mix_rounds(h, d, n), d, n) == h,
    decreases n,
{
    if n > 0 {
        let before = mix_rounds(h, d, (n - 1) as nat);
        lemma_mix_rounds_len(h, d, (n - 1) as nat);
        lemma_mix_round_reversible(before, d, n - 1);
        lemma_mix_rounds_reversible(h, d, (n - 1) as nat);
    }
}

/// `mix` is reversible: the state before a block was mixed in can be had
/// back from the state after it and the block.
pub proof fn lemma_spooky_mix_reversible(h: Seq<u64>, d: Seq<u64>)
    requires
        h.len() == 12,
    ensures
        spooky_unmix(spooky_mix(h, d), d) == h,
{
    lemma_mix_rounds_reversible(h, d, 12);
}

/// Round `i` of `mix`, which rotates by `k`.
#[inline(always)]
fn mix_round_at(data: &[u64], state: &mut [u64; 12], i: usize, k: usize)
    requires
        data.len() >= 12,
        i < 12,
        k == mix_rotation(i as int),
    ensures
        final(state)@ == mix_round(old(state)@, data@, i as int),
{
    let i1: usize = (i + 1) % 12;
    let i2: usize = (i + 2) % 12;
    let i10: usize = (i + 10) % 12;
    let i11: usize = (i + 11) % 12;
    state[i] = state[i].wrapping_add(data[i]);
    state[i2] ^= state[i10];
    state[i11] ^= state[i];
    state[i] = rot64(state[i], k);
    state[i11] = state[i11].wrapping_add(state[i1]);
    proof {
        reveal(mix_round);
    }
    assert(state@ =~= mix_round(old(state)@, data@, i as int));
}

/// Mixes twelve words of data into the state. Every word of the state
/// comes to depend on every word of the data.
pub fn mix(data: &[u64], state: &mut [u64; 12])
    requires
        data.len() >= 12,
    ensures
        final(state)@ == spooky_mix(old(state)@, data@),
{
    proof {
        reveal_with_fuel(mix_rounds, 13);
    }
    mix_round_at(data, state, 0, 11);
    mix_round_at(data, state, 1, 32);
    mix_round_at(data, state, 2, 43);
    mix_round_at(data, state, 3, 31);
    mix_round_at(data, state, 4, 17);
    mix_round_at(data, state, 5, 28);
    mix_round_at(data, state, 6, 39);
    mix_round_at(data, state, 7, 57);
    mix_round_at(data, state, 8, 55);
    mix_round_at(data, state, 9, 54);
    mix_round_at(data, state, 10, 22);
    mix_round_at(data, state, 11, 46);
}

// ================================
// the closing permutation

/// By how much round `i` of `end_partial` rotates.
pub open spec fn end_rotation(i: int) -> nat {
    seq![44nat, 15, 34, 21, 38, 33, 10, 13, 38, 53, 42, 54][i]
}

/// Round `i` of `end_partial`, of twelve. Indices count modulo 12.
#[verifier::opaque]
pub open spec fn end_partial_round(h: Seq<u64>, i: int) -> Seq<u64> {
    let i1 = (i + 1) % 12;
    let i2 = (i + 2) % 12;
    let i11 = (i + 11) % 12;
    let h = h.update(i11, h[i11].wrapping_add(h[i1]));
    let h = h.update(i2, h[i2] ^ h[i11]);
    h.update(i1, rotl64(h[i1], end_rotation(i)))
}

/// The first `n` rounds of `end_partial`.
pub open spec fn end_partial_rounds(h: Seq<u64>, n: nat) -> Seq<u64>
    decreases n,
{
    if n == 0 {
        h
    } else {
        end_partial_round(end_partial_rounds(h, (n - 1) as nat), n - 1)
    }
}

/// One pass of the closing permutation over the twelve words of `h`.
pub open spec fn spooky_end_partial(h: Seq<u64>) -> Seq<u64> {
    end_partial_rounds(h, 12)
}

/// The twelve words of `h`, each with the word of `d` at its place added.
pub open spec fn add_words(h: Seq<u64>, d: Seq<u64>) -> Seq<u64> {
    Seq::new(12, |i: int| h[i].wrapping_add(d[i]))
}

/// The state `h` closed over the last block `d`: the block is added and
/// the closing permutation passes three times.
pub open spec fn spooky_end(h: Seq<u64>, d: Seq<u64>) -> Seq<u64> {
    spooky_end_partial(spooky_end_partial(spooky_end_partial(add_words(h, d))))
}

/// Round `i` of `end_partial`, which rotates by `k`.
#[inline(always)]
fn end_partial_round_at(state: &mut [u64; 12], i: usize, k: usize)
    requires
        i < 12,
        k == end_rotation(i as int),
    ensures
        final(state)@ == end_partial_round(old(state)@, i as int),
{
    let i1: usize = (i + 1) % 12;
    let i2: usize = (i + 2) % 12;
    let i11: usize = (i + 11) % 12;
    state[i11] = state[i11].wrapping_add(state[i1]);
    state[i2] ^= state[i11];
    state[i1] = rot64(state[i1], k);
    proof {
        reveal(end_partial_round);
    }
    assert(state@ =~= end_partial_round(old(state)@, i as int));
}

/// One pass of the closing permutation, which mixes all twelve words so
/// that the first two are a hash of them all.
pub fn end_partial(state: &mut [u64; 12])
    ensures
        final(state)@ == spooky_end_partial(old(state)@),
{
    proof {
        reveal_with_fuel(end_partial_rounds, 13);
    }
    end_partial_round_at(state, 0, 44);
    end_partial_round_at(state, 1, 15);
    end_partial_round_at(state, 2, 34);
    end_partial_round_at(state, 3, 21);
    end_partial_round_at(state, 4, 38);
    end_partial_round_at(state, 5, 33);
    end_partial_round_at(state, 6, 10);
    end_partial_round_at(state, 7, 13);
    end_partial_round_at(state, 8, 38);
    end_partial_round_at(state, 9, 53);
    end_partial_round_at(state, 10, 42);
    end_partial_round_at(state, 11, 54);
}

/// Closes the state over the last block of data.
pub fn end(data: &[u64; 12], state: &mut [u64; 12])
    ensures
        final(state)@ == spooky_end(old(state)@, data@),
{
    let ghost h0 = state@;
    state[0] = state[0].wrapping_add(data[0]);
    state[1] = state[1].wrapping_add(data[1]);
    state[2] = state[2].wrapping_add(data[2]);
    state[3] = state[3].wrapping_add(data[3]);
    state[4] = state[4].wrapping_add(data[4]);
    state[5] = state[5].wrapping_add(data[5]);
    state[6] = state[6].wrapping_add(data[6]);
    state[7] = state[7].wrapping_add(data[7]);
    state[8] = state[8].wrapping_add(data[8]);
    state[9] = state[9].wrapping_add(data[9]);
    state[10] = state[10].wrapping_add(data[10]);
    state[11] = state[11].wrapping_add(data[11]);
    assert(state@ =~= add_words(h0, data@));
    end_partial(state);
    end_partial(state);
    end_partial(state);
}

// ================================
// the permutations for short input

/// By how much round `j` of `short_mix` rotates.
pub open spec fn short_mix_rotation(j: int) -> nat {
    seq![50nat, 52, 30, 41, 54, 48, 38, 37, 62, 34, 5, 36][j]
}

/// Round `j` of `short_mix`, of twelve, on four words. The rounds start
/// at the third word and go round; indices count modulo 4.
#[verifier::opaque]
pub open spec fn short_mix_round(h: Seq<u64>, j: int) -> Seq<u64> {
    let i = (j + 2) % 4;
    let i1 = (j + 3) % 4;
    let i2 = j % 4;
    let h = h.update(i, rotl64(h[i], short_mix_rotation(j)));
    let h = h.update(i, h[i].wrapping_add(h[i1]));
    h.update(i2, h[i2] ^ h[i])
}

/// The first `n` rounds of `short_mix`.
pub open spec fn short_mix_rounds(h: Seq<u64>, n: nat) -> Seq<u64>
    decreases n,
{
    if n == 0 {
        h
    } else {
        short_mix_round(short_mix_rounds(h, (n - 1) as nat), n - 1)
    }
}

/// The four words of `h`, mixed.
pub open spec fn spooky_short_mix(h: Seq<u64>) -> Seq<u64> {
    short_mix_rounds(h, 12)
}

/// By how much round `j` of `short_end` rotates.
pub open spec fn short_end_rotation(j: int) -> nat {
    seq![15nat, 52, 26, 51, 28, 9, 47, 54, 32, 25, 63][j]
}

/// Round `j` of `short_end`, of eleven, on four words. The rounds start
/// at the fourth word and go round; indices count modulo 4.
#[verifier::opaque]
pub open spec fn short_end_round(h: Seq<u64>, j: int) -> Seq<u64> {
    let i = (j + 3) % 4;
    let p = (j + 2) % 4;
    let h = h.update(i, h[i] ^ h[p]);
    let h = h.update(p, rotl64(h[p], short_end_rotation(j)));
    h.update(i, h[i].wrapping_add(h[p]))
}

/// The first `n` rounds of `short_end`.
pub open spec fn short_end_rounds(h: Seq<u64>, n: nat) -> Seq<u64>
    decreases n,
{
    if n == 0 {
        h
    } else {
        short_end_round(short_end_rounds(h, (n - 1) as nat), n - 1)
    }
}

/// The four words of `h`, closed: the first two are a hash of all four.
pub open spec fn spooky_short_end(h: Seq<u64>) -> Seq<u64> {
    short_end_rounds(h, 11)
}

/// Round `j` of `short_mix`, which rotates by `k`.
#[inline(always)]
fn short_mix_round_at(h: &mut [u64; 4], j: usize, k: usize)
    requires
        j < 12,
        k == short_mix_rotation(j as int),
    ensures
        final(h)@ == short_mix_round(old(h)@, j as int),
{
    let i: usize = (j + 2) % 4;
    let i1: usize = (j + 3) % 4;
    let i2: usize = j % 4;
    h[i] = rot64(h[i], k);
    h[i] = h[i].wrapping_add(h[i1]);
    h[i2] ^= h[i];
    proof {
        reveal(short_mix_round);
    }
    assert(h@ =~= short_mix_round(old(h)@, j as int));
}

/// Mixes four words so that each bit of input spreads over all of them.
pub fn short_mix(h: &mut [u64; 4])
    ensures
        final(h)@ == spooky_short_mix(old(h)@),
{
    proof {
        reveal_with_fuel(short_mix_rounds, 13);
    }
    short_mix_round_at(h, 0, 50);
    short_mix_round_at(h, 1, 52);
    short_mix_round_at(h, 2, 30);
    short_mix_round_at(h, 3, 41);
    short_mix_round_at(h, 4, 54);
    short_mix_round_at(h, 5, 48);
    short_mix_round_at(h, 6, 38);
    short_mix_round_at(h, 7, 37);
    short_mix_round_at(h, 8, 62);
    short_mix_round_at(h, 9, 34);
    short_mix_round_at(h, 10, 5);
    short_mix_round_at(h, 11, 36);
}

/// Round `j` of `short_end`, which rotates by `k`.
#[inline(always)]
fn short_end_round_at(h: &mut [u64; 4], j: usize, k: usize)
    requires
        j < 11,
        k == short_end_rotation(j as int),
    ensures
        final(h)@ == short_end_round(old(h)@, j as int),
{
    let i: usize = (j + 3) % 4;
    let p: usize = (j + 2) % 4;
    h[i] ^= h[p];
    h[p] = rot64(h[p], k);
    h[i] = h[i].wrapping_add(h[p]);
    proof {
        reveal(short_end_round);
    }
    assert(h@ =~= short_end_round(old(h)@, j as int));
}

/// Mixes four words for the last time, into the first two.
pub fn short_end(h: &mut [u64; 4])
    ensures
        final(h)@ == spooky_short_end(old(h)@),
{
    proof {
        reveal_with_fuel(short_end_rounds, 12);
    }
    short_end_round_at(h, 0, 15);
    short_end_round_at(h, 1, 52);
    short_end_round_at(h, 2, 26);
    short_end_round_at(h, 3, 51);
    short_end_round_at(h, 4, 28);
    short_end_round_at(h, 5, 9);
    short_end_round_at(h, 6, 47);
    short_end_round_at(h, 7, 54);
    short_end_round_at(h, 8, 32);
    short_end_round_at(h, 9, 25);
    short_end_round_at(h, 10, 63);
}

// ================================
// short input

/// `h` with `x` added, the sum then shifted left by `k` bits.
pub open spec fn add_shl(h: u64, x: u64, k: u64) -> u64 {
    h.wrapping_add(x) << k
}

/// The four words `h` after a chunk `c` of 32 bytes: two words of it go
/// in before the mixing and two after.
pub open spec fn short_chunk(h: Seq<u64>, c: Seq<u8>) -> Seq<u64> {
    let h = h.update(2, h[2].wrapping_add(le_u64_at(c, 0)));
    let h = h.update(3, h[3].wrapping_add(le_u64_at(c, 8)));
    let h = spooky_short_mix(h);
    let h = h.update(0, h[0].wrapping_add(le_u64_at(c, 16)));
    h.update(1, h[1].wrapping_add(le_u64_at(c, 24)))
}

/// The four words `h` after every whole chunk of 32 bytes of `s`.
pub open spec fn short_chunks(h: Seq<u64>, s: Seq<u8>) -> Seq<u64>
    decreases s.len(),
{
    if s.len() >= 32 {
        short_chunks(short_chunk(h, s.take(32)), s.skip(32))
    } else {
        h
    }
}

/// What `s` has left after its whole chunks of 32 bytes.
pub open spec fn short_rest(s: Seq<u8>) -> Seq<u8> {
    s.skip(((s.len() / 32) * 32) as int)
}

/// The four words `h` after a rest `t` of one to fifteen bytes: the
/// message's `length` salts the last word, the bytes past the last whole
/// word are added and shifted up one after the other, highest first, and
/// the whole words are added as they are.
pub open spec fn short_pack(h: Seq<u64>, t: Seq<u8>, length: u64) -> Seq<u64> {
    let n = t.len();
    let h3 = add_shl(h[3], length, 56);
    if n >= 12 {
        let h3 = if n > 14 { add_shl(h3, t[14] as u64, 48) } else { h3 };
        let h3 = if n > 13 { add_shl(h3, t[13] as u64, 40) } else { h3 };
        let h3 = if n > 12 { add_shl(h3, t[12] as u64, 32) } else { h3 };
        let h = h.update(2, h[2].wrapping_add(le_u64_at(t, 0)));
        h.update(3, h3.wrapping_add(le_u32_at(t, 8) as u64))
    } else if n >= 8 {
        let h3 = if n > 10 { add_shl(h3, t[10] as u64, 16) } else { h3 };
        let h3 = if n > 9 { add_shl(h3, t[9] as u64, 8) } else { h3 };
        let h3 = if n > 8 { h3.wrapping_add(t[8] as u64) } else { h3 };
        let h = h.update(2, h[2].wrapping_add(le_u64_at(t, 0)));
        h.update(3, h3)
    } else if n >= 4 {
        let h2 = h[2];
        let h2 = if n > 6 { add_shl(h2, t[6] as u64, 48) } else { h2 };
        let h2 = if n > 5 { add_shl(h2, t[5] as u64, 40) } else { h2 };
        let h2 = if n > 4 { add_shl(h2, t[4] as u64, 32) } else { h2 };
        let h = h.update(2, h2.wrapping_add(le_u32_at(t, 0) as u64));
        h.update(3, h3)
    } else {
        let h2 = h[2];
        let h2 = if n > 2 { add_shl(h2, t[2] as u64, 16) } else { h2 };
        let h2 = if n > 1 { add_shl(h2, t[1] as u64, 8) } else { h2 };
        let h = h.update(2, h2.wrapping_add(t[0] as u64));
        h.update(3, h3)
    }
}

/// The four words `h` after the rest `t`, under 32 bytes, of a message
/// of `length` bytes: sixteen bytes or more give two words and a mixing
/// (what follows the sixteen is not read), fewer are packed, none leave
/// `h` as it is.
pub open spec fn short_tail(h: Seq<u64>, t: Seq<u8>, length: u64) -> Seq<u64> {
    if t.len() >= 16 {
        let h = h.update(2, h[2].wrapping_add(le_u64_at(t, 0)));
        let h = h.update(3, h[3].wrapping_add(le_u64_at(t, 8)));
        spooky_short_mix(h)
    } else if t.len() > 0 {
        short_pack(h, t, length)
    } else {
        h
    }
}

/// The two halves of the short hash of `message`, from the seeds `hash1`
/// and `hash2`. `length` is read only where the message ends in one to
/// fifteen bytes past its last chunk.
pub open spec fn spooky_short(hash1: u64, hash2: u64, message: Seq<u8>, length: u64) -> (u64, u64) {
    let h = seq![hash1, hash2, SC_CONST, SC_CONST];
    let h = short_chunks(h, message);
    let h = short_tail(h, short_rest(message), length);
    let h = spooky_short_end(h);
    (h[0], h[1])
}

/// Splitting off the first chunk: the chunks of what follows are the
/// other chunks, and the rest is the same.
pub proof fn lemma_short_rest_skip(s: Seq<u8>)
    requires
        s.len() >= 32,
    ensures
        short_rest(s.skip(32)) == short_rest(s),
{
    let n = s.len() as int;
    assert((n - 32) / 32 == n / 32 - 1) by (nonlinear_arith)
        requires
            n >= 32,
    ;
    assert(s.skip(32).skip(((n - 32) / 32) * 32) =~= s.skip((n / 32) * 32));
}

/// Under 32 bytes there is no chunk: the rest is the whole.
pub proof fn lemma_short_rest_small(s: Seq<u8>)
    requires
        s.len() < 32,
    ensures
        short_rest(s) == s,
{
    assert(s.skip(0) =~= s);
}

/// Packs a rest of one to fifteen bytes into the last two of four words,
/// with the message's length.
fn short_pack_rest(h: &mut [u64; 4], rest: &[u8], length: usize)
    requires
        0 < rest.len() < 16,
    ensures
        final(h)@ == short_pack(old(h)@, rest@, length as u64),
{
    let n: usize = rest.len();
    h[3] = h[3].wrapping_add(length as u64).wrapping_shl(56);
    if n >= 12 {
        if n > 14 {
            h[3] = h[3].wrapping_add(rest[14] as u64).wrapping_shl(48);
        }
        if n > 13 {
            h[3] = h[3].wrapping_add(rest[13] as u64).wrapping_shl(40);
        }
        if n > 12 {
            h[3] = h[3].wrapping_add(rest[12] as u64).wrapping_shl(32);
        }
        h[2] = h[2].wrapping_add(load_u64_le(rest, 0));
        h[3] = h[3].wrapping_add(load_u32_le(rest, 8) as u64);
    } else if n >= 8 {
        if n > 10 {
            h[3] = h[3].wrapping_add(rest[10] as u64).wrapping_shl(16);
        }
        if n > 9 {
            h[3] = h[3].wrapping_add(rest[9] as u64).wrapping_shl(8);
        }
        if n > 8 {
            h[3] = h[3].wrapping_add(rest[8] as u64);
        }
        h[2] = h[2].wrapping_add(load_u64_le(rest, 0));
    } else if n >= 4 {
        if n > 6 {
            h[2] = h[2].wrapping_add(rest[6] as u64).wrapping_shl(48);
        }
        if n > 5 {
            h[2] = h[2].wrapping_add(rest[5] as u64).wrapping_shl(40);
        }
        if n > 4 {
            h[2] = h[2].wrapping_add(rest[4] as u64).wrapping_shl(32);
        }
        h[2] = h[2].wrapping_add(load_u32_le(rest, 0) as u64);
    } else {
        if n > 2 {
            h[2] = h[2].wrapping_add(rest[2] as u64).wrapping_shl(16);
        }
        if n > 1 {
            h[2] = h[2].wrapping_add(rest[1] as u64).wrapping_shl(8);
        }
        h[2] = h[2].wrapping_add(rest[0] as u64);
    }
    assert(h@ =~= short_pack(old(h)@, rest@, length as u64));
}

/// Hashes a short message: low startup cost, for messages under 192
/// bytes. `hash1` and `hash2` hold the seeds, then the hash.
pub fn short(message: &[u8], length: usize, hash1: &mut u64, hash2: &mut u64)
    ensures
        (*final(hash1), *final(hash2)) == spooky_short(
            *old(hash1),
            *old(hash2),
            message@,
            length as u64,
        ),
{
    let mut h: [u64; 4] = [*hash1, *hash2, SC_CONST, SC_CONST];
    let ghost h_start = h@;
    assert(h_start =~= seq![*old(hash1), *old(hash2), SC_CONST, SC_CONST]);
    let mut bytes_cursor = slice_window(message, 0, message.len());
    assert(bytes_cursor@ =~= message@);

    while bytes_cursor.len() >= 32
        invariant
            short_chunks(h@, bytes_cursor@) == short_chunks(h_start, message@),
            short_rest(bytes_cursor@) == short_rest(message@),
        decreases bytes_cursor.len(),
    {
        let ghost before = bytes_cursor@;
        let ghost h_before = h@;
        let w0: u64 = load_u64_le(bytes_cursor, 0);
        let w1: u64 = load_u64_le(bytes_cursor, 8);
        let w2: u64 = load_u64_le(bytes_cursor, 16);
        let w3: u64 = load_u64_le(bytes_cursor, 24);
        proof {
            let c = before.take(32);
            assert(c.subrange(0, 8) =~= before.subrange(0, 8));
            assert(c.subrange(8, 16) =~= before.subrange(8, 16));
            assert(c.subrange(16, 24) =~= before.subrange(16, 24));
            assert(c.subrange(24, 32) =~= before.subrange(24, 32));
            lemma_short_rest_skip(before);
        }
        h[2] = h[2].wrapping_add(w0);
        h[3] = h[3].wrapping_add(w1);
        short_mix(&mut h);
        h[0] = h[0].wrapping_add(w2);
        h[1] = h[1].wrapping_add(w3);
        bytes_cursor = slice_window(bytes_cursor, 32, bytes_cursor.len() - 32);
        proof {
            assert(bytes_cursor@ =~= before.skip(32));
            assert(h@ =~= short_chunk(h_before, before.take(32)));
        }
    }

    let ghost t = bytes_cursor@;
    let ghost h_chunks = h@;
    proof {
        lemma_short_rest_small(t);
    }
    let n: usize = bytes_cursor.len();
    if n >= 16 {
        let w0: u64 = load_u64_le(bytes_cursor, 0);
        let w1: u64 = load_u64_le(bytes_cursor, 8);
        h[2] = h[2].wrapping_add(w0);
        h[3] = h[3].wrapping_add(w1);
        short_mix(&mut h);
    } else if !bytes_cursor.is_empty() {
        short_pack_rest(&mut h, bytes_cursor, length);
    }
    assert(h@ =~= short_tail(h_chunks, t, length as u64));

    short_end(&mut h);
    *hash1 = h[0];
    *hash2 = h[1];
}

// ================================
// the hash of a stream

/// The twelve words that a block of 96 bytes spells.
pub open spec fn block_words(b: Seq<u8>) -> Seq<u64> {
    Seq::new(12, |i: int| le_u64_at(b, 8 * i))
}

/// The state `h` after the blocks of `s`, 96 bytes each, are mixed in one
/// after the other. `s` is made of whole blocks.
pub open spec fn absorb_blocks(h: Seq<u64>, s: Seq<u8>) -> Seq<u64>
    decreases s.len(),
{
    if s.len() < 96 {
        h
    } else {
        let last = s.len() - 96;
        spooky_mix(absorb_blocks(h, s.take(last)), block_words(s.skip(last)))
    }
}

/// `s` followed by zero bytes, to a length of `n`.
pub open spec fn zero_padded(s: Seq<u8>, n: nat) -> Seq<u8> {
    s + Seq::new((n - s.len()) as nat, |i: int| 0u8)
}

/// The block that closes a stream: what the stream has left after its
/// whole blocks, under 96 bytes, then zeros, and in the last byte the
/// number of bytes that were left. So bytes that are zero and bytes that
/// are not there close differently.
pub open spec fn last_block(t: Seq<u8>) -> Seq<u8> {
    zero_padded(t, 95).push(t.len() as u8)
}

/// The state that `SpookyHasher::default` starts from: all zero.
pub open spec fn zero_state() -> Seq<u64> {
    Seq::new(12, |i: int| 0u64)
}

/// The state that `SpookyHasher::new` starts from: the two seeds and the
/// constant, four times over.
pub open spec fn seeded_state(seed1: u64, seed2: u64) -> Seq<u64> {
    Seq::new(
        12,
        |i: int|
            if i % 3 == 0 {
                seed1
            } else if i % 3 == 1 {
                seed2
            } else {
                SC_CONST
            },
    )
}

/// The 128-bit hash, in two halves, of the stream `s` from the starting
/// state `init`.
///
/// A stream under 192 bytes is hashed the short way: padded with zeros to
/// 192 bytes, from the first two words of `init`. A longer one has its
/// whole blocks mixed into `init`, and the state is closed over what is
/// left.
pub open spec fn spooky_hash128(init: Seq<u64>, s: Seq<u8>) -> (u64, u64) {
    if s.len() < 192 {
        spooky_short(init[0], init[1], zero_padded(s, 192), s.len() as u64)
    } else {
        let whole = ((s.len() / 96) * 96) as int;
        let h = absorb_blocks(init, s.take(whole));
        let h = spooky_end(h, block_words(last_block(s.skip(whole))));
        (h[0], h[1])
    }
}

/// One more block: the state after the first `c + 96` bytes is the state
/// after the first `c` with the next block mixed in.
pub proof fn lemma_absorb_next(h: Seq<u64>, s: Seq<u8>, c: int)
    requires
        0 <= c,
        c + 96 <= s.len(),
    ensures
        absorb_blocks(h, s.take(c + 96)) == spooky_mix(
            absorb_blocks(h, s.take(c)),
            block_words(s.subrange(c, c + 96)),
        ),
{
    let u = s.take(c + 96);
    assert(u.take(c) =~= s.take(c));
    assert(u.skip(c) =~= s.subrange(c, c + 96));
}

/// Reads the block of 96 bytes that starts at `at` as twelve words.
pub fn load_block(buf: &[u8], at: usize) -> (w: [u64; 12])
    requires
        at + 96 <= buf.len(),
    ensures
        w@ == block_words(buf@.subrange(at as int, at + 96)),
{
    let mut w: [u64; 12] = [0u64; 12];
    let ghost b = buf@.subrange(at as int, at + 96);
    let mut i: usize = 0;
    while i < 12
        invariant
            i <= 12,
            at + 96 <= buf.len(),
            b == buf@.subrange(at as int, at + 96),
            forall|j: int| 0 <= j < i ==> w@[j] == le_u64_at(b, 8 * j),
        decreases 12 - i,
    {
        proof {
            assert(b.subrange(8 * i, 8 * i + 8) =~= buf@.subrange(at + 8 * i, at + 8 * i + 8));
        }
        w[i] = load_u64_le(buf, at + 8 * i);
        i += 1;
    }
    assert(w@ =~= block_words(b));
    w
}

/// Copies `src` into `dst`, from the place `at` on.
pub fn copy_bytes<const N: usize>(dst: &mut [u8; N], at: usize, src: &[u8])
    requires
        at + src.len() <= N,
    ensures
        final(dst)@ == old(dst)@.take(at as int) + src@ + old(dst)@.skip(at + src.len()),
{
    let mut i: usize = 0;
    while i < src.len()
        invariant
            i <= src.len(),
            at + src.len() <= N,
            dst@ == old(dst)@.take(at as int) + src@.take(i as int) + old(dst)@.skip(at + i),
        decreases src.len() - i,
    {
        dst[at + i] = src[i];
        i += 1;
        assert(dst@ =~= old(dst)@.take(at as int) + src@.take(i as int) + old(dst)@.skip(at + i));
    }
    assert(src@.take(i as int) =~= src@);
}

/// What a hasher was made with and given: the state it started from,
/// and every byte written to it since, in order.
pub struct SpookyInput {
    pub init: Seq<u64>,
    pub bytes: Seq<u8>,
}

impl SpookyInput {
    /// Nothing written, and no seeds.
    pub open spec fn unseeded() -> SpookyInput {
        SpookyInput { init: zero_state(), bytes: Seq::<u8>::empty() }
    }

    /// Nothing written, and two seeds.
    pub open spec fn seeded(seed1: u64, seed2: u64) -> SpookyInput {
        SpookyInput { init: seeded_state(seed1, seed2), bytes: Seq::<u8>::empty() }
    }

    /// The input once `bytes` are written too.
    pub open spec fn write(self, bytes: Seq<u8>) -> SpookyInput {
        SpookyInput { init: self.init, bytes: self.bytes + bytes }
    }

    /// The input once each of `pieces` is written too, one write for each
    /// piece, in order.
    pub open spec fn write_all(self, pieces: Seq<Seq<u8>>) -> SpookyInput
        decreases pieces.len(),
    {
        if pieces.len() == 0 {
            self
        } else {
            self.write_all(pieces.drop_last()).write(pieces.last())
        }
    }

    /// The 128-bit hash of the input, in two halves.
    pub open spec fn hash128(self) -> (u64, u64) {
        spooky_hash128(self.init, self.bytes)
    }

    /// The 64-bit hash of the input: the first half of the 128-bit hash.
    pub open spec fn hash(self) -> u64 {
        self.hash128().0
    }
}

/// The hash is a function of the starting state and of the bytes: two
/// hashers that started alike and were given the same bytes agree,
/// whatever else they hold.
pub proof fn lemma_spooky_deterministic(x: SpookyInput, y: SpookyInput, s: Seq<u8>)
    requires
        x.init == y.init,
        x.bytes == y.bytes,
    ensures
        x.write(s).hash128() == y.write(s).hash128(),
        x.write(s).hash() == y.write(s).hash(),
{
}

/// Two writes are one write of both: the hash does not depend on where a
/// stream was cut.
pub proof fn lemma_spooky_chunking(input: SpookyInput, a: Seq<u8>, b: Seq<u8>)
    ensures
        input.write(a).write(b) == input.write(a + b),
        input.write(a).write(b).hash128() == input.write(a + b).hash128(),
{
    assert((input.bytes + a) + b =~= input.bytes + (a + b));
}

/// However a stream is cut into pieces, writing the pieces one by one is
/// writing the stream at once.
pub proof fn lemma_spooky_pieces(input: SpookyInput, pieces: Seq<Seq<u8>>)
    ensures
        input.write_all(pieces) == input.write(pieces.flatten()),
        input.write_all(pieces).hash128() == input.write(pieces.flatten()).hash128(),
    decreases pieces.len(),
{
    pieces.lemma_flatten_and_flatten_alt_are_equivalent();
    if pieces.len() == 0 {
        assert(input.bytes + pieces.flatten() =~= input.bytes);
    } else {
        let front = pieces.drop_last();
        lemma_spooky_pieces(input, front);
        front.lemma_flatten_and_flatten_alt_are_equivalent();
        lemma_spooky_chunking(input, front.flatten(), pieces.last());
    }
}

/// A stream that grows past the 192 bytes of the buffer in a second write
/// hashes as it would if it had come whole: the first write alone is
/// hashed the short way, both together the long way, from the same
/// starting state.
pub proof fn lemma_spooky_boundary(input: SpookyInput, a: Seq<u8>, b: Seq<u8>)
    requires
        input.bytes.len() == 0,
        a.len() < 192 <= a.len() + b.len(),
    ensures
        input.write(a).hash128() == spooky_short(
            input.init[0],
            input.init[1],
            zero_padded(a, 192),
            a.len() as u64,
        ),
        input.write(a).write(b).hash128() == spooky_hash128(input.init, a + b),
{
    lemma_spooky_chunking(input, a, b);
    assert(input.bytes + a =~= a);
    assert(input.bytes + (a + b) =~= a + b);
}

/// How many bytes wait in the buffer after a write of `n` bytes that
/// found `r` waiting. Under 192 bytes all wait. From 192 on, whole blocks
/// are mixed in and under a block is left.
pub open spec fn buffered_after(r: nat, n: nat) -> nat {
    if r + n < 192 {
        r + n
    } else {
        (r + n) % 96
    }
}

/// What a hasher keeps of its input: `buffered` is the end of the stream,
/// under 192 bytes of it, and `state` has taken in what comes before,
/// which is whole blocks. A stream under 192 bytes is all in the buffer,
/// and the state is as it started.
pub open spec fn keeps(input: SpookyInput, state: Seq<u64>, buffered: Seq<u8>) -> bool {
    let mixed = input.bytes.len() - buffered.len();
    &&& buffered.len() < 192
    &&& mixed >= 0
    &&& mixed % 96 == 0
    &&& input.bytes.len() < 192 ==> mixed == 0
    &&& state == absorb_blocks(input.init, input.bytes.take(mixed))
    &&& buffered == input.bytes.skip(mixed)
}

/// The SpookyHash engine. Bytes may be written in fragments of any size;
/// the hash is that of the bytes in the order they came, whatever the
/// fragments were.
#[derive(Copy, Clone)]
pub struct SpookyHasher {
    /// Bytes not yet mixed in: room for two blocks.
    m_data: [u8; 192],
    /// The internal state of the hash.
    m_state: [u64; 12],
    /// The total length of the input so far, as far as a `usize` counts.
    m_length: usize,
    /// How many bytes of `m_data` are in use.
    m_remainder: usize,
    /// What the hasher was made with and given.
    input: Ghost<SpookyInput>,
}

impl View for SpookyHasher {
    type V = SpookyInput;

    closed spec fn view(&self) -> SpookyInput {
        self.input@
    }
}

impl SpookyHasher {
    /// What holds of every hasher: the state has taken in all whole
    /// blocks of the stream but those that wait in the buffer, where the
    /// end of the stream stands, and a buffer that was never flushed is
    /// zero behind it.
    #[verifier::type_invariant]
    spec fn inv(self) -> bool {
        let s = self.input@.bytes;
        &&& self.input@.init.len() == 12
        &&& self.m_length == if s.len() <= usize::MAX { s.len() as int } else { usize::MAX as int }
        &&& self.m_remainder < 192
        &&& keeps(self.input@, self.state(), self.buffered())
        &&& s.len() < 192 ==> forall|i: int|
            self.m_remainder <= i < 192 ==> self.m_data@[i] == 0
    }

    /// The twelve words of state.
    pub closed spec fn state(&self) -> Seq<u64> {
        self.m_state@
    }

    /// The bytes that wait in the buffer.
    pub closed spec fn buffered(&self) -> Seq<u8> {
        self.m_data@.take(self.m_remainder as int)
    }

    /// A hasher without seeds, which has been given nothing.
    pub fn default() -> (h: SpookyHasher)
        ensures
            h@ == SpookyInput::unseeded(),
            h.state() == zero_state(),
            h.buffered().len() == 0,
    {
        let ghost input = SpookyInput { init: zero_state(), bytes: Seq::<u8>::empty() };
        let m_data: [u8; 192] = [0u8; 192];
        let m_state: [u64; 12] = [0u64; 12];
        proof {
            assert(m_state@ =~= zero_state());
            assert(input.bytes.take(0) =~= input.bytes);
            assert(m_data@.take(0) =~= input.bytes.skip(0));
        }
        SpookyHasher { m_data, m_state, m_length: 0, m_remainder: 0, input: Ghost(input) }
    }

    /// A hasher with two seeds, which has been given nothing.
    pub fn new(seed1: u64, seed2: u64) -> (h: SpookyHasher)
        ensures
            h@ == SpookyInput::seeded(seed1, seed2),
            h.state() == seeded_state(seed1, seed2),
            h.buffered().len() == 0,
    {
        let ghost input = SpookyInput {
            init: seeded_state(seed1, seed2),
            bytes: Seq::<u8>::empty(),
        };
        let m_data: [u8; 192] = [0u8; 192];
        let mut m_state: [u64; 12] = [0u64; 12];
        m_state[0] = seed1;
        m_state[3] = seed1;
        m_state[6] = seed1;
        m_state[9] = seed1;
        m_state[1] = seed2;
        m_state[4] = seed2;
        m_state[7] = seed2;
        m_state[10] = seed2;
        m_state[2] = SC_CONST;
        m_state[5] = SC_CONST;
        m_state[8] = SC_CONST;
        m_state[11] = SC_CONST;
        proof {
            assert(m_state@ =~= seeded_state(seed1, seed2));
            assert(input.bytes.take(0) =~= input.bytes);
            assert(m_data@.take(0) =~= input.bytes.skip(0));
        }
        SpookyHasher { m_data, m_state, m_length: 0, m_remainder: 0, input: Ghost(input) }
    }

    /// The 128-bit hash of the bytes written so far, in two halves. The
    /// hasher is left as it was: more may be written.
    pub fn finish128(&self) -> (r: (u64, u64))
        ensures
            r == self@.hash128(),
            keeps(self@, self.state(), self.buffered()),
    {
        proof {
            use_type_invariant(self);
        }
        if self.m_length < SC_BUF_SIZE {
            let mut hash1: u64 = self.m_state[0];
            let mut hash2: u64 = self.m_state[1];
            proof {
                lemma_unflushed(self@, self.m_state@, self.m_data@, self.m_remainder as int);
            }
            short(&self.m_data, self.m_length, &mut hash1, &mut hash2);
            return (hash1, hash2);
        }
        let mut state: [u64; 12] = self.m_state;
        let mut remainder: usize = self.m_remainder;
        let mut processed: usize = 0;
        if self.m_remainder >= SC_BLOCK_SIZE {
            let data = load_block(&self.m_data, 0);
            mix(&data, &mut state);
            processed = SC_BLOCK_SIZE;
            remainder -= SC_BLOCK_SIZE;
        }
        let mut block: [u8; 96] = [0u8; 96];
        copy_bytes(&mut block, 0, slice_window(&self.m_data, processed, remainder));
        block[SC_BLOCK_SIZE - 1] = remainder as u8;
        proof {
            assert(block@ =~= last_block(
                self.m_data@.subrange(processed as int, self.m_remainder as int),
            ));
            assert(block@.subrange(0, 96) =~= block@);
            lemma_closing(
                self@,
                self.m_state@,
                self.m_data@,
                self.m_remainder as int,
                state@,
                block@,
            );
        }
        let data = load_block(&block, 0);
        end(&data, &mut state);
        (state[0], state[1])
    }

    /// The hash of the bytes written so far: the first half of the
    /// 128-bit hash.
    pub fn finish(&self) -> (r: u64)
        ensures
            r == self@.hash(),
    {
        self.finish128().0
    }

    /// Takes in `bytes`, which follow what was written before.
    ///
    /// While less than 192 bytes wait, they are only put by. Once there
    /// are more, what waits is mixed into the state with the new bytes,
    /// block by block, and what does not fill a block is put by.
    pub fn write(&mut self, bytes: &[u8])
        ensures
            final(self)@ == old(self)@.write(bytes@),
            final(self).buffered().len() == buffered_after(
                old(self).buffered().len(),
                bytes@.len(),
            ),
            keeps(final(self)@, final(self).state(), final(self).buffered()),
            old(self).buffered().len() + bytes@.len() < 192 ==> final(self).state() == old(
                self,
            ).state() && final(self).buffered() == old(self).buffered() + bytes@,
    {
        proof {
            use_type_invariant(&*self);
        }
        let ghost input0 = self@;
        let ghost input1 = input0.write(bytes@);
        let ghost mixed0 = input0.bytes.len() - self.m_remainder;
        let mut data: [u8; 192] = self.m_data;
        let mut state: [u64; 12] = self.m_state;
        let length: usize = self.m_length.saturating_add(bytes.len());
        // Too little to fill the buffer: put it by.
        if bytes.len() < SC_BUF_SIZE - self.m_remainder {
            let new_length: usize = self.m_remainder + bytes.len();
            copy_bytes(&mut data, self.m_remainder, bytes);
            proof {
                lemma_put_by(
                    input0,
                    state@,
                    self.m_data@,
                    self.m_remainder as int,
                    bytes@,
                    data@,
                );
            }
            *self = SpookyHasher {
                m_data: data,
                m_state: state,
                m_length: length,
                m_remainder: new_length,
                input: Ghost(input1),
            };
            return ;
        }
        let mut processed: usize = 0;
        if self.m_remainder > 0 {
            // Fill the buffer up from the new bytes and mix both its blocks.
            processed = SC_BUF_SIZE - self.m_remainder;
            copy_bytes(&mut data, self.m_remainder, slice_window(bytes, 0, processed));
            proof {
                lemma_flush(
                    input0,
                    state@,
                    self.m_data@,
                    self.m_remainder as int,
                    bytes@,
                    data@,
                );
            }
            let first = load_block(&data, 0);
            mix(&first, &mut state);
            let second = load_block(&data, SC_BLOCK_SIZE);
            mix(&second, &mut state);
        } else {
            proof {
                assert(self.m_data@.take(0) =~= Seq::<u8>::empty());
                lemma_nothing_waiting(input0, state@, bytes@);
            }
        }
        // Mix the whole blocks of what is left of the new bytes.
        let mut bytes_cursor = slice_window(bytes, processed, bytes.len() - processed);
        let ghost mut mixed: int = input0.bytes.len() + processed;
        proof {
            assert(bytes_cursor@ =~= bytes@.skip(processed as int));
        }
        while bytes_cursor.len() >= SC_BLOCK_SIZE
            invariant
                0 <= mixed0 <= mixed <= input1.bytes.len(),
                (mixed - mixed0) % 96 == 0,
                bytes_cursor@ == input1.bytes.skip(mixed),
                state@ == absorb_blocks(input1.init, input1.bytes.take(mixed)),
            decreases bytes_cursor.len(),
        {
            let block = load_block(bytes_cursor, 0);
            mix(&block, &mut state);
            proof {
                assert(bytes_cursor@.subrange(0, 96) =~= input1.bytes.subrange(mixed, mixed + 96));
                lemma_absorb_next(input1.init, input1.bytes, mixed);
            }
            bytes_cursor = slice_window(
                bytes_cursor,
                SC_BLOCK_SIZE,
                bytes_cursor.len() - SC_BLOCK_SIZE,
            );
            proof {
                assert(bytes_cursor@ =~= input1.bytes.skip(mixed + 96));
                mixed = mixed + 96;
            }
        }
        let mut remainder: usize = 0;
        if !bytes_cursor.is_empty() {
            // Under a block is left: put it by.
            copy_bytes(&mut data, 0, bytes_cursor);
            remainder = bytes_cursor.len();
        }
        proof {
            assert(data@.take(remainder as int) =~= bytes_cursor@);
            lemma_rest_after_blocks(
                self.m_remainder + bytes@.len(),
                mixed - mixed0,
                remainder as int,
            );
        }
        *self = SpookyHasher {
            m_data: data,
            m_state: state,
            m_length: length,
            m_remainder: remainder,
            input: Ghost(input1),
        };
    }
}

/// A buffer that was never flushed holds the whole stream, then zeros,
/// and the state is as it started.
proof fn lemma_unflushed(input: SpookyInput, state: Seq<u64>, data: Seq<u8>, rem: int)
    requires
        input.bytes.len() < 192,
        data.len() == 192,
        0 <= rem < 192,
        keeps(input, state, data.take(rem)),
        forall|i: int| rem <= i < 192 ==> data[i] == 0,
    ensures
        rem == input.bytes.len(),
        state == input.init,
        data == zero_padded(input.bytes, 192),
{
    let s = input.bytes;
    assert(s.skip(0) =~= s);
    assert(s.take(0).len() == 0);
    assert forall|i: int| 0 <= i < 192 implies data[i] == zero_padded(s, 192)[i] by {
        if i < rem {
            assert(data.take(rem)[i] == data[i]);
        }
    }
    assert(data =~= zero_padded(s, 192));
}

/// What the state and the buffer come to when a stream of 192 bytes or
/// more is closed: a whole block that waits is mixed in first, and the
/// closing block is made of what is then left.
proof fn lemma_closing(
    input: SpookyInput,
    state0: Seq<u64>,
    data: Seq<u8>,
    rem: int,
    state1: Seq<u64>,
    block: Seq<u8>,
)
    requires
        input.bytes.len() >= 192,
        data.len() == 192,
        0 <= rem < 192,
        keeps(input, state0, data.take(rem)),
        rem >= 96 ==> state1 == spooky_mix(state0, block_words(data.subrange(0, 96))) && block
            == last_block(data.subrange(96, rem)),
        rem < 96 ==> state1 == state0 && block == last_block(data.subrange(0, rem)),
    ensures
        ({
            let h = spooky_end(state1, block_words(block));
            spooky_hash128(input.init, input.bytes) == (h[0], h[1])
        }),
{
    let s = input.bytes;
    let mixed = s.len() - rem;
    let taken: int = if rem >= 96 { 96 } else { 0 };
    let whole = mixed + taken;
    assert(whole == (s.len() / 96) * 96);
    assert(data.subrange(taken, rem) =~= s.skip(whole)) by {
        assert forall|i: int| 0 <= i < rem - taken implies #[trigger] data.subrange(taken, rem)[i]
            == s.skip(whole)[i] by {
            assert(data.take(rem)[taken + i] == s.skip(mixed)[taken + i]);
        }
    }
    if rem >= 96 {
        assert(data.subrange(0, 96) =~= s.subrange(mixed, mixed + 96)) by {
            assert forall|i: int| 0 <= i < 96 implies data[i] == s[mixed + i] by {
                assert(data.take(rem)[i] == s.skip(mixed)[i]);
            }
        }
        lemma_absorb_next(input.init, s, mixed);
    }
}

/// Bytes that are put by: the buffer holds what it held and then the new
/// bytes, the state is as it was, and the buffer is as it was behind them.
proof fn lemma_put_by(
    input: SpookyInput,
    state: Seq<u64>,
    data0: Seq<u8>,
    rem: int,
    bytes: Seq<u8>,
    data1: Seq<u8>,
)
    requires
        data0.len() == 192,
        0 <= rem,
        rem + bytes.len() < 192,
        keeps(input, state, data0.take(rem)),
        data1 == data0.take(rem) + bytes + data0.skip(rem + bytes.len()),
    ensures
        keeps(input.write(bytes), state, data1.take(rem + bytes.len())),
        data1.take(rem + bytes.len()) == data0.take(rem) + bytes,
        forall|i: int| rem + bytes.len() <= i < 192 ==> data1[i] == data0[i],
{
    let s0 = input.bytes;
    let s1 = s0 + bytes;
    let mixed = s0.len() - rem;
    assert(s1.take(mixed) =~= s0.take(mixed));
    assert(data1.take(rem + bytes.len()) =~= data0.take(rem) + bytes);
    assert(data1.take(rem + bytes.len()) =~= s1.skip(mixed)) by {
        assert forall|i: int| 0 <= i < rem implies data1[i] == s1[mixed + i] by {
            assert(data0.take(rem)[i] == s0.skip(mixed)[i]);
        }
    }
}

/// A buffer that is filled up and flushed: its two blocks are the next
/// two blocks of the stream, and what follows them in the stream is what
/// the new bytes have left.
proof fn lemma_flush(
    input: SpookyInput,
    state: Seq<u64>,
    data0: Seq<u8>,
    rem: int,
    bytes: Seq<u8>,
    data1: Seq<u8>,
)
    requires
        data0.len() == 192,
        0 < rem < 192,
        rem + bytes.len() >= 192,
        keeps(input, state, data0.take(rem)),
        data1 == data0.take(rem) + bytes.subrange(0, 192 - rem) + data0.skip(192),
    ensures
        ({
            let s1 = input.bytes + bytes;
            let mixed = input.bytes.len() - rem;
            &&& absorb_blocks(input.init, s1.take(mixed + 192)) == spooky_mix(
                spooky_mix(state, block_words(data1.subrange(0, 96))),
                block_words(data1.subrange(96, 192)),
            )
            &&& bytes.skip(192 - rem) == s1.skip(mixed + 192)
        }),
{
    let s0 = input.bytes;
    let s1 = s0 + bytes;
    let mixed = s0.len() - rem;
    assert(data1 =~= s1.subrange(mixed, mixed + 192)) by {
        assert forall|i: int| 0 <= i < rem implies data1[i] == s1[mixed + i] by {
            assert(data0.take(rem)[i] == s0.skip(mixed)[i]);
        }
    }
    assert(data1.subrange(0, 96) =~= s1.subrange(mixed, mixed + 96));
    assert(data1.subrange(96, 192) =~= s1.subrange(mixed + 96, mixed + 192));
    assert(s1.take(mixed) =~= s0.take(mixed));
    lemma_absorb_next(input.init, s1, mixed);
    lemma_absorb_next(input.init, s1, mixed + 96);
    assert(bytes.skip(192 - rem) =~= s1.skip(mixed + 192));
}

/// With nothing waiting, the state has taken in the whole stream, and the
/// new bytes are what follows.
proof fn lemma_nothing_waiting(input: SpookyInput, state: Seq<u64>, bytes: Seq<u8>)
    requires
        keeps(input, state, Seq::<u8>::empty()),
    ensures
        ({
            let s1 = input.bytes + bytes;
            &&& state == absorb_blocks(input.init, s1.take(input.bytes.len() as int))
            &&& bytes.skip(0) == s1.skip(input.bytes.len() as int)
        }),
{
    let s0 = input.bytes;
    let s1 = s0 + bytes;
    assert(s1.take(s0.len() as int) =~= s0.take(s0.len() as int));
    assert(bytes.skip(0) =~= s1.skip(s0.len() as int));
}

/// What is left of `total` bytes after `blocks` bytes of whole blocks,
/// when it is under a block, is the rest of `total` by the block size.
proof fn lemma_rest_after_blocks(total: int, blocks: int, rest: int)
    requires
        blocks % 96 == 0,
        0 <= rest < 96,
        total == blocks + rest,
    ensures
        rest == total % 96,
{
}

impl Default for SpookyHasher {
    fn default() -> (h: SpookyHasher)
        ensures
            h@ == SpookyInput::unseeded(),
    {
        SpookyHasher::default()
    }
}

impl core::hash::Hasher for SpookyHasher {
    fn finish(&self) -> (r: u64)
        ensures
            r == self@.hash(),
    {
        SpookyHasher::finish(self)
    }

    fn write(&mut self, bytes: &[u8])
        ensures
            final(self)@ == old(self)@.write(bytes@),
    {
        SpookyHasher::write(self, bytes)
    }
}

/// The SpookyHash digest of `bytes`, from a hasher without seeds.
pub fn spooky(bytes: &[u8]) -> (r: u64)
    ensures
        r == spooky_hash128(zero_state(), bytes@).0,
{
    let mut hasher = SpookyHasher::default();
    hasher.write(bytes);
    assert(Seq::<u8>::empty() + bytes@ =~= bytes@);
    hasher.finish()
}

} // verus!
