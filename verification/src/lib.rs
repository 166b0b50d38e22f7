//! Non-cryptographic hash functions behind one incremental contract:
//! make a hasher, `write` bytes to it any number of times, and `finish`
//! to a digest, as often as wanted.
//!
//! Each hasher states its digest as a mathematical function of what it
//! was made with and of the bytes it was given, and its code is proved
//! against that function. For all hashers but lookup3 the function reads
//! the bytes as one stream, so the digest does not depend on how the
//! stream was cut into writes.
//!
//! None of these hashes is fit for cryptography, nor for tables that an
//! adversary can fill.
//!
//! - [`jenkins`]: one-at-a-time and lookup3, and in
//!   [`jenkins::spooky_hash`] SpookyHash, which buffers its input;
//! - [`oz`]: djb2, sdbm and lose-lose;
//! - [`fnv`]: FNV-1a, 32 and 64 bits wide;
//! - [`null`]: two hashers for tests;
//! - [`builtin`]: the default hasher of std;
//! - [`bytes`]: little-endian decoding, which the others share.

pub mod builtin;
pub mod bytes;
pub mod fnv;
pub mod jenkins;
pub mod null;
pub mod oz;
