//! The hasher that std's hash map uses by default, beside the others, to
//! compare them with.

use vstd::prelude::*;
use vstd::std_specs::hash::DefaultHasherAdditionalSpecFns;
use core::hash::Hasher;

pub use std::collections::hash_map::DefaultHasher;

verus! {

/// The digest that std's default hasher gives `bytes`, written at once.
pub fn default(bytes: &[u8]) -> (r: u64)
    ensures
        r == DefaultHasher::spec_finish(seq![bytes@]),
{
    let mut hasher = DefaultHasher::new();
    hasher.write(bytes);
    assert(hasher@ =~= seq![bytes@]);
    hasher.finish()
}

} // verus!
