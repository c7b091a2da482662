//! Values fed to the standard library's default hasher.

use std::hash::{DefaultHasher, Hash, Hasher};
use vstd::prelude::*;
use vstd::std_specs::hash::*;

verus! {

/// The byte strings that hashing a `u64` writes into a hasher, in order.
pub uninterp spec fn u64_hash_writes(value: u64) -> Seq<Seq<u8>>;

/// The byte strings that `write_u64` writes into a hasher, in order.
pub uninterp spec fn write_u64_writes(value: u64) -> Seq<Seq<u8>>;

/// The byte strings that hashing a string slice writes into a hasher, in order.
pub uninterp spec fn str_hash_writes(value: Seq<char>) -> Seq<Seq<u8>>;

/// `<u64 as Hash>::hash`: appends what it writes for `value`, which depends on `value` alone.
#[verifier::external_body]
fn u64_hash(value: u64, state: &mut DefaultHasher)
    ensures
        final(state)@ == old(state)@ + u64_hash_writes(value),
{
    value.hash(state)
}

/// `<str as Hash>::hash`: appends what it writes for `value`, which depends on the
/// characters of `value` alone.
#[verifier::external_body]
fn str_hash(value: &str, state: &mut DefaultHasher)
    ensures
        final(state)@ == old(state)@ + str_hash_writes(value@),
{
    value.hash(state)
}

/// `Hasher::write_u64`: appends what it writes for `value`, which depends on `value` alone.
#[verifier::external_body]
pub(crate) fn write_u64(state: &mut DefaultHasher, value: u64)
    ensures
        final(state)@ == old(state)@ + write_u64_writes(value),
{
    state.write_u64(value)
}

/// A value that a filter can hash.
pub trait HashKey {
    /// The byte strings that the value writes into a hasher, in order.
    spec fn hash_writes(&self) -> Seq<Seq<u8>>;

    /// Feeds the value to a hasher.
    fn feed(&self, state: &mut DefaultHasher)
        ensures
            final(state)@ == old(state)@ + self.hash_writes(),
    ;
}

impl HashKey for u64 {
    open spec fn hash_writes(&self) -> Seq<Seq<u8>> {
        u64_hash_writes(*self)
    }

    fn feed(&self, state: &mut DefaultHasher) {
        u64_hash(*self, state)
    }
}

impl HashKey for str {
    open spec fn hash_writes(&self) -> Seq<Seq<u8>> {
        str_hash_writes(self@)
    }

    fn feed(&self, state: &mut DefaultHasher) {
        str_hash(self, state)
    }
}

} // verus!
