//! The seeded byte stream of the `rand` crate's standard generator.

use rand::rngs::StdRng;
use rand::{Rng, SeedableRng};
use vstd::prelude::*;

verus! {

/// The byte at position `i` of the stream that a standard generator seeded with `seed` yields.
pub uninterp spec fn std_rng_byte(seed: u64, i: int) -> u8;

/// Bytes in the buffer of a `u64` word.
pub const WORD_BYTES: usize = 8;

/// The `k`-th 64-bit word of the stream: eight bytes, the least significant first.
pub open spec fn std_rng_word(seed: u64, k: int) -> int {
    word_of(Seq::new(8, |j: int| std_rng_byte(seed, 8 * k + j)))
}

/// Eight bytes read as an integer, the least significant byte first.
pub open spec fn word_of(b: Seq<u8>) -> int {
    b[0] + 256 * (b[1] + 256 * (b[2] + 256 * (b[3] + 256 * (b[4] + 256 * (b[5] + 256 * (b[6] + 256
        * b[7]))))))
}

/// The first `len` bytes of the stream of `rand::rngs::StdRng::seed_from_u64(seed)`, taken
/// by one call of `fill_bytes` on the fresh generator. A shorter request gives a prefix of
/// a longer one: the generator hands its bytes out in the order in which it makes them.
/// A vector holds at most `isize::MAX` bytes.
#[verifier::external_body]
pub(crate) fn std_rng_bytes(seed: u64, len: usize) -> (bytes: Vec<u8>)
    requires
        len <= isize::MAX,
    ensures
        bytes@ == Seq::new(len as nat, |i: int| std_rng_byte(seed, i)),
{
    let mut bytes = vec![0u8; len];
    StdRng::seed_from_u64(seed).fill_bytes(&mut bytes);
    bytes
}

/// The word that starts at byte `at` of `bytes`.
pub fn word_at(bytes: &Vec<u8>, at: usize) -> (w: u64)
    requires
        at + WORD_BYTES <= bytes.len(),
    ensures
        w == word_of(bytes@.subrange(at as int, at + 8)),
{
    let w6: u64 = bytes[at + 6] as u64 + 256 * bytes[at + 7] as u64;
    let w5: u64 = bytes[at + 5] as u64 + 256 * w6;
    let w4: u64 = bytes[at + 4] as u64 + 256 * w5;
    let w3: u64 = bytes[at + 3] as u64 + 256 * w4;
    let w2: u64 = bytes[at + 2] as u64 + 256 * w3;
    let w1: u64 = bytes[at + 1] as u64 + 256 * w2;
    bytes[at] as u64 + 256 * w1
}

} // verus!
