//! Counters that wrap around at the end of their type, as integers of a release build do.

use vstd::prelude::*;

verus! {

/// `x` modulo `2^64`.
pub open spec fn wrap_u64(x: int) -> u64 {
    (x % 0x1_0000_0000_0000_0000) as u64
}

/// `x`, or the largest `u128` where `x` is larger. Times stop there.
pub open spec fn clamp_u128(x: int) -> u128 {
    if x > u128::MAX {
        u128::MAX
    } else {
        x as u128
    }
}

/// `x` modulo one more than the largest `usize`.
pub open spec fn wrap_usize(x: int) -> usize {
    if usize::MAX == 0xffff_ffff_ffff_ffff {
        (x % 0x1_0000_0000_0000_0000) as usize
    } else {
        (x % 0x1_0000_0000) as usize
    }
}

/// The representative of `x` modulo `2^64` that an `i64` holds.
pub open spec fn wrap_i64(x: int) -> i64 {
    ((x + 0x8000_0000_0000_0000) % 0x1_0000_0000_0000_0000 - 0x8000_0000_0000_0000) as i64
}

pub fn add_u64(a: u64, b: u64) -> (r: u64)
    ensures
        r == wrap_u64(a + b),
{
    a.wrapping_add(b)
}

pub fn sub_u64(a: u64, b: u64) -> (r: u64)
    ensures
        r == wrap_u64(a - b),
{
    a.wrapping_sub(b)
}

pub fn add_u128(a: u128, b: u128) -> (r: u128)
    ensures
        r == clamp_u128(a + b),
{
    a.saturating_add(b)
}

pub fn add_usize(a: usize, b: usize) -> (r: usize)
    ensures
        r == wrap_usize(a + b),
{
    a.wrapping_add(b)
}

pub fn mul_usize(a: usize, b: usize) -> (r: usize)
    ensures
        r == wrap_usize(a * b),
{
    assert(a * b >= 0) by (nonlinear_arith);
    a.wrapping_mul(b)
}

pub fn add_i64(a: i64, b: i64) -> (r: i64)
    ensures
        r == wrap_i64(a + b),
{
    a.wrapping_add(b)
}

pub fn sub_i64(a: i64, b: i64) -> (r: i64)
    ensures
        r == wrap_i64(a - b),
{
    a.wrapping_sub(b)
}

proof fn lemma_mod_drop(x: int, q: int)
    ensures
        (x + 0x1_0000_0000_0000_0000 * q) % 0x1_0000_0000_0000_0000 == x
            % 0x1_0000_0000_0000_0000,
{
    vstd::arithmetic::div_mod::lemma_mod_multiples_vanish(q, x, 0x1_0000_0000_0000_0000);
}

/// Wrapping a summand first does not change the wrapped sum.
pub proof fn lemma_wrap_u64_add(a: int, b: int)
    ensures
        wrap_u64(wrap_u64(a) + b) == wrap_u64(a + b),
        wrap_u64(a + wrap_u64(b)) == wrap_u64(a + b),
{
    let m: int = 0x1_0000_0000_0000_0000;
    lemma_mod_drop(a + b, -(a / m));
    lemma_mod_drop(a + b, -(b / m));
}

/// Wrapping a summand first does not change the wrapped sum.
pub proof fn lemma_wrap_usize_add(a: int, b: int)
    ensures
        wrap_usize(wrap_usize(a) + b) == wrap_usize(a + b),
        wrap_usize(a + wrap_usize(b)) == wrap_usize(a + b),
{
    if usize::MAX == 0xffff_ffff_ffff_ffff {
        let m: int = 0x1_0000_0000_0000_0000;
        lemma_mod_drop(a + b, -(a / m));
        lemma_mod_drop(a + b, -(b / m));
    } else {
        let m: int = 0x1_0000_0000;
        vstd::arithmetic::div_mod::lemma_mod_multiples_vanish(-(a / m), a + b, m);
        vstd::arithmetic::div_mod::lemma_mod_multiples_vanish(-(b / m), a + b, m);
    }
}

/// Stopping a summand first does not change where the sum stops.
pub proof fn lemma_clamp_u128_add(a: int, b: int)
    requires
        0 <= a,
        0 <= b,
    ensures
        clamp_u128(clamp_u128(a) + b) == clamp_u128(a + b),
{
}

/// What fits is not wrapped.
pub proof fn lemma_wrap_small(x: int)
    requires
        0 <= x <= usize::MAX,
    ensures
        wrap_usize(x) == x,
{
}

/// One less than zero is the largest.
pub proof fn lemma_wrap_minus_one()
    ensures
        wrap_usize(-1) == usize::MAX,
{
}

/// The representative of `x` that fits a machine word.
pub fn word(x: u64) -> (r: usize)
    ensures
        r == wrap_usize(x as int),
{
    if usize::MAX as u64 == 0xffff_ffff_ffff_ffff {
        x as usize
    } else {
        (x % 0x1_0000_0000) as usize
    }
}

proof fn lemma_wrap_i64_offset(a: int) -> (q: int)
    ensures
        wrap_i64(a) == a + 0x1_0000_0000_0000_0000 * q,
{
    -((a + 0x8000_0000_0000_0000) / 0x1_0000_0000_0000_0000)
}

/// Wrapping a summand first does not change the wrapped sum.
pub proof fn lemma_wrap_i64_add(a: int, b: int)
    ensures
        wrap_i64(wrap_i64(a) + b) == wrap_i64(a + b),
        wrap_i64(a + wrap_i64(b)) == wrap_i64(a + b),
        wrap_i64(a - wrap_i64(b)) == wrap_i64(a - b),
{
    let p = lemma_wrap_i64_offset(a);
    let q = lemma_wrap_i64_offset(b);
    lemma_mod_drop(a + b + 0x8000_0000_0000_0000, p);
    lemma_mod_drop(a + b + 0x8000_0000_0000_0000, q);
    lemma_mod_drop(a - b + 0x8000_0000_0000_0000, -q);
}

} // verus!
