//! Non-negative binary64 numbers held as integers.
//!
//! Sizes and index gaps in the simulator are defined by double-precision
//! formulas. Here each such number is a significand and an exponent, and each
//! operation rounds to nearest, ties to even, as the IEEE 754 operation does.

use vstd::arithmetic::div_mod::*;
use vstd::arithmetic::mul::*;
use vstd::arithmetic::power::*;
use vstd::arithmetic::power2::*;
use vstd::prelude::*;

verus! {

/// Smallest significand of a normalised number.
pub const MANT_MIN: u64 = 0x10_0000_0000_0000;

/// Exclusive upper bound on significands.
pub const MANT_END: u64 = 0x20_0000_0000_0000;

/// The number `mant * 2^exp`.
#[derive(Clone, Copy, Debug, PartialEq, Eq, Structural)]
pub struct Binary64 {
    pub mant: u64,
    pub exp: i32,
}

/// `n / d` rounded to an integer: to the nearest one, and on a tie to the even one.
pub open spec fn rne(n: int, d: int) -> int {
    let q = n / d;
    let twice = 2 * (n % d);
    if twice < d {
        q
    } else if twice > d {
        q + 1
    } else {
        q + q % 2
    }
}

/// How many times `x` is halved before it fits a significand.
pub open spec fn halvings(x: nat) -> nat
    decreases x,
{
    if x < MANT_END {
        0
    } else {
        1 + halvings(x / 2)
    }
}

/// How many times a positive `x` is doubled before it fills a significand.
pub open spec fn doublings(x: nat) -> nat
    decreases MANT_END - x,
{
    if x == 0 || x >= MANT_MIN {
        0
    } else {
        1 + doublings(2 * x)
    }
}

/// `mant * 2^exp` where `mant` may have been rounded up to the end of the significands.
pub open spec fn carry(mant: int, exp: int) -> (int, int) {
    if mant == MANT_END {
        (MANT_MIN as int, exp + 1)
    } else {
        (mant, exp)
    }
}

/// The binary64 number nearest to `x * 2^e`, as significand and exponent.
pub open spec fn nearest(x: nat, e: int) -> (int, int) {
    if x == 0 {
        (0, 0)
    } else if x < MANT_END {
        ((x * pow2(doublings(x))) as int, e - doublings(x))
    } else {
        carry(rne(x as int, pow2(halvings(x)) as int), e + halvings(x))
    }
}

/// `s` is the integer nearest to the square root of `n`. There is no tie: the
/// square of a half-integer is not an integer.
pub open spec fn is_nearest_sqrt(s: int, n: int) -> bool {
    &&& s >= 1
    &&& (2 * s - 1) * (2 * s - 1) < 4 * n
    &&& 4 * n < (2 * s + 1) * (2 * s + 1)
}

/// The integer nearest to the square root of a positive `n`.
pub open spec fn nearest_sqrt(n: int) -> int {
    choose|s: int| is_nearest_sqrt(s, n)
}

impl Binary64 {
    /// Zero, or a full significand; exponents stay far from the ends of `i32`.
    pub open spec fn wf(self) -> bool {
        &&& -100_000 <= self.exp <= 100_000
        &&& self.mant == 0 ==> self.exp == 0
        &&& self.mant != 0 ==> MANT_MIN <= self.mant < MANT_END
    }

    /// The number with the given significand and exponent.
    pub open spec fn of(parts: (int, int)) -> Self {
        Binary64 { mant: parts.0 as u64, exp: parts.1 as i32 }
    }

    /// Significand and exponent as integers.
    pub open spec fn parts(self) -> (int, int) {
        (self.mant as int, self.exp as int)
    }

    /// The product of two numbers, rounded.
    pub open spec fn product(self, other: Self) -> (int, int) {
        nearest((self.mant * other.mant) as nat, self.exp + other.exp)
    }

    /// The quotient of two numbers, the second not zero, rounded. The dividend is
    /// scaled so that the integer quotient fills a significand.
    pub open spec fn quotient(self, other: Self) -> (int, int) {
        if self.mant == 0 {
            (0, 0)
        } else {
            let k: nat = if self.mant < other.mant {
                53
            } else {
                52
            };
            carry(rne(self.mant * pow2(k), other.mant as int), self.exp - other.exp - k)
        }
    }

    /// The sum of two numbers, rounded.
    pub open spec fn sum(self, other: Self) -> (int, int) {
        if self.mant == 0 {
            other.parts()
        } else if other.mant == 0 {
            self.parts()
        } else if self.exp >= other.exp {
            nearest(
                (self.mant * pow2((self.exp - other.exp) as nat) + other.mant) as nat,
                other.exp as int,
            )
        } else {
            nearest(
                (other.mant * pow2((other.exp - self.exp) as nat) + self.mant) as nat,
                self.exp as int,
            )
        }
    }

    /// The power of two by which the significand is scaled before its root is taken,
    /// chosen so that the exponent that remains is even.
    pub open spec fn root_scale(self) -> nat {
        if self.exp % 2 == 0 {
            52
        } else {
            53
        }
    }

    /// The square root of a number that is not zero, rounded.
    pub open spec fn root(self) -> (int, int) {
        (
            nearest_sqrt(self.mant * pow2(self.root_scale())),
            (self.exp - self.root_scale()) / 2,
        )
    }

    /// The number less one, for a number that is at least one, rounded.
    pub open spec fn less_one(self) -> (int, int) {
        if self.exp > 0 {
            nearest((self.mant * pow2(self.exp as nat) - 1) as nat, 0)
        } else {
            nearest((self.mant - pow2((-self.exp) as nat)) as nat, self.exp as int)
        }
    }

    /// The least integer that is not smaller than the number.
    pub open spec fn ceiling(self) -> int {
        if self.exp >= 0 {
            self.mant * pow2(self.exp as nat)
        } else {
            let d = pow2((-self.exp) as nat) as int;
            (self.mant + d - 1) / d
        }
    }

    /// The integer nearest to the number, a half going up.
    pub open spec fn rounded(self) -> int {
        if self.exp >= 0 {
            self.mant * pow2(self.exp as nat)
        } else {
            let d = pow2((-self.exp) as nat) as int;
            (2 * self.mant + d) / (2 * d)
        }
    }
}

proof fn lemma_halvings(x: nat)
    requires
        x >= MANT_END,
    ensures
        MANT_MIN <= x as int / pow2(halvings(x)) as int,
        x as int / (pow2(halvings(x)) as int) < MANT_END,
        halvings(x) >= 1,
    decreases x,
{
    let h = halvings(x);
    if x / 2 < MANT_END {
        assert(halvings(x / 2) == 0);
        assert(h == 1);
        lemma2_to64();
    } else {
        lemma_halvings(x / 2);
        let k = halvings(x / 2);
        assert(h == k + 1);
        lemma_pow2_unfold(h);
        lemma_pow2_pos(k);
        lemma_div_denominator(x as int, 2, pow2(k) as int);
    }
}

proof fn lemma_halvings_unique(x: nat, s: nat)
    requires
        MANT_MIN <= x as int / pow2(s) as int,
        x as int / (pow2(s) as int) < MANT_END,
        x >= MANT_END,
    ensures
        s == halvings(x),
    decreases s,
{
    if s == 0 {
        lemma2_to64();
        assert(x as int / 1 == x);
    } else {
        lemma_pow2_unfold(s);
        lemma_pow2_pos((s - 1) as nat);
        lemma_div_denominator(x as int, 2, pow2((s - 1) as nat) as int);
        if x / 2 < MANT_END {
            if s > 1 {
                lemma_pow2_unfold((s - 1) as nat);
                lemma_pow2_pos((s - 2) as nat);
                lemma_div_denominator(x as int / 2, 2, pow2((s - 2) as nat) as int);
                assert((x as int / 2) / 2 < MANT_MIN);
                lemma_div_nonincreasing((x as int / 2) / 2, pow2((s - 2) as nat) as int);
            }
            assert(halvings(x / 2) == 0);
        } else {
            lemma_halvings_unique(x / 2, (s - 1) as nat);
        }
    }
}

pub proof fn lemma_doublings(x: nat)
    requires
        0 < x < MANT_END,
    ensures
        MANT_MIN <= x * pow2(doublings(x)) < MANT_END,
        doublings(x) <= 52,
    decreases MANT_END - x,
{
    lemma2_to64();
    lemma_doublings_bound(x, 0);
    if x >= MANT_MIN {
        assert(x * pow2(0) == x);
    } else {
        lemma_doublings(2 * x);
        let k = doublings(2 * x);
        lemma_pow2_unfold(k + 1);
        assert(x * (2 * pow2(k)) == 2 * x * pow2(k)) by (nonlinear_arith);
    }
}

/// Doubling `x`, already at least `2^j`, takes at most `52 - j` more steps.
proof fn lemma_doublings_bound(x: nat, j: nat)
    requires
        x >= pow2(j),
        j <= 52,
    ensures
        doublings(x) <= 52 - j,
    decreases 52 - j,
{
    lemma2_to64();
    lemma2_to64_rest();
    if x < MANT_MIN && x > 0 {
        lemma_pow2_unfold(j + 1);
        lemma_doublings_bound(2 * x, j + 1);
    }
}

/// Where a 128-bit number shifted down still overflows a significand, the shift is small.
proof fn lemma_shift_small(x: u128, s: nat)
    requires
        x as int / pow2(s) as int >= MANT_END,
    ensures
        s < 75,
        2 * pow2(s) <= 0x800_0000_0000_0000_0000,
{
    lemma2_to64();
    lemma2_to64_rest();
    lemma_pow2_adds(64, 11);
    lemma_pow2_pos(s);
    let d = pow2(s) as int;
    assert(x >= MANT_END * d) by {
        lemma_fundamental_div_mod(x as int, d);
        assert(d * (x as int / d) >= d * MANT_END) by (nonlinear_arith)
            requires
                d > 0,
                x as int / d >= MANT_END,
        ;
        assert(d * MANT_END == MANT_END * d) by (nonlinear_arith);
    }
    if s > 75 {
        lemma_pow2_strictly_increases(75, s);
    }
    lemma_pow2_unfold(s + 1);
    if s + 1 < 75 {
        lemma_pow2_strictly_increases(s + 1, 75);
    }
}

/// The binary64 number nearest to `x * 2^e`.
fn round_nearest(x: u128, e: i32) -> (r: Binary64)
    requires
        -99_000 <= e <= 99_000,
    ensures
        r.wf(),
        r.parts() == nearest(x as nat, e as int),
        x > 0 ==> r.mant > 0,
        e - 52 <= r.exp <= e + 80 || x == 0,
{
    if x == 0 {
        return Binary64 { mant: 0, exp: 0 };
    }
    if x < MANT_END as u128 {
        let mut m: u128 = x;
        let mut k: i32 = 0;
        let ghost all = doublings(x as nat);
        proof {
            lemma_doublings(x as nat);
            lemma2_to64();
            assert(x * pow2(0) == x);
        }
        while m < MANT_MIN as u128
            invariant
                0 < m < MANT_END,
                0 <= k <= 52,
                all == k + doublings(m as nat),
                m == x * pow2(k as nat),
                all <= 52,
            decreases MANT_END - m,
        {
            proof {
                lemma_pow2_unfold((k + 1) as nat);
                assert(2 * (x * pow2(k as nat)) == x * (2 * pow2(k as nat)))
                    by (nonlinear_arith);
            }
            m = 2 * m;
            k = k + 1;
        }
        assert(doublings(m as nat) == 0);
        return Binary64 { mant: m as u64, exp: e - k };
    }
    let mut d: u128 = 1;
    let mut s: i32 = 0;
    proof {
        lemma2_to64();
        assert(x as int / 1 == x);
    }
    while x / d >= MANT_END as u128
        invariant
            d == pow2(s as nat),
            d > 0,
            0 <= s <= 75,
            d <= 0x800_0000_0000_0000_0000u128,
            x as int / d as int >= MANT_MIN,
            x >= MANT_END,
        decreases 76 - s,
    {
        proof {
            lemma_pow2_unfold((s + 1) as nat);
            lemma_div_denominator(x as int, d as int, 2);
            lemma_shift_small(x, s as nat);
        }
        d = 2 * d;
        s = s + 1;
    }
    proof {
        lemma_halvings_unique(x as nat, s as nat);
    }
    let q: u128 = x / d;
    let rem: u128 = x % d;
    let up: bool = 2 * rem > d || (2 * rem == d && q % 2 == 1);
    let m: u128 = if up {
        q + 1
    } else {
        q
    };
    if m == MANT_END as u128 {
        Binary64 { mant: MANT_MIN, exp: e + s + 1 }
    } else {
        Binary64 { mant: m as u64, exp: e + s }
    }
}

proof fn lemma_div_between(n: int, d: int, lo: int, hi: int)
    requires
        d > 0,
        lo * d <= n < hi * d,
    ensures
        lo <= n / d < hi,
{
    lemma_fundamental_div_mod(n, d);
    let q = n / d;
    assert(lo <= q) by (nonlinear_arith)
        requires
            d > 0,
            lo * d <= n,
            n == d * q + n % d,
            n % d < d,
    ;
    assert(q < hi) by (nonlinear_arith)
        requires
            d > 0,
            n < hi * d,
            n == d * q + n % d,
            0 <= n % d,
    ;
}

/// No two integers are nearest to the same square root.
pub proof fn lemma_nearest_sqrt_unique(s: int, t: int, n: int)
    requires
        is_nearest_sqrt(s, n),
        is_nearest_sqrt(t, n),
    ensures
        s == t,
{
    if s < t {
        assert((2 * s + 1) * (2 * s + 1) <= (2 * t - 1) * (2 * t - 1)) by (nonlinear_arith)
            requires
                1 <= s < t,
        ;
    } else if t < s {
        assert((2 * t + 1) * (2 * t + 1) <= (2 * s - 1) * (2 * s - 1)) by (nonlinear_arith)
            requires
                1 <= t < s,
        ;
    }
}

/// A small power of two.
fn power_of_two(k: u32) -> (r: u128)
    requires
        k <= 75,
    ensures
        r == pow2(k as nat),
        0 < r <= 0x800_0000_0000_0000_0000,
{
    let mut r: u128 = 1;
    let mut i: u32 = 0;
    proof {
        lemma2_to64();
        lemma2_to64_rest();
        lemma_pow2_adds(64, 11);
        if k < 75 {
            lemma_pow2_strictly_increases(k as nat, 75);
        }
    }
    while i < k
        invariant
            i <= k <= 75,
            r == pow2(i as nat),
            pow2(k as nat) <= 0x800_0000_0000_0000_0000,
        decreases k - i,
    {
        proof {
            lemma_pow2_unfold((i + 1) as nat);
            if i + 1 < k {
                lemma_pow2_strictly_increases((i + 1) as nat, k as nat);
            }
        }
        r = 2 * r;
        i = i + 1;
    }
    proof {
        lemma_pow2_pos(k as nat);
    }
    r
}

/// A number far below the last place of another leaves it unchanged when added.
proof fn lemma_far_sum(hi: Binary64, lo: Binary64)
    requires
        hi.wf(),
        lo.wf(),
        hi.mant > 0,
        lo.mant > 0,
        hi.exp - lo.exp >= 55,
    ensures
        nearest(
            (hi.mant * pow2((hi.exp - lo.exp) as nat) + lo.mant) as nat,
            lo.exp as int,
        ) == hi.parts(),
{
    let k = (hi.exp - lo.exp) as nat;
    lemma2_to64_rest();
    if k > 55 {
        lemma_pow2_strictly_increases(55, k);
    }
    let d = pow2(k) as int;
    let x = hi.mant * d + lo.mant;
    assert(d >= 0x80_0000_0000_0000);
    assert(x >= MANT_END) by (nonlinear_arith)
        requires
            hi.mant >= MANT_MIN,
            d >= 0x80_0000_0000_0000,
            x == hi.mant * d + lo.mant,
            lo.mant >= 0,
    ;
    lemma_fundamental_div_mod_converse(x, d, hi.mant as int, lo.mant as int);
    lemma_halvings_unique(x as nat, k);
}

/// Where all numbers are integers, taking one away changes a number only next to the end of
/// that range.
proof fn lemma_integer_less_one(x: Binary64)
    requires
        x.wf(),
        x.mant > 0,
        x.exp > 0,
    ensures
        x.less_one() == if x.exp == 1 && x.mant == MANT_MIN {
            (MANT_END - 1, 0int)
        } else if x.exp == 1 && x.mant % 2 == 1 {
            (x.mant - 1, 1int)
        } else {
            x.parts()
        },
{
    let e = x.exp as nat;
    let m = x.mant as int;
    let d = pow2(e) as int;
    let n = m * d - 1;
    lemma2_to64();
    lemma_pow2_pos((e - 1) as nat);
    lemma_pow2_unfold(e);
    let half = pow2((e - 1) as nat) as int;
    assert(d == 2 * half);
    if e >= 2 {
        lemma_pow2_unfold((e - 1) as nat);
        lemma_pow2_pos((e - 2) as nat);
    }
    if m > MANT_MIN {
        assert(n == (m - 1) * d + (d - 1)) by (nonlinear_arith)
            requires
                n == m * d - 1,
        ;
        lemma_fundamental_div_mod_converse(n, d, m - 1, d - 1);
        assert(n >= MANT_END) by (nonlinear_arith)
            requires
                n == m * d - 1,
                m >= MANT_MIN + 1,
                d >= 2,
        ;
        lemma_halvings_unique(n as nat, e);
    } else {
        assert(m * d == MANT_END * half) by (nonlinear_arith)
            requires
                m == MANT_MIN,
                d == 2 * half,
                MANT_END == 2 * MANT_MIN,
        ;
        if e == 1 {
            assert(n == MANT_END - 1);
            assert(doublings(n as nat) == 0);
            assert(n * pow2(0) == n);
        } else {
            assert(n == (MANT_END - 1) * half + (half - 1)) by (nonlinear_arith)
                requires
                    n == MANT_END * half - 1,
            ;
            lemma_fundamental_div_mod_converse(n, half, MANT_END - 1, half - 1);
            assert(n >= MANT_END) by (nonlinear_arith)
                requires
                    n == MANT_END * half - 1,
                    half >= 2,
                    MANT_END > 1,
            ;
            lemma_halvings_unique(n as nat, (e - 1) as nat);
        }
    }
}

impl Binary64 {
    /// The number whose IEEE 754 encoding is `bits`, unless the encoding is of a
    /// negative number, an infinity or a NaN.
    pub fn from_bits(bits: u64) -> (r: Option<Self>)
        ensures
            r is Some <==> bits < 0x7ff0_0000_0000_0000,
            r matches Some(v) ==> v.wf() && v.parts() == (if bits < MANT_MIN {
                nearest(bits as nat, -1074)
            } else {
                ((MANT_MIN + bits % MANT_MIN) as int, bits / MANT_MIN - 1075)
            }),
    {
        if bits >= 0x7ff0_0000_0000_0000 {
            return None;
        }
        if bits < MANT_MIN {
            return Some(round_nearest(bits as u128, -1074));
        }
        let field: u64 = bits / MANT_MIN;
        Some(Binary64 { mant: MANT_MIN + bits % MANT_MIN, exp: field as i32 - 1075 })
    }

    /// The number nearest to an integer.
    pub fn from_u64(n: u64) -> (r: Self)
        ensures
            r.wf(),
            r.parts() == nearest(n as nat, 0),
            n > 0 ==> r.mant > 0,
            -52 <= r.exp <= 80,
    {
        round_nearest(n as u128, 0)
    }

    /// A fraction in units of `2^-52`.
    pub fn from_ratio_52(n: u64) -> (r: Self)
        ensures
            r.wf(),
            r.parts() == nearest(n as nat, -52),
            n > 0 ==> r.mant > 0,
            n > 0 ==> -104 <= r.exp <= 28,
    {
        round_nearest(n as u128, -52)
    }

    /// One.
    pub fn one() -> (r: Self)
        ensures
            r.wf(),
            r.parts() == (MANT_MIN as int, -52int),
    {
        Binary64 { mant: MANT_MIN, exp: -52 }
    }

    /// The product, rounded.
    pub fn times(self, other: Self) -> (r: Self)
        requires
            self.wf(),
            other.wf(),
            -90_000 <= self.exp + other.exp <= 90_000,
        ensures
            r.wf(),
            r.parts() == self.product(other),
            self.mant > 0 && other.mant > 0 ==> r.mant > 0,
            self.exp + other.exp - 52 <= r.exp <= self.exp + other.exp + 80 || r.mant == 0,
    {
        let a: u128 = self.mant as u128;
        let b: u128 = other.mant as u128;
        assert(0 <= a * b < MANT_END * MANT_END) by (nonlinear_arith)
            requires
                0 <= a < MANT_END,
                0 <= b < MANT_END,
        ;
        assert(a > 0 && b > 0 ==> a * b > 0) by (nonlinear_arith);
        round_nearest(a * b, self.exp + other.exp)
    }

    /// The quotient, rounded.
    pub fn over(self, other: Self) -> (r: Self)
        requires
            self.wf(),
            other.wf(),
            other.mant > 0,
            -90_000 <= self.exp - other.exp <= 90_000,
        ensures
            r.wf(),
            r.parts() == self.quotient(other),
            self.mant > 0 ==> r.mant > 0,
            self.exp - other.exp - 53 <= r.exp <= self.exp - other.exp - 51 || r.mant == 0,
    {
        if self.mant == 0 {
            return Binary64 { mant: 0, exp: 0 };
        }
        let k: i32 = if self.mant < other.mant {
            53
        } else {
            52
        };
        proof {
            lemma2_to64_rest();
        }
        let n: u128 = if self.mant < other.mant {
            self.mant as u128 * 0x20_0000_0000_0000
        } else {
            self.mant as u128 * 0x10_0000_0000_0000
        };
        let d: u128 = other.mant as u128;
        let q: u128 = n / d;
        let rem: u128 = n % d;
        proof {
            lemma_div_between(n as int, d as int, MANT_MIN as int, MANT_END as int);
        }
        let up: bool = 2 * rem > d || (2 * rem == d && q % 2 == 1);
        let m: u128 = if up {
            q + 1
        } else {
            q
        };
        if m == MANT_END as u128 {
            Binary64 { mant: MANT_MIN, exp: self.exp - other.exp - k + 1 }
        } else {
            Binary64 { mant: m as u64, exp: self.exp - other.exp - k }
        }
    }

    /// The sum, rounded.
    pub fn plus(self, other: Self) -> (r: Self)
        requires
            self.wf(),
            other.wf(),
            -90_000 <= self.exp <= 90_000,
            -90_000 <= other.exp <= 90_000,
        ensures
            r.wf(),
            r.parts() == self.sum(other),
            self.mant > 0 || other.mant > 0 ==> r.mant > 0,
            self.exp - 52 <= r.exp || other.exp - 52 <= r.exp,
            r.exp <= self.exp + 80 || r.exp <= other.exp + 80,
    {
        if self.mant == 0 {
            return other;
        }
        if other.mant == 0 {
            return self;
        }
        let (hi, lo): (Self, Self) = if self.exp >= other.exp {
            (self, other)
        } else {
            (other, self)
        };
        let gap: i32 = hi.exp - lo.exp;
        if gap >= 60 {
            proof {
                lemma_far_sum(hi, lo);
            }
            return hi;
        }
        let d: u128 = power_of_two(gap as u32);
        proof {
            lemma2_to64_rest();
            lemma_pow2_strictly_increases(gap as nat, 60);
            assert(0 <= hi.mant * d <= MANT_END * 0x1000_0000_0000_0000) by (nonlinear_arith)
                requires
                    0 <= hi.mant < MANT_END,
                    0 <= d <= 0x1000_0000_0000_0000,
            ;
        }
        round_nearest(hi.mant as u128 * d + lo.mant as u128, lo.exp)
    }

    /// The square root, rounded.
    pub fn sqrt(self) -> (r: Self)
        requires
            self.wf(),
            self.mant > 0,
            -90_000 <= self.exp <= 90_000,
        ensures
            r.wf(),
            r.parts() == self.root(),
            r.mant > 0,
            2 * r.exp >= self.exp - 53,
            2 * r.exp <= self.exp - 52,
    {
        proof {
            lemma2_to64_rest();
        }
        let even: bool = (self.exp + 200_000) % 2 == 0;
        let n: u128 = if even {
            self.mant as u128 * 0x10_0000_0000_0000
        } else {
            self.mant as u128 * 0x20_0000_0000_0000
        };
        let mut lo: u128 = 0x10_0000_0000_0000;
        let mut hi: u128 = 0x20_0000_0000_0000;
        while hi - lo > 1
            invariant
                MANT_MIN <= lo < hi <= MANT_END,
                lo * lo <= n,
                n < hi * hi,
            decreases hi - lo,
        {
            let mid: u128 = lo + (hi - lo) / 2;
            assert(0 <= mid * mid <= MANT_END * MANT_END) by (nonlinear_arith)
                requires
                    0 <= mid <= MANT_END,
            ;
            if mid * mid <= n {
                lo = mid;
            } else {
                hi = mid;
            }
        }
        assert(0 <= lo * lo <= MANT_END * MANT_END) by (nonlinear_arith)
            requires
                0 <= lo <= MANT_END,
        ;
        let s: u128 = if n - lo * lo > lo {
            lo + 1
        } else {
            lo
        };
        proof {
            assert((lo + 1) * (lo + 1) == lo * lo + 2 * lo + 1) by (nonlinear_arith);
            assert((2 * s - 1) * (2 * s - 1) == 4 * (s * s) - 4 * s + 1) by (nonlinear_arith);
            assert((2 * s + 1) * (2 * s + 1) == 4 * (s * s) + 4 * s + 1) by (nonlinear_arith);
            assert(is_nearest_sqrt(s as int, n as int));
            assert(s != MANT_END);
            lemma_nearest_sqrt_unique(s as int, nearest_sqrt(n as int), n as int);
        }
        let shifted: i32 = if even {
            self.exp + 200_000 - 52
        } else {
            self.exp + 200_000 - 53
        };
        Binary64 { mant: s as u64, exp: shifted / 2 - 100_000 }
    }

    /// The number less one.
    pub fn minus_one(self) -> (r: Self)
        requires
            self.wf(),
            -60 <= self.exp,
            self.exp <= 0 ==> self.mant >= pow2((-self.exp) as nat),
            self.mant > 0,
        ensures
            r.wf(),
            r.parts() == self.less_one(),
            self.exp - 52 <= r.exp <= self.exp + 80 || r.mant == 0,
            self.exp > 0 || self.mant > pow2((-self.exp) as nat) ==> r.mant > 0,
    {
        if self.exp > 0 {
            proof {
                lemma_integer_less_one(self);
            }
            return if self.exp == 1 && self.mant == MANT_MIN {
                Binary64 { mant: MANT_END - 1, exp: 0 }
            } else if self.exp == 1 && self.mant % 2 == 1 {
                Binary64 { mant: self.mant - 1, exp: 1 }
            } else {
                self
            };
        }
        let d: u128 = power_of_two((-self.exp) as u32);
        round_nearest(self.mant as u128 - d, self.exp)
    }

    /// The least integer that is not smaller than the number, or the largest `usize`
    /// where that integer is larger still.
    pub fn ceil_usize(self) -> (r: usize)
        requires
            self.wf(),
        ensures
            self.ceiling() <= usize::MAX ==> r == self.ceiling(),
            self.ceiling() > usize::MAX ==> r == usize::MAX,
    {
        if self.exp >= 0 {
            return self.integer_usize();
        }
        if self.exp <= -64 {
            proof {
                lemma_wide_shift((-self.exp) as nat);
                let d = pow2((-self.exp) as nat) as int;
                if self.mant == 0 {
                    lemma_div_between(d - 1, d, 0, 1);
                } else {
                    lemma_div_between(self.mant + d - 1, d, 1, 2);
                }
            }
            return if self.mant == 0 {
                0
            } else {
                1
            };
        }
        let d: u128 = power_of_two((-self.exp) as u32);
        let v: u128 = (self.mant as u128 + d - 1) / d;
        if v > usize::MAX as u128 {
            usize::MAX
        } else {
            v as usize
        }
    }

    /// The integer nearest to the number, a half going up, or the largest `usize`
    /// where that integer is larger still.
    pub fn round_usize(self) -> (r: usize)
        requires
            self.wf(),
        ensures
            self.rounded() <= usize::MAX ==> r == self.rounded(),
            self.rounded() > usize::MAX ==> r == usize::MAX,
    {
        if self.exp >= 0 {
            return self.integer_usize();
        }
        if self.exp <= -64 {
            proof {
                lemma_wide_shift((-self.exp) as nat);
                let d = pow2((-self.exp) as nat) as int;
                lemma_div_between(2 * self.mant + d, 2 * d, 0, 1);
            }
            return 0;
        }
        let d: u128 = power_of_two((-self.exp) as u32);
        let v: u128 = (2 * self.mant as u128 + d) / (2 * d);
        if v > usize::MAX as u128 {
            usize::MAX
        } else {
            v as usize
        }
    }

    /// The value of a number that is an integer, or the largest `usize`.
    fn integer_usize(self) -> (r: usize)
        requires
            self.wf(),
            self.exp >= 0,
        ensures
            self.mant * pow2(self.exp as nat) <= usize::MAX ==> r == self.mant * pow2(
                self.exp as nat,
            ),
            self.mant * pow2(self.exp as nat) > usize::MAX ==> r == usize::MAX,
    {
        if self.mant == 0 {
            return 0;
        }
        if self.exp >= 64 {
            proof {
                lemma_wide_shift(self.exp as nat);
                let d = pow2(self.exp as nat);
                assert(self.mant * d > usize::MAX) by (nonlinear_arith)
                    requires
                        self.mant >= MANT_MIN,
                        d >= 0x1_0000_0000_0000_0000,
                ;
            }
            return usize::MAX;
        }
        let d: u128 = power_of_two(self.exp as u32);
        proof {
            lemma2_to64();
            lemma_pow2_strictly_increases(self.exp as nat, 64);
            assert(0 <= self.mant * d <= MANT_END * 0x1_0000_0000_0000_0000) by (nonlinear_arith)
                requires
                    0 <= self.mant < MANT_END,
                    0 <= d <= 0x1_0000_0000_0000_0000,
            ;
        }
        let v: u128 = self.mant as u128 * d;
        if v > usize::MAX as u128 {
            usize::MAX
        } else {
            v as usize
        }
    }
}

proof fn lemma_wide_shift(k: nat)
    requires
        k >= 64,
    ensures
        pow2(k) >= 0x1_0000_0000_0000_0000,
{
    lemma2_to64();
    if k > 64 {
        lemma_pow2_strictly_increases(64, k);
    }
}

/// A double-precision number as its IEEE 754 encoding. It may be negative, infinite or no
/// number at all.
#[derive(Clone, Copy, Debug, PartialEq, Eq, Structural)]
pub struct Double {
    pub bits: u64,
}

/// Significand and exponent of the number that `bits` encodes, below the encoding of infinity.
pub open spec fn decoded(bits: u64) -> (int, int) {
    if bits < MANT_MIN {
        nearest(bits as nat, -1074)
    } else {
        ((MANT_MIN + bits % MANT_MIN) as int, bits / MANT_MIN - 1075)
    }
}

impl Double {
    /// The encoding, where the two zeros share theirs.
    pub open spec fn key(self) -> u64 {
        if self.bits == 0x8000_0000_0000_0000 {
            0
        } else {
            self.bits
        }
    }

    /// From zero up to one. Encodings of numbers that are not negative are ordered as the
    /// numbers are.
    pub open spec fn unit(self) -> bool {
        self.key() <= 0x3ff0_0000_0000_0000
    }

    /// Above zero; infinity is.
    pub open spec fn positive(self) -> bool {
        0 < self.bits <= 0x7ff0_0000_0000_0000
    }

    /// The encoding without the sign.
    pub open spec fn unsigned(self) -> u64 {
        self.bits % 0x8000_0000_0000_0000
    }

    /// Whether the sign is set.
    pub open spec fn negative(self) -> bool {
        self.bits >= 0x8000_0000_0000_0000
    }

    /// Neither an infinity nor no number at all.
    pub open spec fn finite(self) -> bool {
        self.unsigned() < 0x7ff0_0000_0000_0000
    }

    /// The number without its sign, when it is finite.
    pub open spec fn magnitude(self) -> Binary64 {
        Binary64::of(decoded(self.unsigned()))
    }

    fn exec_key(&self) -> (k: u64)
        ensures
            k == self.key(),
    {
        if self.bits == 0x8000_0000_0000_0000 {
            0
        } else {
            self.bits
        }
    }

    /// Whether the number lies between zero and one.
    pub fn in_unit_interval(&self) -> (r: bool)
        ensures
            r == self.unit(),
    {
        self.exec_key() <= 0x3ff0_0000_0000_0000
    }

    /// Whether the number is above zero.
    pub fn is_positive(&self) -> (r: bool)
        ensures
            r == self.positive(),
    {
        0 < self.bits && self.bits <= 0x7ff0_0000_0000_0000
    }

    /// Whether a number between zero and one is at least another.
    pub fn at_least(&self, other: &Double) -> (r: bool)
        ensures
            r == (self.key() >= other.key()),
    {
        self.exec_key() >= other.exec_key()
    }

    /// Whether the number is finite.
    pub fn is_finite(&self) -> (r: bool)
        ensures
            r == self.finite(),
    {
        self.bits % 0x8000_0000_0000_0000 < 0x7ff0_0000_0000_0000
    }

    /// Whether the sign is set.
    pub fn is_negative(&self) -> (r: bool)
        ensures
            r == self.negative(),
    {
        self.bits >= 0x8000_0000_0000_0000
    }

    /// The number without its sign.
    pub fn number(&self) -> (r: Binary64)
        requires
            self.finite(),
        ensures
            r == self.magnitude(),
            r.wf(),
            -1200 <= r.exp <= 1200,
            self.unsigned() > 0 ==> r.mant > 0,
            self.unsigned() > 0x3ff0_0000_0000_0000 ==> r.exp > 0 || (r.exp >= -52 && r.mant
                > pow2((-r.exp) as nat)),
    {
        let k: u64 = self.bits % 0x8000_0000_0000_0000;
        if k == 0 {
            return Binary64 { mant: 0, exp: 0 };
        }
        proof {
            if k < MANT_MIN {
                lemma_doublings(k as nat);
            }
            lemma_above_one(k);
        }
        match Binary64::from_bits(k) {
            Some(v) => v,
            None => Binary64 { mant: 0, exp: 0 },
        }
    }
}

/// Encodings past that of one are of numbers above one.
proof fn lemma_above_one(k: u64)
    requires
        k < 0x7ff0_0000_0000_0000,
    ensures
        k > 0x3ff0_0000_0000_0000 ==> {
            let (m, e) = decoded(k);
            e > 0 || (e >= -52 && m > pow2((-e) as nat))
        },
{
    if k > 0x3ff0_0000_0000_0000 {
        let (m, e) = decoded(k);
        assert(k / MANT_MIN >= 0x3ff);
        lemma2_to64_rest();
        if e == -52 {
            assert(k / MANT_MIN == 0x3ff);
        } else if e <= 0 {
            lemma_pow2_strictly_increases((-e) as nat, 52);
        }
    }
}

/// The distance between two integers.
pub open spec fn apart(a: int, b: int) -> int {
    if a < b {
        b - a
    } else {
        a - b
    }
}

/// Rounding a fraction gives the integer nearest to it: it is off by no more than a half, and
/// where two integers are equally near it is even.
pub proof fn lemma_rne_nearest(n: int, d: int)
    requires
        n >= 0,
        d > 0,
    ensures
        2 * apart(n, rne(n, d) * d) <= d,
        2 * apart(n, rne(n, d) * d) == d ==> rne(n, d) % 2 == 0,
{
    lemma_fundamental_div_mod(n, d);
    let (q, r) = (n / d, n % d);
    assert(n == q * d + r) by (nonlinear_arith)
        requires
            n == d * q + r,
    ;
    assert((q + 1) * d == q * d + d) by (nonlinear_arith);
}

/// The number nearest to an integer has a full significand. It is exact for integers that fit a
/// significand, and for all others off by no more than half a unit of its last place.
pub proof fn lemma_nearest(x: nat, e: int)
    requires
        x > 0,
    ensures
        ({
            let (m, f) = nearest(x, e);
            &&& MANT_MIN <= m < MANT_END
            &&& x < MANT_END ==> f <= e && m == x * pow2((e - f) as nat)
            &&& x >= MANT_END ==> f > e && 2 * apart(x as int, m * pow2((f - e) as nat)) <= pow2(
                (f - e) as nat,
            )
        }),
{
    if x < MANT_END {
        lemma_doublings(x);
    } else {
        lemma_halvings(x);
        let h = halvings(x);
        lemma_pow2_pos(h);
        let d = pow2(h) as int;
        lemma_rne_nearest(x as int, d);
        let q = rne(x as int, d);
        if q == MANT_END {
            lemma_pow2_unfold(h + 1);
            assert(MANT_MIN * (2 * d) == MANT_END * d) by (nonlinear_arith)
                requires
                    MANT_END == 2 * MANT_MIN,
            ;
        }
    }
}

/// The quotient of two numbers is the number nearest to it: multiplied by the divisor it is off
/// from the dividend by no more than half the divisor, counted in units of its last place.
pub proof fn lemma_quotient_nearest(a: Binary64, b: Binary64)
    requires
        a.wf(),
        b.wf(),
        a.mant > 0,
        b.mant > 0,
    ensures
        ({
            let (m, f) = a.quotient(b);
            let s = a.exp - b.exp - f;
            &&& MANT_MIN <= m < MANT_END
            &&& s > 0
            &&& 2 * apart(a.mant * pow2(s as nat), m * b.mant) <= b.mant
        }),
{
    lemma2_to64_rest();
    let k: nat = if a.mant < b.mant {
        53
    } else {
        52
    };
    let n = a.mant * pow2(k);
    let d = b.mant as int;
    assert(n > 0) by (nonlinear_arith)
        requires
            a.mant > 0,
            pow2(k) > 0,
            n == a.mant * pow2(k),
    ;
    lemma_rne_nearest(n, d);
    assert(MANT_MIN * d <= n < MANT_END * d) by (nonlinear_arith)
        requires
            n == a.mant * pow2(k),
            d == b.mant,
            MANT_MIN <= a.mant < MANT_END,
            MANT_MIN <= b.mant < MANT_END,
            MANT_END == 2 * MANT_MIN,
            a.mant < b.mant ==> pow2(k) == MANT_END,
            a.mant >= b.mant ==> pow2(k) == MANT_MIN,
    ;
    lemma_div_between(n, d, MANT_MIN as int, MANT_END as int);
    let q = rne(n, d);
    if q == MANT_END {
        lemma_pow2_unfold(k);
        assert(n == 2 * (a.mant * pow2((k - 1) as nat))) by (nonlinear_arith)
            requires
                n == a.mant * pow2(k),
                pow2(k) == 2 * pow2((k - 1) as nat),
        ;
        assert(MANT_END * d == 2 * (MANT_MIN * d)) by (nonlinear_arith)
            requires
                MANT_END == 2 * MANT_MIN,
        ;
    }
}

/// The ceiling of a number is the least integer that is not below it, and the rounded number is
/// off by no more than a half. Both give whole numbers back.
pub proof fn lemma_to_integers(x: Binary64)
    ensures
        x.exp >= 0 ==> x.ceiling() == x.mant * pow2(x.exp as nat) && x.rounded() == x.mant * pow2(
            x.exp as nat,
        ),
        x.exp < 0 ==> {
            let d = pow2((-x.exp) as nat) as int;
            &&& (x.ceiling() - 1) * d < x.mant <= x.ceiling() * d
            &&& 2 * apart(x.mant as int, x.rounded() * d) <= d
        },
{
    if x.exp < 0 {
        lemma_pow2_pos((-x.exp) as nat);
        let d = pow2((-x.exp) as nat) as int;
        let m = x.mant as int;
        lemma_fundamental_div_mod(m + d - 1, d);
        let c = x.ceiling();
        assert((c - 1) * d < m <= c * d) by (nonlinear_arith)
            requires
                m + d - 1 == d * c + (m + d - 1) % d,
                0 <= (m + d - 1) % d < d,
        ;
        lemma_fundamental_div_mod(2 * m + d, 2 * d);
        let r = x.rounded();
        assert(2 * m - d <= 2 * (r * d) <= 2 * m + d) by (nonlinear_arith)
            requires
                2 * m + d == (2 * d) * r + (2 * m + d) % (2 * d),
                0 <= (2 * m + d) % (2 * d) < 2 * d,
        ;
    }
}

/// How far rounding can move an exponent.
pub proof fn lemma_nearest_range(x: nat, e: int)
    requires
        x <= u128::MAX,
    ensures
        ({
            let (m, f) = nearest(x, e);
            &&& x == 0 ==> (m, f) == (0int, 0int)
            &&& x > 0 ==> MANT_MIN <= m < MANT_END && e - 52 <= f <= e + 80
        }),
{
    if x > 0 {
        lemma_nearest(x, e);
        if x < MANT_END {
            lemma_doublings(x);
        } else {
            lemma_halvings(x);
            let h = halvings(x);
            if h > 76 {
                lemma_pow2_strictly_increases(76, h);
                lemma_pow2_adds(64, 12);
                lemma2_to64();
                lemma2_to64_rest();
                let d = pow2(h) as int;
                lemma_fundamental_div_mod(x as int, d);
                assert(x >= d * MANT_MIN) by (nonlinear_arith)
                    requires
                        x == d * (x as int / d) + x as int % d,
                        x as int % d >= 0,
                        x as int / d >= MANT_MIN,
                        d > 0,
                ;
                assert(d * MANT_MIN > u128::MAX) by (nonlinear_arith)
                    requires
                        d >= 0x1000_0000_0000_0000_0000,
                        MANT_MIN == 0x10_0000_0000_0000,
                ;
            }
        }
    }
}

/// Rounding twice as much gives the double: doubling a number moves its exponent alone.
pub proof fn lemma_nearest_double(x: nat, e: int)
    requires
        x > 0,
    ensures
        nearest(2 * x, e) == (nearest(x, e).0, nearest(x, e).1 + 1),
        nearest(x, e + 1) == (nearest(x, e).0, nearest(x, e).1 + 1),
{
    lemma2_to64();
    if x < MANT_MIN {
        let k = doublings(2 * x);
        assert(doublings(x) == 1 + k);
        lemma_pow2_unfold(k + 1);
        assert(x * (2 * pow2(k)) == 2 * x * pow2(k)) by (nonlinear_arith);
    } else if x < MANT_END {
        assert(doublings(x) == 0);
        assert(x * pow2(0) == x);
        assert(halvings((2 * x) / 2) == 0);
        assert(halvings(2 * x) == 1);
        assert(rne((2 * x) as int, 2) == x);
    } else {
        let h = halvings(x);
        assert((2 * x) / 2 == x);
        assert(halvings(2 * x) == 1 + h);
        lemma_pow2_unfold(h + 1);
        lemma_pow2_pos(h);
        let (n, d) = (x as int, pow2(h) as int);
        let (q, r) = (n / d, n % d);
        lemma_fundamental_div_mod(n, d);
        assert(2 * n == q * (2 * d) + 2 * r) by (nonlinear_arith)
            requires
                n == d * q + r,
        ;
        lemma_fundamental_div_mod_converse(2 * n, 2 * d, q, 2 * r);
        assert(rne(2 * n, 2 * d) == rne(n, d));
    }
}

/// The ceiling of the double is twice the ceiling, or one less.
pub proof fn lemma_ceiling_double(x: Binary64, y: Binary64)
    requires
        y.mant == x.mant,
        y.exp == x.exp + 1,
    ensures
        2 * x.ceiling() - 1 <= y.ceiling() <= 2 * x.ceiling(),
{
    lemma_to_integers(x);
    lemma_to_integers(y);
    if x.exp >= 0 {
        lemma_pow2_unfold(y.exp as nat);
        assert(x.mant * (2 * pow2(x.exp as nat)) == 2 * (x.mant * pow2(x.exp as nat)))
            by (nonlinear_arith);
    } else {
        let (a, b, m) = (x.ceiling(), y.ceiling(), x.mant as int);
        let d = pow2((-x.exp) as nat) as int;
        lemma_pow2_unfold((-x.exp) as nat);
        let half = pow2((-x.exp - 1) as nat) as int;
        lemma_pow2_pos((-x.exp - 1) as nat);
        if x.exp == -1 {
            lemma2_to64();
            assert(half == 1);
            assert(y.ceiling() == m * 1);
            assert((b - 1) * half < m <= b * half);
        }
        assert((b - 1) * half < m <= b * half);
        assert(2 * a - 1 <= b <= 2 * a) by (nonlinear_arith)
            requires
                (a - 1) * (2 * half) < m <= a * (2 * half),
                (b - 1) * half < m <= b * half,
                half > 0,
        ;
    }
}

/// The ceiling of a number above zero is at least one.
pub proof fn lemma_ceiling_positive(x: Binary64)
    requires
        x.mant > 0,
    ensures
        x.ceiling() >= 1,
{
    lemma_to_integers(x);
    if x.exp >= 0 {
        lemma_pow2_pos(x.exp as nat);
        assert(x.mant * pow2(x.exp as nat) >= 1) by (nonlinear_arith)
            requires
                x.mant >= 1,
                pow2(x.exp as nat) >= 1,
        ;
    } else {
        lemma_pow2_pos((-x.exp) as nat);
        let (c, d, m) = (x.ceiling(), pow2((-x.exp) as nat) as int, x.mant as int);
        assert(c >= 1) by (nonlinear_arith)
            requires
                m >= 1,
                m <= c * d,
                d > 0,
        ;
    }
}

/// From zero up to one are the two zeros and, of the numbers without a sign, those whose value
/// is at most one; of the others none is. Positive are infinity and all that are above zero.
pub proof fn lemma_ranges(d: Double)
    ensures
        d.negative() ==> (d.unit() <==> d.unsigned() == 0) && !d.positive(),
        !d.negative() && !d.finite() ==> !d.unit() && (d.positive() <==> d.bits
            == 0x7ff0_0000_0000_0000),
        !d.negative() && d.finite() ==> {
            let (m, e) = decoded(d.bits);
            &&& d.positive() <==> m > 0
            &&& d.unit() <==> m == 0 || e < -52 || (e == -52 && m == MANT_MIN)
        },
{
    let b = d.bits;
    if !d.negative() && d.finite() {
        if b < MANT_MIN {
            lemma_nearest_range(b as nat, -1074);
            if b > 0 {
                lemma_nearest(b as nat, -1074);
            }
        }
    }
}

/// The encodings of two numbers without a sign compare as the numbers do.
pub proof fn lemma_order(a: Double, b: Double)
    requires
        !a.negative() && a.finite() && a.bits >= MANT_MIN,
        !b.negative() && b.finite() && b.bits >= MANT_MIN,
    ensures
        ({
            let ((m, e), (n, f)) = (decoded(a.bits), decoded(b.bits));
            a.key() <= b.key() <==> e < f || (e == f && m <= n)
        }),
{
}

/// The product of two numbers is the number nearest to it: off by no more than half a unit of
/// its last place. It does not depend on the order.
pub proof fn lemma_product_nearest(a: Binary64, b: Binary64)
    requires
        a.wf(),
        b.wf(),
        a.mant > 0,
        b.mant > 0,
    ensures
        ({
            let (m, f) = a.product(b);
            let s = f - a.exp - b.exp;
            &&& MANT_MIN <= m < MANT_END
            &&& s > 0
            &&& 2 * apart(a.mant * b.mant, m * pow2(s as nat)) <= pow2(s as nat)
        }),
        a.product(b) == b.product(a),
{
    let x = a.mant * b.mant;
    assert(x >= MANT_END) by (nonlinear_arith)
        requires
            a.mant >= MANT_MIN,
            b.mant >= MANT_MIN,
            MANT_MIN == 0x10_0000_0000_0000,
            MANT_END == 0x20_0000_0000_0000,
            x == a.mant * b.mant,
    ;
    assert(a.mant * b.mant == b.mant * a.mant) by (nonlinear_arith);
    lemma_nearest(x as nat, a.exp + b.exp);
}

/// The sum of two numbers does not depend on the order, zero adds nothing, and of two numbers
/// with the same exponent it is off by no more than half a unit of its last place.
pub proof fn lemma_sum_nearest(a: Binary64, b: Binary64)
    requires
        a.wf(),
        b.wf(),
    ensures
        a.sum(b) == b.sum(a),
        b.mant == 0 ==> a.sum(b) == a.parts(),
        a.mant > 0 && b.mant > 0 && a.exp == b.exp ==> {
            let (m, f) = a.sum(b);
            &&& f == a.exp + 1
            &&& 2 * apart(a.mant + b.mant, 2 * m) <= 2
        },
{
    lemma2_to64();
    if a.mant > 0 && b.mant > 0 && a.exp == b.exp {
        let x = (a.mant + b.mant) as nat;
        assert(a.mant * pow2(0) == a.mant && b.mant * pow2(0) == b.mant);
        lemma_nearest(x, a.exp as int);
        assert(x / 2 < MANT_END);
        assert(halvings(x / 2) == 0);
        assert(halvings(x) == 1);
        let q = rne(x as int, 2);
        lemma_rne_nearest(x as int, 2);
        assert(q <= MANT_END - 1);
    }
}

/// The square root of a number is the number nearest to it: no half unit of its last place
/// lies between them.
pub proof fn lemma_root_nearest(x: Binary64, s: int)
    requires
        x.wf(),
        x.mant > 0,
        is_nearest_sqrt(s, x.mant * pow2(x.root_scale())),
    ensures
        ({
            let (m, e) = x.root();
            let scaled = x.mant * pow2((x.exp - 2 * e) as nat);
            &&& x.exp - 2 * e >= 52
            &&& (2 * m - 1) * (2 * m - 1) < 4 * scaled < (2 * m + 1) * (2 * m + 1)
        }),
{
    let k = x.root_scale() as int;
    let n = x.mant * pow2(x.root_scale());
    let (m, e) = x.root();
    assert(is_nearest_sqrt(nearest_sqrt(n), n));
    assert(m == nearest_sqrt(n));
    assert((x.exp - k) % 2 == 0);
    assert(2 * e == x.exp - k);
    assert((x.exp - 2 * e) as nat == x.root_scale());
    assert(x.mant * pow2((x.exp - 2 * e) as nat) == n);
}

} // verus!
