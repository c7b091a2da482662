//! The modulus of the coded symbols is prime, so every non-zero residue has an inverse.
//!
//! The proof is a Lucas certificate: 2 generates every non-zero residue modulo `P`, which
//! holds because no power of 2 with an exponent `(P - 1) / q`, for a prime `q` that divides
//! `P - 1`, is one. The largest such `q` is shown prime by a certificate of its own.

use crate::simulator::algorithms::multiparty_sketch::P;
use vstd::arithmetic::div_mod::*;
use vstd::arithmetic::mul::*;
use vstd::arithmetic::power::*;
use vstd::prelude::*;
use vstd::relations::injective_on;
use vstd::set_lib::*;

verus! {

/// The largest prime factor of `P - 1`.
const Q: u64 = 5_594_472_617_641;

/// A number above one that no smaller number above one divides.
pub open spec fn is_prime(n: int) -> bool {
    n > 1 && forall|d: int| 1 < d < n ==> #[trigger] (n % d) != 0
}

/// Numbers `g`, `u`, `v` where `g` divides `a` and `b` and is `u * a + v * b`.
proof fn bezout(a: int, b: int) -> (r: (int, int, int))
    requires
        a > 0,
        b >= 0,
    ensures
        r.0 > 0,
        r.0 == r.1 * a + r.2 * b,
        a % r.0 == 0,
        b % r.0 == 0,
    decreases b,
{
    if b == 0 {
        lemma_mod_self_0(a);
        lemma_small_mod(0, a as nat);
        (a, 1, 0)
    } else {
        lemma_fundamental_div_mod(a, b);
        let rest = a % b;
        let q = a / b;
        let (g, u, v) = bezout(b, rest);
        assert(g == v * a + (u - v * q) * b) by (nonlinear_arith)
            requires
                g == u * b + v * rest,
                a == b * q + rest,
        ;
        assert(a % g == 0) by {
            lemma_fundamental_div_mod(b, g);
            lemma_fundamental_div_mod(rest, g);
            let x = b / g;
            let y = rest / g;
            assert(a == g * (x * q + y)) by (nonlinear_arith)
                requires
                    a == b * q + rest,
                    b == g * x,
                    rest == g * y,
            ;
            lemma_mod_multiples_basic(x * q + y, g);
        }
        (g, v, u - v * q)
    }
}

/// A divisor of `q * r` that the prime `q` does not divide, divides `r`.
proof fn lemma_cancel_prime(m: int, q: int, r: int)
    requires
        is_prime(q),
        m > 0,
        (q * r) % m == 0,
        m % q != 0,
    ensures
        r % m == 0,
{
    let (g, u, v) = bezout(m, q);
    assert(g == 1) by {
        if g > q {
            lemma_small_mod(q as nat, g as nat);
        }
    }
    lemma_fundamental_div_mod(q * r, m);
    let k = (q * r) / m;
    assert(r == m * (u * r + v * k)) by (nonlinear_arith)
        requires
            1 == u * m + v * q,
            q * r == m * k,
    ;
    lemma_mod_multiples_basic(u * r + v * k, m);
}

proof fn lemma_pow_mod_add(g: int, a: nat, b: nat, n: int)
    requires
        n > 0,
    ensures
        pow(g, a + b) % n == ((pow(g, a) % n) * (pow(g, b) % n)) % n,
{
    lemma_pow_adds(g, a, b);
    lemma_mul_mod_noop(pow(g, a), pow(g, b), n);
}

proof fn lemma_pow_mod_multiple(g: int, d: nat, k: nat, n: int)
    requires
        n > 1,
        pow(g, d) % n == 1,
    ensures
        pow(g, d * k) % n == 1,
    decreases k,
{
    lemma_small_mod(1, n as nat);
    if k == 0 {
        lemma_pow0(g);
        assert(d * k == 0) by (nonlinear_arith)
            requires
                k == 0,
        ;
    } else {
        let j = (k - 1) as nat;
        lemma_pow_mod_multiple(g, d, j, n);
        lemma_pow_mod_add(g, d * j, d, n);
        assert(d * k == d * j + d) by (nonlinear_arith)
            requires
                k == j + 1,
        ;
    }
}

/// The least positive exponent at which the powers of `g` return to one.
proof fn order(g: int, top: nat, n: int) -> (d: nat)
    requires
        top > 0,
        n > 1,
        pow(g, top) % n == 1,
    ensures
        0 < d <= top,
        pow(g, d) % n == 1,
        forall|e: nat| 0 < e < d ==> #[trigger] pow(g, e) % n != 1,
    decreases top,
{
    if exists|e: nat| 0 < e < top && #[trigger] pow(g, e) % n == 1 {
        let e = choose|e: nat| 0 < e < top && #[trigger] pow(g, e) % n == 1;
        order(g, e, n)
    } else {
        top
    }
}

/// Every divisor of `top` above one has a factor in `qs`.
spec fn factors_cover(top: int, qs: Seq<int>) -> bool {
    forall|m: int| m > 1 && #[trigger] (top % m) == 0 ==> has_factor(m, qs)
}

spec fn has_factor(m: int, qs: Seq<int>) -> bool {
    exists|i: int| 0 <= i < qs.len() && m % #[trigger] qs[i] == 0
}

/// `g` and `qs` are a certificate that `g` generates the non-zero residues of `n`.
spec fn certificate(n: int, g: int, qs: Seq<int>) -> bool {
    &&& n > 2
    &&& pow(g, (n - 1) as nat) % n == 1
    &&& factors_cover(n - 1, qs)
    &&& forall|i: int|
        0 <= i < qs.len() ==> {
            &&& #[trigger] qs[i] > 0
            &&& (n - 1) % qs[i] == 0
            &&& pow(g, ((n - 1) / qs[i]) as nat) % n != 1
        }
}

proof fn lemma_order_is_full(n: int, g: int, qs: Seq<int>)
    requires
        certificate(n, g, qs),
    ensures
        forall|e: nat| 0 < e < n - 1 ==> #[trigger] pow(g, e) % n != 1,
{
    let top = (n - 1) as nat;
    let d = order(g, top, n);
    let m = top as int / d as int;
    let rest = top as int % d as int;
    lemma_fundamental_div_mod(top as int, d as int);
    assert(m >= 0) by {
        lemma_div_pos_is_pos(top as int, d as int);
    }
    assert(rest == 0) by {
        lemma_pow_mod_multiple(g, d, m as nat, n);
        lemma_pow_mod_add(g, d * m as nat, rest as nat, n);
        assert(d * m as nat + rest as nat == top);
        lemma_mod_twice(pow(g, rest as nat), n);
        lemma_mul_basics(pow(g, rest as nat) % n);
        if rest > 0 {
            assert(pow(g, rest as nat) % n == 1);
        }
    }
    if d < top {
        assert(m > 1) by (nonlinear_arith)
            requires
                top == d * m,
                0 < d < top,
        ;
        assert(top as int % m == 0) by {
            lemma_mod_multiples_basic(d as int, m);
            assert(d * m == top);
        }
        assert(has_factor(m, qs));
        let i = choose|i: int| 0 <= i < qs.len() && m % #[trigger] qs[i] == 0;
        let q = qs[i];
        lemma_fundamental_div_mod(m, q);
        let k = m / q;
        lemma_div_pos_is_pos(m, q);
        assert(top == (d * k) * q) by (nonlinear_arith)
            requires
                top == d * m,
                m == q * k,
        ;
        lemma_div_by_multiple(d * k, q);
        lemma_pow_mod_multiple(g, d, k as nat, n);
        assert(false);
    }
}

/// Powers of an element of full order differ below that order.
proof fn lemma_powers_differ(n: int, g: int, i: nat, j: nat)
    requires
        n > 2,
        pow(g, (n - 1) as nat) % n == 1,
        forall|e: nat| 0 < e < n - 1 ==> #[trigger] pow(g, e) % n != 1,
        i < j < n - 1,
    ensures
        pow(g, i) % n != pow(g, j) % n,
{
    if pow(g, i) % n == pow(g, j) % n {
        let top = (n - 1) as nat;
        let back = (top - i) as nat;
        lemma_pow_mod_add(g, back, i, n);
        lemma_pow_mod_add(g, back, j, n);
        assert(back + j == top + (j - i) as nat);
        lemma_pow_mod_add(g, top, (j - i) as nat, n);
        lemma_mod_twice(pow(g, (j - i) as nat), n);
        assert(pow(g, (j - i) as nat) % n == 1);
    }
}

/// Fermat's theorem for a modulus with a certificate.
proof fn lemma_fermat(n: int, g: int, qs: Seq<int>, a: int)
    requires
        certificate(n, g, qs),
        0 < a < n,
    ensures
        pow(a, (n - 1) as nat) % n == 1,
{
    lemma_order_is_full(n, g, qs);
    let top = (n - 1) as nat;
    let f = |i: int| pow(g, i as nat) % n;
    let exponents = set_int_range(0, n - 1);
    let residues = set_int_range(1, n);
    lemma_int_range(0, n - 1);
    lemma_int_range(1, n);
    assert(injective_on(f, exponents)) by {
        assert forall|x: int, y: int|
            #![trigger f(x), f(y)]
            exponents.contains(x) && exponents.contains(y) && f(x) == f(y) implies x == y by {
            if x < y {
                lemma_powers_differ(n, g, x as nat, y as nat);
            } else if y < x {
                lemma_powers_differ(n, g, y as nat, x as nat);
            }
        }
    }
    let image = exponents.map(f);
    assert(image.subset_of(residues)) by {
        assert forall|y: int| image.contains(y) implies residues.contains(y) by {
            let i = choose|i: int| exponents.contains(i) && f(i) == y;
            lemma_mod_bound(pow(g, i as nat), n);
            if y == 0 {
                lemma_pow_mod_add(g, i as nat, (top - i) as nat, n);
                assert(0 * (pow(g, (top - i) as nat) % n) == 0);
                lemma_small_mod(0, n as nat);
            }
        }
    }
    lemma_map_size(exponents, image, f);
    lemma_subset_equality(image, residues);
    assert(image.contains(a));
    let i = choose|i: int| exponents.contains(i) && f(i) == a;
    lemma_pow_mod_noop(pow(g, i as nat), top, n);
    lemma_pow_multiplies(g, i as nat, top);
    lemma_pow_mod_multiple(g, top, i as nat, n);
    assert(top * (i as nat) == (i as nat) * top) by (nonlinear_arith);
}

/// A modulus with a certificate is prime.
proof fn lemma_certified_prime(n: int, g: int, qs: Seq<int>)
    requires
        certificate(n, g, qs),
    ensures
        is_prime(n),
{
    assert forall|d: int| 1 < d < n implies #[trigger] (n % d) != 0 by {
        if n % d == 0 {
            lemma_fermat(n, g, qs, d);
            let x = pow(d, (n - 2) as nat);
            assert(pow(d, (n - 1) as nat) == d * x) by {
                reveal(pow);
            }
            lemma_fundamental_div_mod(d * x, n);
            let k = (d * x) / n;
            lemma_fundamental_div_mod(n, d);
            let c = n / d;
            assert(d * (x - c * k) == 1) by (nonlinear_arith)
                requires
                    d * x == n * k + 1,
                    n == d * c,
            ;
            let z = x - c * k;
            assert(false) by (nonlinear_arith)
                requires
                    d * z == 1,
                    d > 1,
            ;
        }
    }
}

/// No number from 2 up to `b`, exclusive, divides `n`.
spec fn no_factor_below(n: u64, b: u64) -> bool
    decreases b,
{
    b <= 2 || (n % ((b - 1) as u64) != 0 && no_factor_below(n, (b - 1) as u64))
}

proof fn lemma_no_factor(n: u64, b: u64, d: int)
    requires
        no_factor_below(n, b),
        2 <= d < b,
    ensures
        n as int % d != 0,
    decreases b,
{
    if d != b - 1 {
        lemma_no_factor(n, (b - 1) as u64, d);
    }
}

/// Trial division up to the square root shows a number prime.
proof fn lemma_trial_division(n: u64, b: u64)
    requires
        1 < n < b * b,
        no_factor_below(n, b),
    ensures
        is_prime(n as int),
{
    let n = n as int;
    assert forall|d: int| 1 < d < n implies #[trigger] (n % d) != 0 by {
        if n % d == 0 {
            lemma_fundamental_div_mod(n, d);
            let e = n / d;
            assert(1 < e < n) by (nonlinear_arith)
                requires
                    n == d * e,
                    1 < d < n,
            ;
            if d < b {
                lemma_no_factor(n as u64, b, d);
            } else {
                assert(e < b) by (nonlinear_arith)
                    requires
                        n == d * e,
                        d >= b,
                        n < b * b,
                        e > 0,
                ;
                lemma_mod_multiples_basic(d, e);
                lemma_no_factor(n as u64, b, e);
            }
        }
    }
}

/// `b^e` modulo `n`, by repeated squaring.
spec fn power_by_squaring(b: u128, e: u128, n: u128) -> u128
    decreases e,
{
    if e == 0 {
        1
    } else if e % 2 == 0 {
        power_by_squaring(((b * b) % (n as int)) as u128, e / 2, n)
    } else {
        ((b * power_by_squaring(((b * b) % (n as int)) as u128, e / 2, n)) % (n as int)) as u128
    }
}

proof fn lemma_power_by_squaring(b: u128, e: u128, n: u128)
    requires
        1 < n,
    ensures
        power_by_squaring(b, e, n) == pow(b as int, e as nat) % (n as int),
    decreases e,
{
    let m = n as int;
    let x = b as int;
    if e == 0 {
        lemma_pow0(x);
        lemma_small_mod(1, n as nat);
    } else {
        let h = (e / 2) as nat;
        lemma_mod_bound(x * x, m);
        lemma_power_by_squaring(((b * b) % m) as u128, e / 2, n);
        lemma_pow_mod_noop(x * x, h, m);
        lemma_square_is_pow2(x);
        lemma_pow_multiplies(x, 2, h);
        lemma_mod_bound(pow(x, 2 * h), m);
        if e % 2 == 1 {
            lemma_pow1(x);
            lemma_pow_adds(x, 1, 2 * h);
            lemma_mul_mod_noop_right(x, pow(x, 2 * h), m);
            lemma_mod_bound(x * pow(x, 2 * h), m);
        }
    }
}

/// `m` divides `r` or the prime `q` divides `m`, where `m` divides `q * r`.
proof fn lemma_split(m: int, q: int, r: int)
    requires
        is_prime(q),
        m > 1,
        (q * r) % m == 0,
    ensures
        m % q == 0 || r % m == 0,
{
    if m % q != 0 {
        lemma_cancel_prime(m, q, r);
    }
}

proof fn lemma_small_primes()
    ensures
        is_prime(2),
        is_prime(3),
        is_prime(5),
        is_prime(11),
        is_prime(137),
        is_prime(547),
        is_prime(1427),
        is_prime(2131),
        is_prime(15331),
{
    assert(no_factor_below(2, 2) && no_factor_below(3, 2) && no_factor_below(5, 3)
        && no_factor_below(11, 4) && no_factor_below(137, 12)) by (bit_vector);
    assert(no_factor_below(547, 24) && no_factor_below(1427, 38)) by (bit_vector);
    assert(no_factor_below(2131, 47) && no_factor_below(15331, 124)) by (bit_vector);
    lemma_trial_division(2, 2);
    lemma_trial_division(3, 2);
    lemma_trial_division(5, 3);
    lemma_trial_division(11, 4);
    lemma_trial_division(137, 12);
    lemma_trial_division(547, 24);
    lemma_trial_division(1427, 38);
    lemma_trial_division(2131, 47);
    lemma_trial_division(15331, 124);
}

/// The prime factors of `Q - 1`.
spec fn factors_of_q() -> Seq<int> {
    seq![2, 3, 5, 1427, 2131, 15331]
}

proof fn lemma_factors_of_q()
    ensures
        factors_cover(Q - 1, factors_of_q()),
{
    lemma_small_primes();
    let qs = factors_of_q();
    assert forall|m: int| m > 1 && #[trigger] ((Q - 1) % m) == 0 implies has_factor(m, qs) by {
        assert(qs[0] == 2 && qs[1] == 3 && qs[2] == 5 && qs[3] == 1427 && qs[4] == 2131 && qs[5]
            == 15331);
        lemma_split(m, 2, 2_797_236_308_820);
        if m % 2 != 0 {
            lemma_split(m, 2, 1_398_618_154_410);
            lemma_split(m, 2, 699_309_077_205);
            lemma_split(m, 3, 233_103_025_735);
            if m % 3 != 0 {
                lemma_split(m, 5, 46_620_605_147);
                if m % 5 != 0 {
                    lemma_split(m, 1427, 32_670_361);
                    if m % 1427 != 0 {
                        lemma_split(m, 2131, 15331);
                        if m % 2131 != 0 {
                            lemma_split(m, 15331, 1);
                            lemma_small_mod(1, m as nat);
                        }
                    }
                }
            }
        }
    }
}

proof fn lemma_q_prime()
    ensures
        is_prime(Q as int),
{
    lemma_factors_of_q();
    let n: u128 = 5_594_472_617_641;
    let qs = factors_of_q();
    assert(power_by_squaring(13, 5_594_472_617_640, 5_594_472_617_641) == 1) by (bit_vector);
    assert(power_by_squaring(13, 2_797_236_308_820, 5_594_472_617_641) != 1) by (bit_vector);
    assert(power_by_squaring(13, 1_864_824_205_880, 5_594_472_617_641) != 1) by (bit_vector);
    assert(power_by_squaring(13, 1_118_894_523_528, 5_594_472_617_641) != 1) by (bit_vector);
    assert(power_by_squaring(13, 3_920_443_320, 5_594_472_617_641) != 1) by (bit_vector);
    assert(power_by_squaring(13, 2_625_280_440, 5_594_472_617_641) != 1) by (bit_vector);
    assert(power_by_squaring(13, 364_912_440, 5_594_472_617_641) != 1) by (bit_vector);
    lemma_power_by_squaring(13, 5_594_472_617_640, n);
    lemma_power_by_squaring(13, 2_797_236_308_820, n);
    lemma_power_by_squaring(13, 1_864_824_205_880, n);
    lemma_power_by_squaring(13, 1_118_894_523_528, n);
    lemma_power_by_squaring(13, 3_920_443_320, n);
    lemma_power_by_squaring(13, 2_625_280_440, n);
    lemma_power_by_squaring(13, 364_912_440, n);
    assert(qs[0] == 2 && qs[1] == 3 && qs[2] == 5 && qs[3] == 1427 && qs[4] == 2131 && qs[5]
        == 15331);
    assert forall|i: int| 0 <= i < qs.len() implies {
        &&& #[trigger] qs[i] > 0
        &&& (n - 1) % qs[i] == 0
        &&& pow(13, ((n - 1) / qs[i]) as nat) % (n as int) != 1
    } by {
        assert(i == 0 || i == 1 || i == 2 || i == 3 || i == 4 || i == 5);
    }
    assert(certificate(n as int, 13, qs));
    lemma_certified_prime(n as int, 13, qs);
}

/// The prime factors of `P - 1`.
spec fn factors_of_p() -> Seq<int> {
    seq![2, 11, 137, 547, Q as int]
}

proof fn lemma_factors_of_p()
    ensures
        factors_cover(P - 1, factors_of_p()),
{
    lemma_small_primes();
    lemma_q_prime();
    let qs = factors_of_p();
    assert forall|m: int| m > 1 && #[trigger] ((P - 1) % m) == 0 implies has_factor(m, qs) by {
        assert(qs[0] == 2 && qs[1] == 11 && qs[2] == 137 && qs[3] == 547 && qs[4] == Q);
        lemma_split(m, 2, 9_223_372_036_854_775_778);
        if m % 2 != 0 {
            lemma_split(m, 2, 4_611_686_018_427_387_889);
            lemma_split(m, 11, 419_244_183_493_398_899);
            if m % 11 != 0 {
                lemma_split(m, 137, 3_060_176_521_849_627);
                if m % 137 != 0 {
                    lemma_split(m, 547, Q as int);
                    if m % 547 != 0 {
                        lemma_split(m, Q as int, 1);
                        lemma_small_mod(1, m as nat);
                    }
                }
            }
        }
    }
}

proof fn lemma_p_certificate()
    ensures
        certificate(P as int, 2, factors_of_p()),
{
    lemma_factors_of_p();
    let n: u128 = 18_446_744_073_709_551_557;
    assert(power_by_squaring(2, 18_446_744_073_709_551_556, 18_446_744_073_709_551_557) == 1) by (bit_vector);
    assert(power_by_squaring(2, 9_223_372_036_854_775_778, 18_446_744_073_709_551_557) != 1) by (bit_vector);
    assert(power_by_squaring(2, 1_676_976_733_973_595_596, 18_446_744_073_709_551_557) != 1) by (bit_vector);
    assert(power_by_squaring(2, 134_647_766_961_383_588, 18_446_744_073_709_551_557) != 1) by (bit_vector);
    assert(power_by_squaring(2, 33_723_480_939_139_948, 18_446_744_073_709_551_557) != 1) by (bit_vector);
    assert(power_by_squaring(2, 3_297_316, 18_446_744_073_709_551_557) != 1) by (bit_vector);
    lemma_power_by_squaring(2, 18_446_744_073_709_551_556, n);
    lemma_power_by_squaring(2, 9_223_372_036_854_775_778, n);
    lemma_power_by_squaring(2, 1_676_976_733_973_595_596, n);
    lemma_power_by_squaring(2, 134_647_766_961_383_588, n);
    lemma_power_by_squaring(2, 33_723_480_939_139_948, n);
    lemma_power_by_squaring(2, 3_297_316, n);
}

/// The modulus is prime.
pub proof fn lemma_p_is_prime()
    ensures
        is_prime(P as int),
{
    lemma_p_certificate();
    lemma_certified_prime(P as int, 2, factors_of_p());
}

/// Raising a non-zero residue to the power `P - 2` gives its inverse.
pub proof fn lemma_inverse(a: int)
    requires
        a % (P as int) != 0,
    ensures
        (a * (pow(a, (P - 2) as nat) % (P as int))) % (P as int) == 1,
{
    let p = P as int;
    let r = a % p;
    lemma_p_certificate();
    lemma_fermat(p, 2, factors_of_p(), r);
    lemma_pow_mod_noop(a, (p - 1) as nat, p);
    assert(pow(a, (p - 1) as nat) == a * pow(a, (p - 2) as nat)) by {
        reveal(pow);
    }
    lemma_mul_mod_noop_right(a, pow(a, (p - 2) as nat), p);
}

} // verus!
