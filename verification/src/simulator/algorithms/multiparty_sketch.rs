//! Sketches of multisets over a prime field.
//!
//! A cell adds up what was inserted instead of combining it with exclusive or, so `k` copies
//! of an element contribute `k` times its digest. The digest comes back by dividing by `k`.

use crate::simulator::algorithms::hashing::HashKey;
use crate::simulator::algorithms::riblt::mapping::SymbolMapping;
use crate::simulator::algorithms::{hashing, prime_field, riblt::mapping};
use crate::simulator::counter;
use crate::simulator::counter::{add_i64, sub_i64};
use crate::simulator::replica;
use crate::simulator::replica::Replica;
use std::hash::{DefaultHasher, Hasher};
use vstd::arithmetic::div_mod::*;
use vstd::arithmetic::mul::*;
use vstd::arithmetic::power::*;
use vstd::prelude::*;
use vstd::std_specs::hash::*;

verus! {

/// The largest prime below `2^64`: the number of elements of the field.
pub const P: u64 = 18_446_744_073_709_551_557;

/// Bytes of a cell on the wire: sum of digests, sum of hashes and count, 8 bytes each.
pub const CELL_BYTES: usize = 24;

/// Field addition.
pub fn fadd(a: u64, b: u64) -> (r: u64)
    ensures
        a < P && b < P ==> r == (a + b) % P as int,
        r == if a + b < P {
            (a + b) as u64
        } else {
            counter::wrap_u64(a + b - P)
        },
{
    let s: u64 = a.wrapping_add(b);
    if s < a || s >= P {
        s.wrapping_sub(P)
    } else {
        s
    }
}

/// Field subtraction.
pub fn fsub(a: u64, b: u64) -> (r: u64)
    requires
        b - a <= P,
    ensures
        a < P && b < P ==> r == (a - b) % P as int,
        r == if a >= b {
            a - b
        } else {
            P - (b - a)
        },
{
    if a >= b {
        a - b
    } else {
        P - (b - a)
    }
}

/// Field multiplication.
pub fn fmul(a: u64, b: u64) -> (r: u64)
    ensures
        r == (a * b) % P as int,
        r < P,
{
    assert(a * b <= 0xffff_ffff_ffff_ffff * 0xffff_ffff_ffff_ffff) by (nonlinear_arith)
        requires
            a <= 0xffff_ffff_ffff_ffff,
            b <= 0xffff_ffff_ffff_ffff,
    ;
    assert(a * b >= 0) by (nonlinear_arith);
    ((a as u128 * b as u128) % P as u128) as u64
}

/// Field power.
pub fn fpow(base: u64, exp: u64) -> (r: u64)
    ensures
        r == pow(base as int, exp as nat) % P as int,
{
    let mut base_now: u64 = base;
    let mut left: u64 = exp;
    let mut result: u64 = 1;
    let ghost goal = pow(base as int, exp as nat) % P as int;
    while left > 0
        invariant
            (result * pow(base_now as int, left as nat)) % P as int == goal,
            result < P,
        decreases left,
    {
        let ghost half = (left / 2) as nat;
        let ghost square = base_now * base_now;
        let ghost before = result as int;
        let ghost b = base_now as int;
        let ghost p = P as int;
        proof {
            lemma_pow_multiplies(b, 2, half);
            lemma_pow1(b);
            lemma_pow_adds(b, 1, 1);
            assert(pow(b, 2) == square);
            assert(pow(square, half) == pow(b, 2 * half));
            lemma_pow_mod_noop(square, half, p);
            if left % 2 == 1 {
                lemma_pow_adds(b, 1, 2 * half);
                lemma_mul_is_associative(before, b, pow(square, half));
                lemma_mul_mod_noop(before * b, pow(square, half), p);
                lemma_mul_mod_noop((before * b) % p, pow(square % p, half), p);
            } else {
                lemma_mul_mod_noop(before, pow(square, half), p);
                lemma_mul_mod_noop(before, pow(square % p, half), p);
            }
        }
        if left % 2 == 1 {
            result = fmul(result, base_now);
        }
        left = left / 2;
        base_now = fmul(base_now, base_now);
    }
    proof {
        lemma_pow0(base_now as int);
        lemma_small_mod(result as nat, P as nat);
    }
    result
}

/// The inverse of `a` in the field: `a` to the power `P - 2`.
pub open spec fn inverse(a: int) -> int {
    pow(a, (P - 2) as nat) % P as int
}

/// `a` divided by `b` in the field.
pub open spec fn quotient(a: int, b: int) -> int {
    (a * inverse(b)) % P as int
}

/// Modular inverse by Fermat's little theorem.
pub fn finv(a: u64) -> (r: u64)
    ensures
        r == inverse(a as int),
        r < P,
        a as int % P as int != 0 ==> (a * r) % P as int == 1,
{
    proof {
        if a as int % P as int != 0 {
            prime_field::lemma_inverse(a as int);
        }
    }
    fpow(a, P - 2)
}

/// Field division.
pub fn fdiv(a: u64, b: u64) -> (r: u64)
    ensures
        r == quotient(a as int, b as int),
        r < P,
        b as int % P as int != 0 ==> (r * b) % P as int == a as int % P as int,
{
    proof {
        if b as int % P as int != 0 {
            lemma_quotient_times(a as int, b as int);
        }
    }
    fmul(a, finv(b))
}

/// Dividing and multiplying again gives back the dividend.
pub proof fn lemma_quotient_times(a: int, b: int)
    requires
        b % P as int != 0,
    ensures
        (quotient(a, b) * b) % P as int == a % P as int,
{
    let p = P as int;
    let v = inverse(b);
    prime_field::lemma_inverse(b);
    lemma_mul_mod_noop_left(a * v, b, p);
    assert((a * v) * b == a * (b * v)) by (nonlinear_arith);
    lemma_mul_mod_noop_right(a, b * v, p);
}

/// A product divided by one of its factors is the other factor.
pub proof fn lemma_product_over(k: int, e: int)
    requires
        k % P as int != 0,
    ensures
        quotient((k * e) % P as int, k) == e % P as int,
{
    let p = P as int;
    let v = inverse(k);
    prime_field::lemma_inverse(k);
    lemma_mul_mod_noop_left(k * e, v, p);
    assert((k * e) * v == e * (k * v)) by (nonlinear_arith);
    lemma_mul_mod_noop_right(e, k * v, p);
}

/// Inverses and quotients depend on residues alone.
pub proof fn lemma_quotient_mod(a: int, b: int)
    ensures
        quotient(a, b % P as int) == quotient(a, b),
        quotient(a % P as int, b) == quotient(a, b),
{
    lemma_pow_mod_noop(b, (P - 2) as nat, P as int);
    lemma_mul_mod_noop_left(a, inverse(b), P as int);
}

/// Convert a signed count to its representative in the field.
pub fn count_to_field(count: i64) -> (r: u64)
    ensures
        r == count as int % P as int,
        r < P,
{
    if count >= 0 {
        (count as u64) % P
    } else {
        P - (-(count as i128)) as u64 % P
    }
}

/// The default hasher's answer for a digest.
pub open spec fn hash_of(d: u64) -> u64 {
    DefaultHasher::spec_finish(hashing::u64_hash_writes(d))
}

/// Deterministic hash of a digest: the seed of its walk over the cells, and its check value.
pub fn digest_hash(d: u64) -> (h: u64)
    ensures
        h == hash_of(d),
{
    let mut h = DefaultHasher::new();
    d.feed(&mut h);
    assert(h@ =~= hashing::u64_hash_writes(d));
    h.finish()
}

/// A coded symbol.
#[derive(Clone, Copy, Debug, PartialEq, Eq, Structural)]
pub struct MCell {
    /// Field sum of the digests, one term for each insertion and its opposite for each removal.
    pub sym: u64,
    /// Field sum of the digests' hashes.
    pub hash: u64,
    /// Insertions minus removals.
    pub count: i64,
}

impl Default for MCell {
    fn default() -> (c: Self)
        ensures
            c == MCell::zero(),
    {
        MCell { sym: 0, hash: 0, count: 0 }
    }
}

impl MCell {
    pub open spec fn zero() -> MCell {
        MCell { sym: 0, hash: 0, count: 0 }
    }

    /// Both sums are field elements.
    pub open spec fn wf(self) -> bool {
        self.sym < P && self.hash < P
    }

    /// The digest whose copies alone would add up to this cell.
    pub open spec fn candidate(self) -> u64 {
        quotient(self.sym as int, self.count as int) as u64
    }

    /// Whether the cell holds a non-zero count of copies of one digest, going by its hash.
    pub open spec fn pure(self) -> bool {
        self.count != 0 && ((hash_of(self.candidate()) as int % P as int) * (self.count as int
            % P as int)) % P as int == self.hash
    }

    /// The cell with `m` times the given digest sum, hash sum and count added.
    pub open spec fn shifted(self, m: int, e: int, h: int, d: int) -> MCell {
        MCell {
            sym: ((self.sym + m * e) % P as int) as u64,
            hash: ((self.hash + m * h) % P as int) as u64,
            count: counter::wrap_i64(self.count + m * d),
        }
    }

    /// A cell is pure when it encodes exactly `|count|` copies of a single element. The
    /// candidate comes from field division and is checked against the hash sum.
    pub fn is_pure(&self) -> (r: bool)
        ensures
            r == self.pure(),
    {
        if self.count == 0 {
            return false;
        }
        let kf: u64 = count_to_field(self.count);
        let e_cand: u64 = self.recover_digest_f();
        let h_cand: u64 = digest_hash(e_cand) % P;
        fmul(h_cand, kf) == self.hash
    }

    /// Recover the field-reduced digest from a pure cell.
    pub fn recover_digest_f(&self) -> (e: u64)
        ensures
            e == self.candidate(),
            e == quotient(self.sym as int, self.count as int),
    {
        proof {
            lemma_quotient_mod(self.sym as int, self.count as int);
        }
        fdiv(self.sym, count_to_field(self.count))
    }
}

/// Field addition of two cells.
pub open spec fn cell_sum(a: MCell, b: MCell) -> MCell {
    MCell {
        sym: ((a.sym + b.sym) % P as int) as u64,
        hash: ((a.hash + b.hash) % P as int) as u64,
        count: counter::wrap_i64(a.count + b.count),
    }
}

/// Field subtraction of two cells.
pub open spec fn cell_difference(a: MCell, b: MCell) -> MCell {
    MCell {
        sym: ((a.sym - b.sym) % P as int) as u64,
        hash: ((a.hash - b.hash) % P as int) as u64,
        count: counter::wrap_i64(a.count - b.count),
    }
}

/// Every cell's sums are field elements.
pub open spec fn cells_wf(cells: Seq<MCell>) -> bool {
    forall|j: int| 0 <= j < cells.len() ==> (#[trigger] cells[j]).wf()
}

/// The cells after `s` times the given sums were added at every step of the walk of `seed`.
pub open spec fn spread(cells: Seq<MCell>, seed: u64, s: int, e: int, h: int, d: int) -> Seq<
    MCell,
> {
    Seq::new(
        cells.len(),
        |j: int|
            cells[j].shifted(s * mapping::hits(seed, cells.len() as int, j) as int, e, h, d),
    )
}

/// The cells after one digest was inserted (`s` is one) or removed (`s` is minus one).
pub open spec fn encoded(cells: Seq<MCell>, digest: u64, s: int) -> Seq<MCell> {
    spread(
        cells,
        hash_of(digest),
        s,
        digest as int % P as int,
        hash_of(digest) as int % P as int,
        1,
    )
}

/// Cell-wise sums, as far as both sketches reach.
pub open spec fn sum_cells(a: Seq<MCell>, b: Seq<MCell>) -> Seq<MCell> {
    Seq::new(
        a.len(),
        |j: int|
            if j < b.len() {
                cell_sum(a[j], b[j])
            } else {
                a[j]
            },
    )
}

/// Cell-wise differences, as far as both sketches reach.
pub open spec fn difference_cells(a: Seq<MCell>, b: Seq<MCell>) -> Seq<MCell> {
    Seq::new(
        a.len(),
        |j: int|
            if j < b.len() {
                cell_difference(a[j], b[j])
            } else {
                a[j]
            },
    )
}

proof fn lemma_mod_shift(c: int, a: int, b: int, e: int)
    ensures
        ((c + a * e) % P as int + b * e) % P as int == (c + (a + b) * e) % P as int,
{
    lemma_add_mod_noop(c + a * e, b * e, P as int);
    lemma_add_mod_noop((c + a * e) % P as int, b * e, P as int);
    assert(c + a * e + b * e == c + (a + b) * e) by (nonlinear_arith);
}

/// Shifting a cell twice by multiples of the same sums adds the multiples up.
pub proof fn lemma_shift_twice(c: MCell, a: int, b: int, e: int, h: int, d: int)
    ensures
        c.shifted(a, e, h, d).shifted(b, e, h, d) == c.shifted(a + b, e, h, d),
{
    lemma_mod_shift(c.sym as int, a, b, e);
    lemma_mod_shift(c.hash as int, a, b, h);
    lemma_mod_bound(c.sym + a * e, P as int);
    lemma_mod_bound(c.hash + a * h, P as int);
    counter::lemma_wrap_i64_add(c.count + a * d, b * d);
    assert(c.count + a * d + b * d == c.count + (a + b) * d) by (nonlinear_arith);
}

/// Shifting by nothing changes nothing.
pub proof fn lemma_shift_zero(c: MCell, e: int, h: int, d: int)
    requires
        c.wf(),
    ensures
        c.shifted(0, e, h, d) == c,
{
    assert(0 * e == 0 && 0 * h == 0 && 0 * d == 0) by (nonlinear_arith);
    lemma_small_mod(c.sym as nat, P as nat);
    lemma_small_mod(c.hash as nat, P as nat);
}

/// Shifted cells hold field elements.
pub proof fn lemma_shift_wf(c: MCell, m: int, e: int, h: int, d: int)
    ensures
        c.shifted(m, e, h, d).wf(),
{
    lemma_mod_bound(c.sym + m * e, P as int);
    lemma_mod_bound(c.hash + m * h, P as int);
}

/// Adds the given sums, or subtracts them, at every step of the walk of `seed`.
fn spread_along(cells: &mut Vec<MCell>, seed: u64, insert: bool, e: u64, h: u64, d: i64)
    requires
        cells_wf(old(cells)@),
        e < P,
        h < P,
    ensures
        final(cells)@ == spread(
            old(cells)@,
            seed,
            if insert {
                1
            } else {
                -1
            },
            e as int,
            h as int,
            d as int,
        ),
        cells_wf(final(cells)@),
{
    let ghost start = cells@;
    let ghost s: int = if insert {
        1
    } else {
        -1
    };
    let size: usize = cells.len();
    let ghost goal = spread(start, seed, s, e as int, h as int, d as int);
    let mut mapping = SymbolMapping::new(seed);
    let mut inside: bool = true;
    while inside
        invariant
            cells@.len() == size,
            goal.len() == size,
            cells_wf(cells@),
            mapping.wf(),
            mapping.seed() == seed,
            e < P,
            h < P,
            s == if insert {
                1int
            } else {
                -1int
            },
            inside ==> forall|j: int|
                0 <= j < size ==> #[trigger] goal[j] == cells@[j].shifted(
                    s * mapping::hits_from(seed, size as int, j, mapping.drawn()) as int,
                    e as int,
                    h as int,
                    d as int,
                ),
            !inside ==> cells@ == goal,
        decreases
            mapping::MAX_DRAWS - mapping.drawn(),
            if inside {
                1int
            } else {
                0
            },
    {
        let ghost k = mapping.drawn();
        let ghost before = cells@;
        let next: Option<usize> = mapping.next();
        let stop: bool = match next {
            Some(idx) => idx >= size,
            None => true,
        };
        if stop {
            proof {
                assert forall|j: int| 0 <= j < size implies #[trigger] goal[j] == before[j] by {
                    assert(before[j].wf());
                    assert(mapping::hits_from(seed, size as int, j, k) == 0);
                    assert(s * 0 == 0) by (nonlinear_arith);
                    lemma_shift_zero(before[j], e as int, h as int, d as int);
                }
                assert(before =~= goal);
            }
            inside = false;
        } else {
            let idx: usize = next.unwrap();
            let c: MCell = cells[idx];
            assert(c.wf());
            let n: MCell = if insert {
                MCell { sym: fadd(c.sym, e), hash: fadd(c.hash, h), count: add_i64(c.count, d) }
            } else {
                MCell { sym: fsub(c.sym, e), hash: fsub(c.hash, h), count: sub_i64(c.count, d) }
            };
            cells.set(idx, n);
            proof {
                assert(n == c.shifted(s, e as int, h as int, d as int)) by {
                    if insert {
                        assert(1 * e == e && 1 * h == h && 1 * d == d);
                    } else {
                        assert(-1 * e == -e && -1 * h == -h && -1 * d == -d);
                    }
                }
                lemma_shift_wf(c, s, e as int, h as int, d as int);
                assert forall|j: int| 0 <= j < size implies #[trigger] goal[j]
                    == cells@[j].shifted(
                    s * mapping::hits_from(seed, size as int, j, mapping.drawn()) as int,
                    e as int,
                    h as int,
                    d as int,
                ) by {
                    let rest = mapping::hits_from(seed, size as int, j, (k + 1) as nat) as int;
                    if j == idx {
                        lemma_shift_twice(c, s, s * rest, e as int, h as int, d as int);
                        assert(s + s * rest == s * (1 + rest)) by (nonlinear_arith);
                    }
                }
            }
        }
    }
}

/// The digests found by peeling, and what is left of the cells.
#[verifier::ext_equal]
pub struct Peeled {
    pub cells: Seq<MCell>,
    /// Digests of cells with a positive count, in the order of their discovery.
    pub inserted: Seq<u64>,
    /// Digests of cells with a negative count, in the order of their discovery.
    pub removed: Seq<u64>,
}

impl Peeled {
    /// Looks at cell `i`: when it is pure, takes its contents out of every cell on the walk
    /// of its digest.
    pub open spec fn step(self, i: int) -> Peeled {
        let c = self.cells[i];
        if !c.pure() {
            self
        } else {
            let e = c.candidate();
            Peeled {
                cells: spread(
                    self.cells,
                    hash_of(e),
                    -1,
                    c.sym as int,
                    c.hash as int,
                    c.count as int,
                ),
                inserted: if c.count > 0 {
                    self.inserted.push(e)
                } else {
                    self.inserted
                },
                removed: if c.count > 0 {
                    self.removed
                } else {
                    self.removed.push(e)
                },
            }
        }
    }

    /// Looks at the first `n` cells in order.
    pub open spec fn pass(self, n: nat) -> Peeled
        decreases n,
    {
        if n == 0 {
            self
        } else {
            self.pass((n - 1) as nat).step(n - 1)
        }
    }

    /// How many digests were found.
    pub open spec fn found(self) -> nat {
        self.inserted.len() + self.removed.len()
    }

    /// Passes over all cells until one finds nothing, and at most `fuel` of them.
    pub open spec fn passes(self, fuel: nat) -> Peeled
        decreases fuel,
    {
        if fuel == 0 {
            self
        } else {
            let next = self.pass(self.cells.len());
            if next.found() == self.found() {
                next
            } else {
                next.passes((fuel - 1) as nat)
            }
        }
    }

    pub open spec fn start(cells: Seq<MCell>) -> Peeled {
        Peeled { cells, inserted: Seq::empty(), removed: Seq::empty() }
    }
}

/// What peeling makes of a sketch.
pub open spec fn peeled(cells: Seq<MCell>) -> Peeled {
    Peeled::start(cells).passes(u64::MAX as nat)
}

/// Nothing is left in the cells.
pub open spec fn all_zero(cells: Seq<MCell>) -> bool {
    forall|j: int| 0 <= j < cells.len() ==> (#[trigger] cells[j]) == MCell::zero()
}

/// The digests found by peeling, and what is left of the cells.
pub struct PeelOutcome {
    pub cells: Vec<MCell>,
    pub inserted: Vec<u64>,
    pub removed: Vec<u64>,
}

impl View for PeelOutcome {
    type V = Peeled;

    open spec fn view(&self) -> Peeled {
        Peeled { cells: self.cells@, inserted: self.inserted@, removed: self.removed@ }
    }
}

/// One pass over all cells; whether it found a digest.
fn peel_pass(p: &mut PeelOutcome) -> (changed: bool)
    requires
        cells_wf(old(p).cells@),
    ensures
        final(p)@ == old(p)@.pass(old(p).cells@.len()),
        changed == (final(p)@.found() != old(p)@.found()),
        cells_wf(final(p).cells@),
        final(p).cells@.len() == old(p).cells@.len(),
{
    let size: usize = p.cells.len();
    let ghost start = p@;
    let mut changed: bool = false;
    let mut i: usize = 0;
    while i < size
        invariant
            i <= size,
            p.cells@.len() == size,
            start.cells.len() == size,
            cells_wf(p.cells@),
            p@ == start.pass(i as nat),
            p@.found() >= start.found(),
            changed == (p@.found() != start.found()),
        decreases size - i,
    {
        let c: MCell = p.cells[i];
        assert(c.wf());
        if c.count != 0 && c.is_pure() {
            let e_f: u64 = c.recover_digest_f();
            if c.count > 0 {
                p.inserted.push(e_f);
            } else {
                p.removed.push(e_f);
            }
            spread_along(&mut p.cells, digest_hash(e_f), false, c.sym, c.hash, c.count);
            changed = true;
        }
        i = i + 1;
        assert(p@ =~= start.pass(i as nat));
    }
    changed
}

/// A sketch: a row of cells.
#[derive(Debug)]
pub struct MSketch {
    pub cells: Vec<MCell>,
}

impl MSketch {
    /// An empty sketch of `size` cells.
    pub fn new(size: usize) -> (s: Self)
        ensures
            s.cells@ == Seq::new(size as nat, |j: int| MCell::zero()),
            cells_wf(s.cells@),
    {
        let mut cells: Vec<MCell> = Vec::new();
        let mut i: usize = 0;
        while i < size
            invariant
                i <= size,
                cells@ == Seq::new(i as nat, |j: int| MCell::zero()),
            decreases size - i,
        {
            cells.push(MCell::default());
            i = i + 1;
        }
        MSketch { cells }
    }

    /// Insert (`sign > 0`) or remove (otherwise) one element.
    pub fn encode_element(&mut self, digest: u64, sign: i64)
        requires
            cells_wf(old(self).cells@),
        ensures
            final(self).cells@ == encoded(
                old(self).cells@,
                digest,
                if sign > 0 {
                    1
                } else {
                    -1
                },
            ),
            cells_wf(final(self).cells@),
    {
        let h: u64 = digest_hash(digest);
        spread_along(&mut self.cells, h, sign > 0, digest % P, h % P, 1);
    }

    /// Cell-wise field addition.
    pub fn add_sketch(&mut self, other: &MSketch)
        requires
            cells_wf(old(self).cells@),
            cells_wf(other.cells@),
        ensures
            final(self).cells@ == sum_cells(old(self).cells@, other.cells@),
            cells_wf(final(self).cells@),
    {
        let ghost start = self.cells@;
        let ghost goal = sum_cells(start, other.cells@);
        let mut i: usize = 0;
        while i < self.cells.len() && i < other.cells.len()
            invariant
                self.cells@.len() == start.len(),
                goal == sum_cells(start, other.cells@),
                i <= start.len(),
                i <= other.cells@.len(),
                cells_wf(start),
                cells_wf(other.cells@),
                forall|j: int| 0 <= j < i ==> (#[trigger] self.cells@[j]) == goal[j],
                forall|j: int| i <= j < start.len() ==> (#[trigger] self.cells@[j]) == start[j],
            decreases start.len() - i,
        {
            let a: MCell = self.cells[i];
            let b: MCell = other.cells[i];
            assert(a == start[i as int]);
            assert(a.wf() && b.wf());
            self.cells.set(
                i,
                MCell {
                    sym: fadd(a.sym, b.sym),
                    hash: fadd(a.hash, b.hash),
                    count: add_i64(a.count, b.count),
                },
            );
            i = i + 1;
        }
        assert(self.cells@ =~= goal);
        assert forall|j: int| 0 <= j < goal.len() implies (#[trigger] goal[j]).wf() by {
            assert(start[j].wf());
        }
    }

    /// Cell-wise field subtraction.
    pub fn sub_sketch(&mut self, other: &MSketch)
        requires
            cells_wf(old(self).cells@),
            cells_wf(other.cells@),
        ensures
            final(self).cells@ == difference_cells(old(self).cells@, other.cells@),
            cells_wf(final(self).cells@),
    {
        let ghost start = self.cells@;
        let ghost goal = difference_cells(start, other.cells@);
        let mut i: usize = 0;
        while i < self.cells.len() && i < other.cells.len()
            invariant
                self.cells@.len() == start.len(),
                goal == difference_cells(start, other.cells@),
                i <= start.len(),
                i <= other.cells@.len(),
                cells_wf(start),
                cells_wf(other.cells@),
                forall|j: int| 0 <= j < i ==> (#[trigger] self.cells@[j]) == goal[j],
                forall|j: int| i <= j < start.len() ==> (#[trigger] self.cells@[j]) == start[j],
            decreases start.len() - i,
        {
            let a: MCell = self.cells[i];
            let b: MCell = other.cells[i];
            assert(a == start[i as int]);
            assert(a.wf() && b.wf());
            self.cells.set(
                i,
                MCell {
                    sym: fsub(a.sym, b.sym),
                    hash: fsub(a.hash, b.hash),
                    count: sub_i64(a.count, b.count),
                },
            );
            i = i + 1;
        }
        assert(self.cells@ =~= goal);
        assert forall|j: int| 0 <= j < goal.len() implies (#[trigger] goal[j]).wf() by {
            assert(start[j].wf());
        }
    }

    /// Peels until a pass over the cells finds nothing more.
    pub fn peel(&self) -> (p: PeelOutcome)
        requires
            cells_wf(self.cells@),
        ensures
            p@ == peeled(self.cells@),
            cells_wf(p.cells@),
            p.cells@.len() == self.cells@.len(),
    {
        let cells: Vec<MCell> = self.cells.clone();
        assert(cells@ =~= self.cells@);
        let mut p = PeelOutcome { cells, inserted: Vec::new(), removed: Vec::new() };
        assert(p@ =~= Peeled::start(self.cells@));
        let mut fuel: u64 = u64::MAX;
        let mut changed: bool = true;
        while changed && fuel > 0
            invariant
                cells_wf(p.cells@),
                p.cells@.len() == self.cells@.len(),
                changed ==> p@.passes(fuel as nat) == peeled(self.cells@),
                !changed ==> p@ == peeled(self.cells@),
            decreases fuel,
        {
            changed = peel_pass(&mut p);
            fuel = fuel - 1;
        }
        p
    }

    /// Greedy peeling decoder: the field-reduced digests of the elements with a positive
    /// count, if peeling leaves nothing in the cells.
    pub fn try_decode(&self) -> (r: Option<Vec<u64>>)
        requires
            cells_wf(self.cells@),
        ensures
            r is Some <==> all_zero(peeled(self.cells@).cells),
            r matches Some(v) ==> v@ == peeled(self.cells@).inserted,
    {
        let p = self.peel();
        let mut i: usize = 0;
        while i < p.cells.len()
            invariant
                i <= p.cells@.len(),
                p@ == peeled(self.cells@),
                forall|j: int| 0 <= j < i ==> (#[trigger] p.cells@[j]) == MCell::zero(),
            decreases p.cells@.len() - i,
        {
            let c: MCell = p.cells[i];
            if c.sym != 0 || c.hash != 0 || c.count != 0 {
                assert(p@.cells[i as int] != MCell::zero());
                return None;
            }
            i = i + 1;
        }
        Some(p.inserted)
    }
}

/// A sketch of the given digests, inserted in order into `size` empty cells.
pub open spec fn sketch_of(digests: Seq<u64>, size: nat) -> Seq<MCell>
    decreases digests.len(),
{
    if digests.len() == 0 {
        Seq::new(size, |j: int| MCell::zero())
    } else {
        encoded(sketch_of(digests.drop_last(), size), digests.last(), 1)
    }
}

/// A sketch of the digests of a replica's set.
pub fn build_sketch(replica: &Replica, size: usize) -> (s: MSketch)
    ensures
        s.cells@ == sketch_of(replica::digests_of(replica.set@), size as nat),
        cells_wf(s.cells@),
        s.cells@.len() == size,
        size > 0 && replica.set@.len() <= i64::MAX && (forall|d: u64|
            replica::digests_of(replica.set@).contains(d) ==> #[trigger] mapping::hits(
                hash_of(d),
                size as int,
                0,
            ) <= 1) ==> s.cells@[0].count == replica.set@.len(),
{
    let mut sketch = MSketch::new(size);
    let elements = replica.set.elements();
    proof {
        replica.set.lemma_valid();
    }
    let ghost digests = replica.set.digests();
    let mut i: usize = 0;
    assert(digests.take(0) =~= Seq::<u64>::empty());
    while i < elements.len()
        invariant
            i <= elements@.len(),
            digests == replica.set.digests(),
            elements@ == replica.set.listed(),
            sketch.cells@ == sketch_of(digests.take(i as int), size as nat),
            sketch.cells@.len() == size,
            cells_wf(sketch.cells@),
        decreases elements@.len() - i,
    {
        sketch.encode_element(elements[i].digest, 1);
        proof {
            let next = digests.take(i + 1);
            assert(next.drop_last() =~= digests.take(i as int));
            assert(next.last() == elements@[i as int].digest);
        }
        i = i + 1;
    }
    assert(digests.take(i as int) =~= digests);
    proof {
        if size > 0 && digests.len() <= i64::MAX && (forall|d: u64|
            digests.contains(d) ==> #[trigger] mapping::hits(hash_of(d), size as int, 0) <= 1) {
            lemma_first_count(digests, size as nat);
        }
    }
    sketch
}

/// `k` copies of a digest make a pure cell, from which the digest is recovered.
pub proof fn lemma_copies_are_pure(k: i64, e: u64)
    requires
        k != 0,
        e < P,
    ensures
        MCell::zero().shifted(k as int, e as int, hash_of(e) as int % P as int, 1).pure(),
        MCell::zero().shifted(k as int, e as int, hash_of(e) as int % P as int, 1).candidate()
            == e,
{
    let h = hash_of(e) as int % P as int;
    let c = MCell::zero().shifted(k as int, e as int, h, 1);
    lemma_mod_bound(k * e, P as int);
    lemma_mod_bound(k * h, P as int);
    assert(c.count == k);
    assert(k as int % P as int != 0);
    lemma_product_over(k as int, e as int);
    lemma_small_mod(e as nat, P as nat);
    assert(c.candidate() == e);
    lemma_mul_mod_noop_right(h, k as int, P as int);
    assert(h * k == k * h) by (nonlinear_arith);
}

/// Removing what was inserted, or inserting what was removed, gives the sketch back.
pub proof fn lemma_encode_undone(cells: Seq<MCell>, digest: u64)
    requires
        cells_wf(cells),
    ensures
        encoded(encoded(cells, digest, 1), digest, -1) == cells,
        encoded(encoded(cells, digest, -1), digest, 1) == cells,
{
    let e = digest as int % P as int;
    let h = hash_of(digest) as int % P as int;
    let size = cells.len() as int;
    assert forall|j: int| 0 <= j < cells.len() implies #[trigger] encoded(
        encoded(cells, digest, 1),
        digest,
        -1,
    )[j] == cells[j] && encoded(encoded(cells, digest, -1), digest, 1)[j] == cells[j] by {
        let m = mapping::hits(hash_of(digest), size, j) as int;
        assert(cells[j].wf());
        lemma_shift_twice(cells[j], 1 * m, -1 * m, e, h, 1);
        lemma_shift_twice(cells[j], -1 * m, 1 * m, e, h, 1);
        lemma_shift_zero(cells[j], e, h, 1);
    }
    assert(encoded(encoded(cells, digest, 1), digest, -1) =~= cells);
    assert(encoded(encoded(cells, digest, -1), digest, 1) =~= cells);
}

proof fn lemma_mod_offset(x: int) -> (q: int)
    ensures
        x % P as int == x + P * q,
        forall|y: int| #[trigger] ((y + P * q) % P as int) == y % P as int,
{
    let q = -(x / P as int);
    lemma_fundamental_div_mod(x, P as int);
    assert forall|y: int| #[trigger] ((y + P * q) % P as int) == y % P as int by {
        lemma_mod_multiples_vanish(q, y, P as int);
    }
    q
}

proof fn lemma_mod_add_sub(a: int, b: int)
    requires
        0 <= a < P,
    ensures
        ((a + b) % P as int - b) % P as int == a,
{
    let q = lemma_mod_offset(a + b);
    assert((a + P * q) % P as int == a % P as int);
    lemma_small_mod(a as nat, P as nat);
}

proof fn lemma_mod_regroup(a: int, b: int, c: int)
    ensures
        (a + (b + c) % P as int) % P as int == ((a + b) % P as int + c) % P as int,
{
    let q = lemma_mod_offset(b + c);
    let r = lemma_mod_offset(a + b);
    assert((a + b + c + P * q) % P as int == (a + b + c) % P as int);
    assert((a + b + c + P * r) % P as int == (a + b + c) % P as int);
}

proof fn lemma_count_add_sub(a: i64, b: i64)
    ensures
        counter::wrap_i64(counter::wrap_i64(a + b) - b) == a,
{
    counter::lemma_wrap_i64_add(a + b, -b);
}

proof fn lemma_cell_add_sub(a: MCell, b: MCell)
    requires
        a.wf(),
    ensures
        cell_difference(cell_sum(a, b), b) == a,
{
    lemma_mod_add_sub(a.sym as int, b.sym as int);
    lemma_mod_add_sub(a.hash as int, b.hash as int);
    lemma_count_add_sub(a.count, b.count);
    lemma_mod_bound(a.sym + b.sym, P as int);
    lemma_mod_bound(a.hash + b.hash, P as int);
}

/// Subtracting a sketch that was added gives the first one back.
pub proof fn lemma_add_then_sub(a: Seq<MCell>, b: Seq<MCell>)
    requires
        cells_wf(a),
    ensures
        difference_cells(sum_cells(a, b), b) == a,
{
    assert forall|j: int| 0 <= j < a.len() implies #[trigger] difference_cells(
        sum_cells(a, b),
        b,
    )[j] == a[j] by {
        assert(a[j].wf());
        if j < b.len() {
            lemma_cell_add_sub(a[j], b[j]);
        }
    }
    assert(difference_cells(sum_cells(a, b), b) =~= a);
}

proof fn lemma_sum_shifted(a: MCell, b: MCell, m: int, e: int, h: int, d: int)
    ensures
        cell_sum(a, b.shifted(m, e, h, d)) == cell_sum(a, b).shifted(m, e, h, d),
{
    lemma_mod_regroup(a.sym as int, b.sym as int, m * e);
    lemma_mod_regroup(a.hash as int, b.hash as int, m * h);
    counter::lemma_wrap_i64_add(a.count as int, b.count + m * d);
    counter::lemma_wrap_i64_add(a.count + b.count, m * d);
}

/// A sketch has as many cells as asked for, and holds field elements.
pub proof fn lemma_sketch_wf(digests: Seq<u64>, size: nat)
    ensures
        sketch_of(digests, size).len() == size,
        cells_wf(sketch_of(digests, size)),
    decreases digests.len(),
{
    if digests.len() > 0 {
        lemma_sketch_wf(digests.drop_last(), size);
        let s = sketch_of(digests.drop_last(), size);
        let d = digests.last();
        assert forall|j: int| 0 <= j < size implies (#[trigger] sketch_of(
            digests,
            size,
        )[j]).wf() by {
            lemma_shift_wf(
                s[j],
                1 * mapping::hits(hash_of(d), size as int, j) as int,
                d as int % P as int,
                hash_of(d) as int % P as int,
                1,
            );
        }
    }
}

/// The sketch of two lists is the sum of their sketches.
pub proof fn lemma_sketch_of_both(a: Seq<u64>, b: Seq<u64>, size: nat)
    ensures
        sketch_of(a + b, size) == sum_cells(sketch_of(a, size), sketch_of(b, size)),
    decreases b.len(),
{
    lemma_sketch_wf(a, size);
    lemma_sketch_wf(b, size);
    let x = sketch_of(a, size);
    if b.len() == 0 {
        assert(a + b =~= a);
        assert forall|j: int| 0 <= j < size implies cell_sum(#[trigger] x[j], MCell::zero())
            == x[j] by {
            assert(x[j].wf());
        }
        assert(x =~= sum_cells(x, sketch_of(b, size)));
    } else {
        let c = b.drop_last();
        let d = b.last();
        lemma_sketch_of_both(a, c, size);
        lemma_sketch_wf(c, size);
        assert((a + b).drop_last() =~= a + c);
        let y = sketch_of(c, size);
        let left = sketch_of(a + b, size);
        let right = sum_cells(x, sketch_of(b, size));
        assert forall|j: int| 0 <= j < size implies #[trigger] left[j] == right[j] by {
            lemma_sum_shifted(
                x[j],
                y[j],
                1 * mapping::hits(hash_of(d), size as int, j) as int,
                d as int % P as int,
                hash_of(d) as int % P as int,
                1,
            );
        }
        assert(left =~= right);
    }
}

/// Subtracting the sketch of a part from the sketch of the whole leaves the sketch of the rest.
pub proof fn lemma_sketch_difference(a: Seq<u64>, b: Seq<u64>, size: nat)
    ensures
        difference_cells(sketch_of(a + b, size), sketch_of(b, size)) == sketch_of(a, size),
{
    lemma_sketch_of_both(a, b, size);
    lemma_sketch_wf(a, size);
    lemma_add_then_sub(sketch_of(a, size), sketch_of(b, size));
}

proof fn lemma_sketch_swap(a: Seq<u64>, b: Seq<u64>, size: nat)
    ensures
        sketch_of(a + b, size) == sketch_of(b + a, size),
{
    lemma_sketch_of_both(a, b, size);
    lemma_sketch_of_both(b, a, size);
    lemma_sketch_wf(a, size);
    lemma_sketch_wf(b, size);
    assert(sum_cells(sketch_of(a, size), sketch_of(b, size)) =~= sum_cells(
        sketch_of(b, size),
        sketch_of(a, size),
    ));
}

/// The order of insertion does not matter.
pub proof fn lemma_sketch_order(a: Seq<u64>, b: Seq<u64>, size: nat)
    requires
        a.to_multiset() == b.to_multiset(),
    ensures
        sketch_of(a, size) == sketch_of(b, size),
    decreases a.len(),
{
    broadcast use vstd::seq_lib::group_to_multiset_ensures;

    a.to_multiset_ensures();
    b.to_multiset_ensures();
    assert(a.len() == b.len());
    if a.len() > 0 {
        let x = a.last();
        assert(a.contains(x));
        assert(a.to_multiset().count(x) > 0);
        assert(b.contains(x));
        let i = choose|i: int| 0 <= i < b.len() && b[i] == x;
        let b1 = b.take(i);
        let b2 = b.skip(i + 1);
        let rest = b1 + b2;
        assert(b =~= b1 + (seq![x] + b2));
        assert(rest =~= b.remove(i));
        assert(a.drop_last() =~= a.remove(a.len() - 1));
        assert(a.drop_last().to_multiset() =~= a.to_multiset().remove(x));
        assert(rest.to_multiset() =~= b.to_multiset().remove(x));
        lemma_sketch_order(a.drop_last(), rest, size);
        lemma_sketch_of_both(b1, seq![x] + b2, size);
        lemma_sketch_swap(seq![x], b2, size);
        lemma_sketch_of_both(b1, b2 + seq![x], size);
        assert(b1 + (b2 + seq![x]) =~= rest.push(x));
        assert(rest.push(x).drop_last() =~= rest);
        assert(a =~= a.drop_last().push(x));
    } else {
        assert(a =~= b);
    }
}

/// The cells of a sketch do not depend on how many cells follow them: a sketch can be
/// extended without touching the cells already there.
pub proof fn lemma_sketch_prefix(digests: Seq<u64>, m: nat, n: nat)
    requires
        m <= n,
    ensures
        sketch_of(digests, n).take(m as int) == sketch_of(digests, m),
    decreases digests.len(),
{
    lemma_sketch_wf(digests, m);
    lemma_sketch_wf(digests, n);
    if digests.len() > 0 {
        lemma_sketch_prefix(digests.drop_last(), m, n);
        lemma_sketch_wf(digests.drop_last(), m);
        lemma_sketch_wf(digests.drop_last(), n);
        let d = digests.last();
        let short = sketch_of(digests.drop_last(), m);
        let long = sketch_of(digests.drop_last(), n);
        assert forall|j: int| 0 <= j < m implies #[trigger] sketch_of(digests, n)[j] == sketch_of(
            digests,
            m,
        )[j] by {
            assert(long.take(m as int)[j] == short[j]);
            mapping::lemma_hits_prefix(hash_of(d), m as int, n as int, j, 0);
        }
    }
    assert(sketch_of(digests, n).take(m as int) =~= sketch_of(digests, m));
}

/// Peeling a pure cell takes out as many copies of its digest as its count says, along the
/// digest's whole walk.
pub proof fn lemma_step_removes_copies(p: Peeled, i: int)
    requires
        0 <= i < p.cells.len(),
        cells_wf(p.cells),
        p.cells[i].pure(),
    ensures
        p.step(i).cells == spread(
            p.cells,
            hash_of(p.cells[i].candidate()),
            -p.cells[i].count,
            p.cells[i].candidate() as int,
            hash_of(p.cells[i].candidate()) as int % P as int,
            1,
        ),
{
    let c = p.cells[i];
    assert(c.wf());
    let e = c.candidate();
    let h = hash_of(e) as int % P as int;
    let k = c.count as int;
    let pp = P as int;
    assert(k % pp != 0);
    lemma_mod_bound(c.sym * inverse(k), pp);
    lemma_quotient_times(c.sym as int, k);
    lemma_small_mod(c.sym as nat, P as nat);
    assert(c.sym == (e * k) % pp);
    lemma_mul_mod_noop_right(h, k, pp);
    assert(c.hash == (h * k) % pp);
    let size = p.cells.len() as int;
    let right = spread(p.cells, hash_of(e), -k, e as int, h, 1);
    assert forall|j: int| 0 <= j < size implies #[trigger] p.step(i).cells[j] == right[j] by {
        let m = mapping::hits(hash_of(e), size, j) as int;
        let o = p.cells[j];
        lemma_scaled_mod(o.sym as int, m, e as int, k);
        lemma_scaled_mod(o.hash as int, m, h, k);
        assert(-1 * m * k == -k * m * 1) by (nonlinear_arith);
    }
    assert(p.step(i).cells =~= right);
}

proof fn lemma_scaled_mod(o: int, m: int, e: int, k: int)
    ensures
        (o + -1 * m * ((e * k) % P as int)) % P as int == (o + -k * m * e) % P as int,
{
    let p = P as int;
    let x = (e * k) % p;
    lemma_mul_mod_noop_right(-1 * m, e * k, p);
    assert(-1 * m * (e * k) == -k * m * e) by (nonlinear_arith);
    lemma_add_mod_noop(o, -1 * m * x, p);
    lemma_add_mod_noop(o, -k * m * e, p);
}

proof fn lemma_pass_all_zero(p: Peeled, n: nat)
    requires
        n <= p.cells.len(),
        all_zero(p.cells),
    ensures
        p.pass(n) == p,
    decreases n,
{
    if n > 0 {
        lemma_pass_all_zero(p, (n - 1) as nat);
        assert(p.cells[n - 1].count == 0);
    }
}

/// A sketch of copies of one digest decodes to that digest, where its walk meets no cell twice.
pub proof fn lemma_decode_one(k: i64, e: u64, size: nat)
    requires
        k != 0,
        e < P,
        0 < size,
        forall|j: int| 0 <= j < size ==> #[trigger] mapping::hits(hash_of(e), size as int, j) <= 1,
    ensures
        ({
            let cells = spread(
                Seq::new(size, |j: int| MCell::zero()),
                hash_of(e),
                k as int,
                e as int,
                hash_of(e) as int % P as int,
                1,
            );
            let p = peeled(cells);
            &&& p.cells == Seq::new(size, |j: int| MCell::zero())
            &&& all_zero(p.cells)
            &&& p.inserted == if k > 0 {
                seq![e]
            } else {
                Seq::empty()
            }
            &&& p.removed == if k > 0 {
                Seq::empty()
            } else {
                seq![e]
            }
        }),
{
    let h = hash_of(e) as int % P as int;
    let zeros = Seq::new(size, |j: int| MCell::zero());
    let cells = spread(zeros, hash_of(e), k as int, e as int, h, 1);
    let first = Peeled::start(cells);
    let m0 = mapping::hits(hash_of(e), size as int, 0);
    assert(m0 >= 1) by {
        assert(mapping::index_at(hash_of(e), 0) == 0);
    }
    assert(k * 1 == k);
    assert(cells[0] == MCell::zero().shifted(k as int, e as int, h, 1));
    lemma_copies_are_pure(k, e);
    assert(cells_wf(cells)) by {
        assert forall|j: int| 0 <= j < cells.len() implies (#[trigger] cells[j]).wf() by {
            lemma_shift_wf(
                MCell::zero(),
                k * mapping::hits(hash_of(e), size as int, j) as int,
                e as int,
                h,
                1,
            );
        }
    }
    lemma_step_removes_copies(first, 0);
    let second = first.step(0);
    assert forall|j: int| 0 <= j < size implies (#[trigger] second.cells[j]) == MCell::zero() by {
        let m = mapping::hits(hash_of(e), size as int, j) as int;
        lemma_shift_twice(MCell::zero(), k * m, -k * m, e as int, h, 1);
        assert(k * m + -k * m == 0) by (nonlinear_arith);
        lemma_shift_zero(MCell::zero(), e as int, h, 1);
    }
    assert(second.cells =~= zeros);
    lemma_pass_zero_after(first, second, size);
    lemma_pass_all_zero(second, size);
    reveal_with_fuel(Peeled::passes, 3);
    assert(first.pass(size) == second);
    assert(second.found() == 1);
    assert(second.passes((u64::MAX - 1) as nat) == second);
}

proof fn lemma_pass_zero_after(first: Peeled, second: Peeled, n: nat)
    requires
        first.step(0) == second,
        all_zero(second.cells),
        first.cells.len() > 0,
        0 < n <= first.cells.len(),
    ensures
        first.pass(n) == second,
    decreases n,
{
    if n == 1 {
        assert(first.pass(0) == first);
    } else {
        lemma_pass_zero_after(first, second, (n - 1) as nat);
        assert(second.cells.len() == first.cells.len());
        assert(second.cells[n - 1].count == 0);
    }
}

/// The cells after copies of digests were put back, the last of the list first.
pub open spec fn with_copies(cells: Seq<MCell>, copies: Seq<(u64, int)>) -> Seq<MCell>
    decreases copies.len(),
{
    if copies.len() == 0 {
        cells
    } else {
        let (e, k) = copies.last();
        with_copies(
            spread(cells, hash_of(e), k, e as int, hash_of(e) as int % P as int, 1),
            copies.drop_last(),
        )
    }
}

/// The digests with copies of the given sign, in order.
pub open spec fn with_sign(copies: Seq<(u64, int)>, positive: bool) -> Seq<u64>
    decreases copies.len(),
{
    if copies.len() == 0 {
        Seq::empty()
    } else if (copies.last().1 > 0) == positive {
        with_sign(copies.drop_last(), positive).push(copies.last().0)
    } else {
        with_sign(copies.drop_last(), positive)
    }
}

/// What was found, and what is left, make up the cells: some numbers of copies of the digests
/// found, put back into what is left, give the cells.
pub open spec fn accounts_for(p: Peeled, cells: Seq<MCell>) -> bool {
    exists|copies: Seq<(u64, int)>|
        {
            &&& #[trigger] with_copies(p.cells, copies) == cells
            &&& with_sign(copies, true) == p.inserted
            &&& with_sign(copies, false) == p.removed
        }
}

proof fn lemma_step_accounts(p: Peeled, i: int, cells: Seq<MCell>)
    requires
        accounts_for(p, cells),
        cells_wf(p.cells),
        0 <= i < p.cells.len(),
    ensures
        accounts_for(p.step(i), cells),
        cells_wf(p.step(i).cells),
        p.step(i).cells.len() == p.cells.len(),
{
    let c = p.cells[i];
    if c.pure() {
        let e = c.candidate();
        let h = hash_of(e) as int % P as int;
        let k = c.count as int;
        let next = p.step(i);
        let size = p.cells.len() as int;
        lemma_step_removes_copies(p, i);
        let back = spread(next.cells, hash_of(e), k, e as int, h, 1);
        assert forall|j: int| 0 <= j < size implies #[trigger] back[j] == p.cells[j] by {
            let m = mapping::hits(hash_of(e), size, j) as int;
            assert(p.cells[j].wf());
            lemma_shift_twice(p.cells[j], -k * m, k * m, e as int, h, 1);
            assert(-k * m + k * m == 0) by (nonlinear_arith);
            lemma_shift_zero(p.cells[j], e as int, h, 1);
        }
        assert(back =~= p.cells);
        assert forall|j: int| 0 <= j < size implies (#[trigger] next.cells[j]).wf() by {
            let m = mapping::hits(hash_of(e), size, j) as int;
            lemma_shift_wf(p.cells[j], -k * m, e as int, h, 1);
        }
        let copies = choose|copies: Seq<(u64, int)>|
            {
                &&& #[trigger] with_copies(p.cells, copies) == cells
                &&& with_sign(copies, true) == p.inserted
                &&& with_sign(copies, false) == p.removed
            };
        let more = copies.push((e, k));
        assert(more.drop_last() =~= copies);
        assert(with_copies(next.cells, more) == cells);
        assert(with_sign(more, true) == next.inserted);
        assert(with_sign(more, false) == next.removed);
    }
}

proof fn lemma_pass_accounts(p: Peeled, n: nat, cells: Seq<MCell>)
    requires
        accounts_for(p, cells),
        cells_wf(p.cells),
        n <= p.cells.len(),
    ensures
        accounts_for(p.pass(n), cells),
        cells_wf(p.pass(n).cells),
        p.pass(n).cells.len() == p.cells.len(),
    decreases n,
{
    if n > 0 {
        lemma_pass_accounts(p, (n - 1) as nat, cells);
        lemma_step_accounts(p.pass((n - 1) as nat), n - 1, cells);
    }
}

proof fn lemma_passes_account(p: Peeled, fuel: nat, cells: Seq<MCell>)
    requires
        accounts_for(p, cells),
        cells_wf(p.cells),
    ensures
        accounts_for(p.passes(fuel), cells),
        p.passes(fuel).cells.len() == p.cells.len(),
    decreases fuel,
{
    if fuel > 0 {
        lemma_pass_accounts(p, p.cells.len(), cells);
        let next = p.pass(p.cells.len());
        if next.found() != p.found() {
            lemma_passes_account(next, (fuel - 1) as nat, cells);
        }
    }
}

/// Nothing gets lost in peeling: what it finds and what it leaves make up the sketch. Where
/// it leaves nothing, the sketch is one of copies of the digests found.
pub proof fn lemma_peeling_accounts(cells: Seq<MCell>)
    requires
        cells_wf(cells),
    ensures
        accounts_for(peeled(cells), cells),
        peeled(cells).cells.len() == cells.len(),
{
    let start = Peeled::start(cells);
    let none = Seq::<(u64, int)>::empty();
    assert(with_copies(start.cells, none) == cells);
    assert(with_sign(none, true) =~= start.inserted);
    assert(with_sign(none, false) =~= start.removed);
    lemma_passes_account(start, u64::MAX as nat, cells);
}

/// Every walk of a listed digest meets each cell at most once.
pub open spec fn walks_once(digests: Seq<u64>, size: nat) -> bool {
    forall|d: u64, j: int|
        digests.contains(d) && 0 <= j < size ==> #[trigger] mapping::hits(
            hash_of(d),
            size as int,
            j,
        ) <= 1
}

/// The first cell of a sketch counts all insertions, where no walk meets it twice.
pub proof fn lemma_first_count(digests: Seq<u64>, size: nat)
    requires
        0 < size,
        digests.len() <= i64::MAX,
        forall|d: u64|
            digests.contains(d) ==> #[trigger] mapping::hits(hash_of(d), size as int, 0) <= 1,
    ensures
        sketch_of(digests, size)[0].count == digests.len(),
    decreases digests.len(),
{
    lemma_sketch_wf(digests, size);
    if digests.len() > 0 {
        let rest = digests.drop_last();
        let d = digests.last();
        assert(digests[digests.len() - 1] == d);
        assert forall|x: u64| rest.contains(x) implies #[trigger] mapping::hits(
            hash_of(x),
            size as int,
            0,
        ) <= 1 by {
            let i = choose|i: int| 0 <= i < rest.len() && rest[i] == x;
            assert(digests[i] == x);
        }
        lemma_first_count(rest, size);
        lemma_sketch_wf(rest, size);
        assert(mapping::index_at(hash_of(d), 0) == 0);
        assert(mapping::hits(hash_of(d), size as int, 0) == 1);
    }
}

/// A part of a list that holds a digest as often as the list, or not at all, for each digest.
pub open spec fn whole_part(part: Seq<u64>, digests: Seq<u64>) -> bool {
    forall|d: u64|
        #[trigger] part.to_multiset().count(d) == 0 || part.to_multiset().count(d)
            == digests.to_multiset().count(d)
}

/// All digests of the list that enter the cell are the same.
pub open spec fn one_holder(digests: Seq<u64>, size: nat, j: int) -> bool {
    forall|d: u64, e: u64|
        digests.contains(d) && digests.contains(e) && #[trigger] mapping::hits(
            hash_of(d),
            size as int,
            j,
        ) > 0 && #[trigger] mapping::hits(hash_of(e), size as int, j) > 0 ==> d == e
}

/// No cell that holds two different digests passes for a pure one, whatever has been peeled.
pub open spec fn no_collision(digests: Seq<u64>, size: nat) -> bool {
    forall|part: Seq<u64>, j: int|
        whole_part(part, digests) && 0 <= j < size && (#[trigger] sketch_of(part, size)[j]).pure()
            ==> one_holder(part, size, j)
}

proof fn lemma_shifts_commute(c: MCell, a: int, e: int, h: int, b: int, f: int, g: int)
    ensures
        c.shifted(a, e, h, 1).shifted(b, f, g, 1) == c.shifted(b, f, g, 1).shifted(a, e, h, 1),
{
    lemma_mod_twice(c.sym as int, a * e, b * f);
    lemma_mod_twice(c.hash as int, a * h, b * g);
    lemma_mod_bound(c.sym + a * e, P as int);
    lemma_mod_bound(c.sym + b * f, P as int);
    lemma_mod_bound(c.hash + a * h, P as int);
    lemma_mod_bound(c.hash + b * g, P as int);
    counter::lemma_wrap_i64_add(c.count + a * 1, b * 1);
    counter::lemma_wrap_i64_add(c.count + b * 1, a * 1);
}

proof fn lemma_mod_twice(c: int, x: int, y: int)
    ensures
        ((c + x) % P as int + y) % P as int == ((c + y) % P as int + x) % P as int,
{
    lemma_add_mod_noop(c + x, y, P as int);
    lemma_add_mod_noop((c + x) % P as int, y, P as int);
    lemma_add_mod_noop(c + y, x, P as int);
    lemma_add_mod_noop((c + y) % P as int, x, P as int);
}

/// Takes all copies of a digest out of a list. The sketch of the list is that of the rest
/// with the copies spread along the digest's walk.
proof fn lemma_split_off(list: Seq<u64>, d: u64, size: nat) -> (r: (Seq<u64>, nat))
    requires
        d < P,
    ensures
        r.1 == list.to_multiset().count(d),
        r.0.len() + r.1 == list.len(),
        r.0.to_multiset().count(d) == 0,
        forall|x: u64|
            x != d ==> #[trigger] r.0.to_multiset().count(x) == list.to_multiset().count(x),
        sketch_of(list, size) == spread(
            sketch_of(r.0, size),
            hash_of(d),
            r.1 as int,
            d as int,
            hash_of(d) as int % P as int,
            1,
        ),
    decreases list.len(),
{
    broadcast use vstd::seq_lib::group_to_multiset_ensures;

    let h = hash_of(d) as int % P as int;
    if list.len() == 0 {
        lemma_sketch_wf(list, size);
        let cells = sketch_of(list, size);
        assert forall|j: int| 0 <= j < size implies #[trigger] cells[j] == spread(
            cells,
            hash_of(d),
            0,
            d as int,
            h,
            1,
        )[j] by {
            assert(cells[j].wf());
            assert(0 * mapping::hits(hash_of(d), size as int, j) as int == 0) by (nonlinear_arith);
            lemma_shift_zero(cells[j], d as int, h, 1);
        }
        assert(cells =~= spread(cells, hash_of(d), 0, d as int, h, 1));
        list.to_multiset_ensures();
        (list, 0)
    } else {
        let x = list.last();
        let before = list.drop_last();
        let (rest, m) = lemma_split_off(before, d, size);
        lemma_sketch_wf(before, size);
        lemma_sketch_wf(rest, size);
        lemma_sketch_wf(list, size);
        assert(list =~= before.push(x));
        assert(list.to_multiset() =~= before.to_multiset().insert(x));
        let cells = sketch_of(rest, size);
        lemma_small_mod(d as nat, P as nat);
        if x == d {
            let goal = spread(cells, hash_of(d), (m + 1) as int, d as int, h, 1);
            assert forall|j: int| 0 <= j < size implies #[trigger] sketch_of(list, size)[j]
                == goal[j] by {
                let k = mapping::hits(hash_of(d), size as int, j) as int;
                lemma_shift_twice(cells[j], m * k, 1 * k, d as int, h, 1);
                assert(m * k + 1 * k == (m + 1) * k) by (nonlinear_arith);
            }
            assert(sketch_of(list, size) =~= goal);
            (rest, m + 1)
        } else {
            let more = rest.push(x);
            assert(more.drop_last() =~= rest);
            assert(more.to_multiset() =~= rest.to_multiset().insert(x));
            let goal = spread(sketch_of(more, size), hash_of(d), m as int, d as int, h, 1);
            assert forall|j: int| 0 <= j < size implies #[trigger] sketch_of(list, size)[j]
                == goal[j] by {
                lemma_shifts_commute(
                    cells[j],
                    m * mapping::hits(hash_of(d), size as int, j) as int,
                    d as int,
                    h,
                    1 * mapping::hits(hash_of(x), size as int, j) as int,
                    x as int % P as int,
                    hash_of(x) as int % P as int,
                );
            }
            assert(sketch_of(list, size) =~= goal);
            (more, m)
        }
    }
}

proof fn lemma_unmet_cell(list: Seq<u64>, size: nat, j: int)
    requires
        0 <= j < size,
        forall|d: u64|
            list.contains(d) ==> #[trigger] mapping::hits(hash_of(d), size as int, j) == 0,
    ensures
        sketch_of(list, size)[j] == MCell::zero(),
    decreases list.len(),
{
    if list.len() > 0 {
        let rest = list.drop_last();
        let d = list.last();
        assert(list[list.len() - 1] == d);
        assert forall|x: u64| rest.contains(x) implies #[trigger] mapping::hits(
            hash_of(x),
            size as int,
            j,
        ) == 0 by {
            let i = choose|i: int| 0 <= i < rest.len() && rest[i] == x;
            assert(list[i] == x);
        }
        lemma_unmet_cell(rest, size, j);
        lemma_sketch_wf(rest, size);
        lemma_shift_zero(
            MCell::zero(),
            d as int % P as int,
            hash_of(d) as int % P as int,
            1,
        );
        assert(1 * 0 == 0);
    }
}

/// What peeling has found and what it has left, for a list of digests: the cells are a sketch
/// of the digests not found yet, with all their copies.
spec fn peels(p: Peeled, left: Seq<u64>, digests: Seq<u64>, size: nat) -> bool {
    &&& p.cells == sketch_of(left, size)
    &&& p.removed == Seq::<u64>::empty()
    &&& p.inserted.no_duplicates()
    &&& whole_part(left, digests)
    &&& left.len() <= digests.len()
    &&& forall|d: u64|
        #![trigger digests.contains(d)]
        #![trigger p.inserted.contains(d)]
        #![trigger left.contains(d)]
        digests.contains(d) == (p.inserted.contains(d) || left.contains(d))
    &&& forall|d: u64|
        #![trigger p.inserted.contains(d)]
        #![trigger left.contains(d)]
        !(p.inserted.contains(d) && left.contains(d))
}

proof fn lemma_step_peels(p: Peeled, i: int, left: Seq<u64>, digests: Seq<u64>, size: nat) -> (next:
    Seq<u64>)
    requires
        peels(p, left, digests, size),
        0 <= i < size,
        digests.len() <= i64::MAX,
        forall|d: u64| #[trigger] digests.contains(d) ==> d < P,
        walks_once(digests, size),
        no_collision(digests, size),
    ensures
        peels(p.step(i), next, digests, size),
{
    broadcast use vstd::seq_lib::group_to_multiset_ensures;

    let c = p.cells[i];
    if !c.pure() {
        left
    } else {
        lemma_sketch_wf(left, size);
        left.to_multiset_ensures();
        digests.to_multiset_ensures();
        assert(one_holder(left, size, i));
        if forall|d: u64|
            left.contains(d) ==> #[trigger] mapping::hits(hash_of(d), size as int, i) == 0 {
            lemma_unmet_cell(left, size, i);
        }
        let d = choose|d: u64|
            left.contains(d) && #[trigger] mapping::hits(hash_of(d), size as int, i) != 0;
        assert(digests.contains(d));
        let h = hash_of(d) as int % P as int;
        let (rest, m) = lemma_split_off(left, d, size);
        lemma_sketch_wf(rest, size);
        assert forall|x: u64| #[trigger] rest.contains(x) == (left.contains(x) && x != d) by {
            assert(rest.contains(x) <==> rest.to_multiset().count(x) > 0);
            assert(left.contains(x) <==> left.to_multiset().count(x) > 0);
        }
        assert forall|x: u64| rest.contains(x) implies #[trigger] mapping::hits(
            hash_of(x),
            size as int,
            i,
        ) == 0 by {
            assert(left.contains(x));
        }
        lemma_unmet_cell(rest, size, i);
        assert(mapping::hits(hash_of(d), size as int, i) == 1);
        assert(m > 0) by {
            assert(left.contains(d) <==> left.to_multiset().count(d) > 0);
        }
        assert(m * 1 == m);
        assert(c == MCell::zero().shifted(m as int, d as int, h, 1));
        lemma_copies_are_pure(m as i64, d);
        assert(c.candidate() == d);
        assert(c.count == m);
        lemma_step_removes_copies(p, i);
        let next = p.step(i);
        let cells = sketch_of(rest, size);
        assert forall|j: int| 0 <= j < size implies #[trigger] next.cells[j] == cells[j] by {
            let k = mapping::hits(hash_of(d), size as int, j) as int;
            lemma_shift_twice(cells[j], m * k, -m * k, d as int, h, 1);
            assert(m * k + -m * k == 0) by (nonlinear_arith);
            assert(cells[j].wf());
            lemma_shift_zero(cells[j], d as int, h, 1);
        }
        assert(next.cells =~= cells);
        assert forall|x: u64| #[trigger] next.inserted.contains(x) == (p.inserted.contains(x) || x
            == d) by {
            if p.inserted.contains(x) {
                let k = choose|k: int| 0 <= k < p.inserted.len() && p.inserted[k] == x;
                assert(next.inserted[k] == x);
            }
            assert(next.inserted[p.inserted.len() as int] == d);
        }
        assert(!p.inserted.contains(d));
        assert(whole_part(rest, digests)) by {
            assert forall|x: u64|
                #[trigger] rest.to_multiset().count(x) == 0 || rest.to_multiset().count(x)
                    == digests.to_multiset().count(x) by {
                assert(left.to_multiset().count(x) == 0 || left.to_multiset().count(x)
                    == digests.to_multiset().count(x));
            }
        }
        rest
    }
}

proof fn lemma_pass_peels(p: Peeled, n: nat, left: Seq<u64>, digests: Seq<u64>, size: nat) -> (next:
    Seq<u64>)
    requires
        peels(p, left, digests, size),
        n <= size,
        digests.len() <= i64::MAX,
        forall|d: u64| #[trigger] digests.contains(d) ==> d < P,
        walks_once(digests, size),
        no_collision(digests, size),
    ensures
        peels(p.pass(n), next, digests, size),
    decreases n,
{
    if n == 0 {
        left
    } else {
        let before = lemma_pass_peels(p, (n - 1) as nat, left, digests, size);
        lemma_step_peels(p.pass((n - 1) as nat), n - 1, before, digests, size)
    }
}

proof fn lemma_passes_peel(p: Peeled, fuel: nat, left: Seq<u64>, digests: Seq<u64>, size: nat) -> (next:
    Seq<u64>)
    requires
        peels(p, left, digests, size),
        digests.len() <= i64::MAX,
        forall|d: u64| #[trigger] digests.contains(d) ==> d < P,
        walks_once(digests, size),
        no_collision(digests, size),
    ensures
        peels(p.passes(fuel), next, digests, size),
    decreases fuel,
{
    if fuel == 0 {
        left
    } else {
        lemma_sketch_wf(left, size);
        let after = lemma_pass_peels(p, size, left, digests, size);
        let next = p.pass(size);
        if next.found() == p.found() {
            after
        } else {
            lemma_passes_peel(next, (fuel - 1) as nat, after, digests, size)
        }
    }
}

/// Without collisions a sketch that decodes lists each digest that was inserted, once, and
/// nothing else. Digests are below `P`, and no walk meets a cell twice.
pub proof fn lemma_decoded_digests(digests: Seq<u64>, size: nat)
    requires
        0 < size,
        digests.len() <= i64::MAX,
        forall|d: u64| #[trigger] digests.contains(d) ==> d < P,
        walks_once(digests, size),
        no_collision(digests, size),
        all_zero(peeled(sketch_of(digests, size)).cells),
    ensures
        peeled(sketch_of(digests, size)).inserted.no_duplicates(),
        peeled(sketch_of(digests, size)).inserted.to_set() == digests.to_set(),
        peeled(sketch_of(digests, size)).removed.len() == 0,
{
    let start = Peeled::start(sketch_of(digests, size));
    let p = peeled(sketch_of(digests, size));
    let left = lemma_passes_peel(start, u64::MAX as nat, digests, digests, size);
    lemma_sketch_wf(left, size);
    if left.len() > 0 {
        assert forall|d: u64| left.contains(d) implies #[trigger] mapping::hits(
            hash_of(d),
            size as int,
            0,
        ) <= 1 by {
            assert(digests.contains(d));
        }
        lemma_first_count(left, size);
        assert(p.cells[0] == MCell::zero());
    }
    assert forall|d: u64| #[trigger] p.inserted.to_set().contains(d) == digests.to_set().contains(
        d,
    ) by {
        assert(digests.contains(d) == (p.inserted.contains(d) || left.contains(d)));
    }
    assert(p.inserted.to_set() =~= digests.to_set());
}

} // verus!
