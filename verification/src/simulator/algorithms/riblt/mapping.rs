//! The pseudo-random walk that decides which coded symbols an element enters.

use crate::simulator::algorithms::random;
use crate::simulator::binary64::{Binary64, MANT_MIN};
use crate::simulator::{algorithms::random::std_rng_bytes, algorithms::random::word_at, binary64};
use vstd::arithmetic::power2::*;
use vstd::prelude::*;

verus! {

/// The longest walk that one mapping can make: its byte stream is as long as a vector can be.
pub const MAX_DRAWS: usize = usize::MAX / 16;

/// Draws fetched ahead when a mapping is made.
const FIRST_DRAWS: usize = 16;

/// The `k`-th uniform draw of a generator seeded with `seed`, in units of `2^-52`.
pub open spec fn draw(seed: u64, k: int) -> int {
    random::std_rng_word(seed, k) / 4096
}

/// One and a half.
pub open spec fn one_and_half() -> Binary64 {
    Binary64::of((0x18_0000_0000_0000int, -52int))
}

/// The distance from index `i` to the next one, for a draw `r` in units of `2^-52`:
/// the double-precision value of `ceil((1.5 + i) * (1 / sqrt(1 - r) - 1))`.
pub open spec fn gap(i: int, r: int) -> int {
    let rest = Binary64::of(binary64::nearest((MANT_MIN - r) as nat, -52));
    let root = Binary64::of(rest.root());
    let inverse = Binary64::of(Binary64::of((MANT_MIN as int, -52int)).quotient(root));
    let excess = Binary64::of(inverse.less_one());
    let base = Binary64::of(one_and_half().sum(Binary64::of(binary64::nearest(i as nat, 0))));
    Binary64::of(base.product(excess)).ceiling()
}

/// The `k`-th index of the walk of `seed`. Walks start at 0 and stop growing at the
/// largest `usize`.
pub open spec fn index_at(seed: u64, k: nat) -> int
    decreases k,
{
    if k == 0 {
        0
    } else {
        let i = index_at(seed, (k - 1) as nat);
        let next = i + gap(i, draw(seed, k - 1));
        if next > usize::MAX {
            usize::MAX as int
        } else {
            next
        }
    }
}

/// How often index `j` occurs in the walk of `seed`, from its `k`-th index up to the
/// first one at or past `size`.
pub open spec fn hits_from(seed: u64, size: int, j: int, k: nat) -> nat
    decreases MAX_DRAWS - k,
{
    if k >= MAX_DRAWS || index_at(seed, k) >= size {
        0
    } else {
        (if index_at(seed, k) == j {
            1nat
        } else {
            0nat
        }) + hits_from(seed, size, j, k + 1)
    }
}

/// How often index `j` occurs in the walk of `seed` before it leaves the first `size` indices.
pub open spec fn hits(seed: u64, size: int, j: int) -> nat {
    hits_from(seed, size, j, 0)
}

proof fn lemma_gap_not_negative(i: int, r: int)
    ensures
        gap(i, r) >= 0,
{
    let rest = Binary64::of(binary64::nearest((MANT_MIN - r) as nat, -52));
    let root = Binary64::of(rest.root());
    let inverse = Binary64::of(Binary64::of((MANT_MIN as int, -52int)).quotient(root));
    let excess = Binary64::of(inverse.less_one());
    let base = Binary64::of(one_and_half().sum(Binary64::of(binary64::nearest(i as nat, 0))));
    let x = Binary64::of(base.product(excess));
    if x.exp >= 0 {
        lemma_pow2_pos(x.exp as nat);
        assert(x.mant * pow2(x.exp as nat) >= 0) by (nonlinear_arith)
            requires
                pow2(x.exp as nat) > 0,
        ;
    } else {
        let d = pow2((-x.exp) as nat) as int;
        lemma_pow2_pos((-x.exp) as nat);
        assert((x.mant + d - 1) / d >= 0) by (nonlinear_arith)
            requires
                d > 0,
        ;
    }
}

/// A walk never goes back.
pub proof fn lemma_walk_ascends(seed: u64, j: nat, k: nat)
    requires
        j <= k,
    ensures
        0 <= index_at(seed, j) <= index_at(seed, k) <= usize::MAX,
    decreases k,
{
    if k > 0 {
        lemma_walk_ascends(
            seed,
            if j == k {
                (k - 1) as nat
            } else {
                j
            },
            (k - 1) as nat,
        );
        lemma_gap_not_negative(index_at(seed, (k - 1) as nat), draw(seed, k - 1));
    }
}

proof fn lemma_hits_from_past(seed: u64, size: int, j: int, k: nat)
    requires
        j < index_at(seed, k),
    ensures
        hits_from(seed, size, j, k) == 0,
    decreases MAX_DRAWS - k,
{
    if !(k >= MAX_DRAWS || index_at(seed, k) >= size) {
        lemma_walk_ascends(seed, k, k + 1);
        lemma_hits_from_past(seed, size, j, k + 1);
    }
}

/// How often a walk meets an index does not depend on how many indices follow it.
pub proof fn lemma_hits_prefix(seed: u64, m: int, n: int, j: int, k: nat)
    requires
        j < m <= n,
    ensures
        hits_from(seed, m, j, k) == hits_from(seed, n, j, k),
    decreases MAX_DRAWS - k,
{
    if k < MAX_DRAWS {
        if index_at(seed, k) < m {
            lemma_hits_prefix(seed, m, n, j, k + 1);
        } else {
            lemma_hits_from_past(seed, n, j, k);
        }
    }
}

proof fn lemma_root_of_one(one: Binary64)
    requires
        one.parts() == (MANT_MIN as int, -52int),
    ensures
        one.root() == (MANT_MIN as int, -52int),
{
    lemma2_to64_rest();
    let n = MANT_MIN * pow2(52);
    let m: int = 0x10_0000_0000_0000;
    assert(n == m * m);
    assert(binary64::is_nearest_sqrt(m, m * m)) by (nonlinear_arith)
        requires
            m > 1,
    ;
    binary64::lemma_nearest_sqrt_unique(MANT_MIN as int, binary64::nearest_sqrt(n), n);
}

proof fn lemma_unit_exact(x: nat)
    requires
        0 < x <= MANT_MIN,
    ensures
        x == MANT_MIN ==> binary64::nearest(x, -52) == (MANT_MIN as int, -52int),
        x < MANT_MIN ==> binary64::nearest(x, -52).1 <= -53,
        binary64::nearest(x, -52).1 >= -104,
{
    binary64::lemma_doublings(x);
    lemma2_to64();
    assert(x * pow2(0) == x);
}

/// The distance from index `i` to the next one, at most the largest `usize`.
fn gap_after(i: usize, r: u64) -> (d: usize)
    requires
        r < MANT_MIN,
    ensures
        gap(i as int, r as int) <= usize::MAX ==> d == gap(i as int, r as int),
        gap(i as int, r as int) > usize::MAX ==> d == usize::MAX,
{
    let rest = Binary64::from_ratio_52(MANT_MIN - r);
    proof {
        lemma_unit_exact((MANT_MIN - r) as nat);
        if r == 0 {
            lemma_root_of_one(rest);
        }
    }
    let root = rest.sqrt();
    let inverse = Binary64::one().over(root);
    proof {
        lemma2_to64_rest();
        if -inverse.exp < 52 {
            lemma_pow2_strictly_increases((-inverse.exp) as nat, 52);
        }
    }
    let excess = inverse.minus_one();
    let base = Binary64 { mant: 0x18_0000_0000_0000, exp: -52 }.plus(Binary64::from_u64(i as u64));
    base.times(excess).ceil_usize()
}

/// A deterministic walk over coded-symbol indices, driven by a seeded generator.
#[derive(Debug)]
pub struct SymbolMapping {
    seed: u64,
    stream: Vec<u8>,
    drawn: usize,
    last_mapped_idx: usize,
}

impl SymbolMapping {
    /// The seed of the walk.
    pub closed spec fn seed(self) -> u64 {
        self.seed
    }

    /// How many indices have been handed out.
    pub closed spec fn drawn(self) -> nat {
        self.drawn as nat
    }

    pub closed spec fn wf(self) -> bool {
        &&& self.drawn <= MAX_DRAWS
        &&& self.last_mapped_idx == index_at(self.seed, self.drawn as nat)
        &&& self.stream@.len() % 8 == 0
        &&& 8 * self.drawn <= self.stream@.len() <= 8 * MAX_DRAWS
        &&& self.stream@ == Seq::new(
            self.stream@.len(),
            |i: int| random::std_rng_byte(self.seed, i),
        )
    }

    /// The walk of `seed`, at its start.
    pub fn new(seed: u64) -> (m: Self)
        ensures
            m.wf(),
            m.seed() == seed,
            m.drawn() == 0,
    {
        let stream = std_rng_bytes(seed, 8 * FIRST_DRAWS);
        SymbolMapping { seed, stream, drawn: 0, last_mapped_idx: 0 }
    }

    /// The next index of the walk. Walks end after `MAX_DRAWS` indices.
    pub fn next(&mut self) -> (r: Option<usize>)
        requires
            old(self).wf(),
        ensures
            final(self).wf(),
            final(self).seed() == old(self).seed(),
            match r {
                Some(i) => {
                    &&& old(self).drawn() < MAX_DRAWS
                    &&& i == index_at(old(self).seed(), old(self).drawn())
                    &&& final(self).drawn() == old(self).drawn() + 1
                },
                None => old(self).drawn() == MAX_DRAWS && *final(self) == *old(self),
            },
    {
        if self.drawn == MAX_DRAWS {
            return None;
        }
        if 8 * self.drawn == self.stream.len() {
            let doubled: usize = if self.drawn > MAX_DRAWS / 2 {
                MAX_DRAWS
            } else {
                2 * self.drawn
            };
            let len: usize = if doubled < FIRST_DRAWS {
                FIRST_DRAWS
            } else {
                doubled
            };
            self.stream = std_rng_bytes(self.seed, 8 * len);
        }
        let w: u64 = word_at(&self.stream, 8 * self.drawn);
        assert(self.stream@.subrange(8 * self.drawn as int, 8 * self.drawn + 8) =~= Seq::new(
            8,
            |j: int| random::std_rng_byte(self.seed, 8 * self.drawn + j),
        ));
        let d: usize = gap_after(self.last_mapped_idx, w / 4096);
        let index: usize = self.last_mapped_idx;
        self.last_mapped_idx = index.saturating_add(d);
        self.drawn = self.drawn + 1;
        Some(index)
    }
}

/// A walk takes one draw for each step: from its `k`-th index it goes on by the gap that the
/// `k`-th word of its generator asks for, as far as indices reach.
pub proof fn lemma_walk_steps(seed: u64, k: nat)
    ensures
        index_at(seed, 0) == 0,
        ({
            let i = index_at(seed, k);
            let next = i + gap(i, random::std_rng_word(seed, k as int) / 4096);
            index_at(seed, k + 1) == if next < usize::MAX {
                next
            } else {
                usize::MAX as int
            }
        }),
{
}

} // verus!
