//! A counting Bloom filter over digests.

use crate::simulator::counter;
use crate::simulator::counter::mul_usize;
use vstd::prelude::*;

verus! {

/// The two multipliers from which a digest's slots are derived. They are fixed, so filters
/// of different replicas can be added up.
pub const CBF_SEED_0: u64 = 0x517c_c1b7_2722_0a95;

pub const CBF_SEED_1: u64 = 0x6c62_272e_07bb_0142;

/// The `i`-th slot of a digest among `len` cells.
pub open spec fn slot(digest: u64, i: int, len: int) -> int {
    counter::wrap_u64(digest * CBF_SEED_0 + i * (digest * CBF_SEED_1)) as int % len
}

/// How many of the first `k` slots of a digest are cell `j`.
pub open spec fn occurrences(digest: u64, k: nat, len: int, j: int) -> nat
    decreases k,
{
    if k == 0 {
        0
    } else {
        occurrences(digest, (k - 1) as nat, len, j) + if slot(digest, k - 1, len) == j {
            1nat
        } else {
            0nat
        }
    }
}

/// The counter value nearest to `x`.
pub open spec fn capped(x: int) -> u32 {
    if x > u32::MAX {
        u32::MAX
    } else if x < 0 {
        0
    } else {
        x as u32
    }
}

/// The cells after a digest was inserted with `k` hashes.
pub open spec fn inserted(cells: Seq<u32>, k: nat, digest: u64) -> Seq<u32> {
    Seq::new(
        cells.len(),
        |j: int| capped(cells[j] + occurrences(digest, k, cells.len() as int, j)),
    )
}

/// Whether `r` is the smallest of the digest's `k` slots, or zero when there are none.
pub open spec fn is_query(cells: Seq<u32>, k: nat, digest: u64, r: u32) -> bool {
    if k == 0 {
        r == 0
    } else {
        &&& exists|i: int|
            0 <= i < k && r == #[trigger] cells[slot(digest, i, cells.len() as int)]
        &&& forall|i: int|
            0 <= i < k ==> r <= #[trigger] cells[slot(digest, i, cells.len() as int)]
    }
}

/// The smallest of the digest's `k` slots, or zero when there are none.
pub open spec fn query_of(cells: Seq<u32>, k: nat, digest: u64) -> u32 {
    choose|r: u32| is_query(cells, k, digest, r)
}

/// There is one smallest slot.
pub proof fn lemma_query_unique(cells: Seq<u32>, k: nat, digest: u64, r: u32)
    requires
        is_query(cells, k, digest, r),
    ensures
        query_of(cells, k, digest) == r,
{
    let q = query_of(cells, k, digest);
    assert(is_query(cells, k, digest, q));
}

/// The counters after a list of digests was inserted.
pub open spec fn inserted_all(cells: Seq<u32>, k: nat, digests: Seq<u64>) -> Seq<u32>
    decreases digests.len(),
{
    if digests.len() == 0 {
        cells
    } else {
        inserted(inserted_all(cells, k, digests.drop_last()), k, digests.last())
    }
}

/// Cell-wise sums, as far as both filters reach.
pub open spec fn added(a: Seq<u32>, b: Seq<u32>) -> Seq<u32> {
    Seq::new(
        a.len(),
        |j: int|
            if j < b.len() {
                capped(a[j] + b[j])
            } else {
                a[j]
            },
    )
}

/// Cell-wise differences, as far as both filters reach.
pub open spec fn subtracted(a: Seq<u32>, b: Seq<u32>) -> Seq<u32> {
    Seq::new(
        a.len(),
        |j: int|
            if j < b.len() {
                capped(a[j] - b[j])
            } else {
                a[j]
            },
    )
}

proof fn lemma_wrapped_slot(digest: u64, i: u64)
    ensures
        counter::wrap_u64(
            counter::wrap_u64(digest * CBF_SEED_0) + counter::wrap_u64(
                i * counter::wrap_u64(digest * CBF_SEED_1),
            ),
        ) == counter::wrap_u64(digest * CBF_SEED_0 + i * (digest * CBF_SEED_1)),
{
    let m: int = 0x1_0000_0000_0000_0000;
    let a = digest * CBF_SEED_0;
    let b = digest * CBF_SEED_1;
    vstd::arithmetic::div_mod::lemma_mul_mod_noop_right(i as int, b, m);
    assert(i * (b % m) == i * counter::wrap_u64(b));
    counter::lemma_wrap_u64_add(a, counter::wrap_u64(i * counter::wrap_u64(b)) as int);
    counter::lemma_wrap_u64_add(a, i * counter::wrap_u64(b));
    counter::lemma_wrap_u64_add(a, i * b);
}

/// A filter of 32-bit counters that stop at their largest value instead of wrapping.
#[derive(Debug)]
pub struct CountingBf {
    cells: Vec<u32>,
    num_hashes: usize,
}

impl CountingBf {
    /// The counters.
    pub closed spec fn counters(self) -> Seq<u32> {
        self.cells@
    }

    /// The number of slots of a digest.
    pub closed spec fn hashes(self) -> nat {
        self.num_hashes as nat
    }

    /// There is a cell for every slot.
    pub open spec fn usable(self) -> bool {
        self.counters().len() > 0 || self.hashes() == 0
    }

    /// A filter of `num_cells` zero counters and `num_hashes` slots for each digest.
    pub fn new(num_cells: usize, num_hashes: usize) -> (f: Self)
        ensures
            f.counters() == Seq::new(num_cells as nat, |j: int| 0u32),
            f.hashes() == num_hashes,
    {
        let mut cells: Vec<u32> = Vec::new();
        let mut i: usize = 0;
        while i < num_cells
            invariant
                i <= num_cells,
                cells@ == Seq::new(i as nat, |j: int| 0u32),
            decreases num_cells - i,
        {
            cells.push(0);
            i = i + 1;
        }
        CountingBf { cells, num_hashes }
    }

    /// The `i`-th slot of a digest.
    fn slot_at(&self, digest: u64, i: usize) -> (s: usize)
        requires
            self.counters().len() > 0,
        ensures
            s == slot(digest, i as int, self.counters().len() as int),
            s < self.counters().len(),
    {
        let h0: u64 = digest.wrapping_mul(CBF_SEED_0);
        let h1: u64 = digest.wrapping_mul(CBF_SEED_1);
        let h: u64 = h0.wrapping_add((i as u64).wrapping_mul(h1));
        proof {
            assert(digest * CBF_SEED_0 >= 0 && digest * CBF_SEED_1 >= 0) by (nonlinear_arith);
            assert(i * h1 >= 0) by (nonlinear_arith);
            assert(h0 == counter::wrap_u64(digest * CBF_SEED_0));
            assert(h1 == counter::wrap_u64(digest * CBF_SEED_1));
            lemma_wrapped_slot(digest, i as u64);
        }
        (h % self.cells.len() as u64) as usize
    }

    /// Increment all slots of the digest.
    pub fn insert(&mut self, digest: u64)
        requires
            old(self).usable(),
        ensures
            final(self).counters() == inserted(old(self).counters(), old(self).hashes(), digest),
            final(self).hashes() == old(self).hashes(),
    {
        let ghost start = self.cells@;
        let mut i: usize = 0;
        while i < self.num_hashes
            invariant
                i <= self.num_hashes,
                self.num_hashes == old(self).num_hashes,
                self.usable(),
                self.cells@.len() == start.len(),
                forall|j: int|
                    0 <= j < start.len() ==> #[trigger] self.cells@[j] == capped(
                        start[j] + occurrences(digest, i as nat, start.len() as int, j),
                    ),
            decreases self.num_hashes - i,
        {
            let s: usize = self.slot_at(digest, i);
            let ghost before = self.cells@;
            let v: u32 = self.cells[s];
            let w: u32 = if v < u32::MAX {
                v + 1
            } else {
                v
            };
            self.cells.set(s, w);
            i = i + 1;
            assert forall|j: int| 0 <= j < start.len() implies #[trigger] self.cells@[j] == capped(
                start[j] + occurrences(digest, i as nat, start.len() as int, j),
            ) by {
                assert(before[j] == capped(
                    start[j] + occurrences(digest, (i - 1) as nat, start.len() as int, j),
                ));
            }
        }
        assert(self.cells@ =~= inserted(start, self.num_hashes as nat, digest));
    }

    /// Cell-wise saturating addition, as far as both filters reach.
    pub fn add(&mut self, other: &CountingBf)
        ensures
            final(self).counters() == added(old(self).counters(), other.counters()),
            final(self).hashes() == old(self).hashes(),
    {
        let ghost start = self.cells@;
        let mut i: usize = 0;
        while i < self.cells.len() && i < other.cells.len()
            invariant
                self.num_hashes == old(self).num_hashes,
                self.cells@.len() == start.len(),
                i <= start.len(),
                i <= other.cells@.len(),
                forall|j: int|
                    0 <= j < i ==> #[trigger] self.cells@[j] == capped(start[j] + other.cells@[j]),
                forall|j: int| i <= j < start.len() ==> #[trigger] self.cells@[j] == start[j],
            decreases start.len() - i,
        {
            let v: u32 = self.cells[i].saturating_add(other.cells[i]);
            self.cells.set(i, v);
            i = i + 1;
        }
        assert(self.counters() =~= added(start, other.counters()));
    }

    /// Cell-wise saturating subtraction, as far as both filters reach.
    pub fn sub(&mut self, other: &CountingBf)
        ensures
            final(self).counters() == subtracted(old(self).counters(), other.counters()),
            final(self).hashes() == old(self).hashes(),
    {
        let ghost start = self.cells@;
        let mut i: usize = 0;
        while i < self.cells.len() && i < other.cells.len()
            invariant
                self.num_hashes == old(self).num_hashes,
                self.cells@.len() == start.len(),
                i <= start.len(),
                i <= other.cells@.len(),
                forall|j: int|
                    0 <= j < i ==> #[trigger] self.cells@[j] == capped(start[j] - other.cells@[j]),
                forall|j: int| i <= j < start.len() ==> #[trigger] self.cells@[j] == start[j],
            decreases start.len() - i,
        {
            let v: u32 = self.cells[i].saturating_sub(other.cells[i]);
            self.cells.set(i, v);
            i = i + 1;
        }
        assert(self.counters() =~= subtracted(start, other.counters()));
    }

    /// The smallest of the digest's slots: an upper bound on how often it was inserted.
    pub fn query(&self, digest: u64) -> (r: u32)
        requires
            self.usable(),
        ensures
            is_query(self.counters(), self.hashes(), digest, r),
            r == query_of(self.counters(), self.hashes(), digest),
    {
        let r: u32 = self.smallest_slot(digest);
        proof {
            lemma_query_unique(self.cells@, self.num_hashes as nat, digest, r);
        }
        r
    }

    fn smallest_slot(&self, digest: u64) -> (r: u32)
        requires
            self.usable(),
        ensures
            is_query(self.counters(), self.hashes(), digest, r),
    {
        if self.num_hashes == 0 {
            return 0;
        }
        let first: usize = self.slot_at(digest, 0);
        let mut r: u32 = self.cells[first];
        let mut i: usize = 1;
        let ghost len = self.cells@.len() as int;
        let ghost mut at: int = 0;
        while i < self.num_hashes
            invariant
                1 <= i <= self.num_hashes,
                self.usable(),
                len == self.cells@.len(),
                0 <= at < i,
                r == self.cells@[slot(digest, at, len)],
                forall|l: int| 0 <= l < i ==> r <= #[trigger] self.cells@[slot(digest, l, len)],
            decreases self.num_hashes - i,
        {
            let s: usize = self.slot_at(digest, i);
            if self.cells[s] < r {
                r = self.cells[s];
                proof {
                    at = i as int;
                }
            }
            i = i + 1;
        }
        r
    }

    /// Serialised byte length: 4 bytes for each counter.
    pub fn byte_len(&self) -> (n: usize)
        ensures
            n == counter::wrap_usize((self.counters().len() * 4) as int),
            self.counters().len() * 4 <= usize::MAX ==> n == self.counters().len() * 4,
    {
        mul_usize(self.cells.len(), 4)
    }
}

proof fn lemma_occurs(digest: u64, k: nat, len: int, i: int)
    requires
        0 <= i < k,
    ensures
        occurrences(digest, k, len, slot(digest, i, len)) >= 1,
    decreases k,
{
    if i < k - 1 {
        lemma_occurs(digest, (k - 1) as nat, len, i);
    }
}

/// A query after an insertion of the digest answers more than before, unless the counters
/// were full: inserted digests are always found.
pub proof fn lemma_insert_counts(cells: Seq<u32>, k: nat, digest: u64, before: u32, after: u32)
    requires
        k > 0,
        cells.len() > 0,
        is_query(cells, k, digest, before),
        is_query(inserted(cells, k, digest), k, digest, after),
    ensures
        after >= 1,
        before < u32::MAX ==> after > before,
        before == u32::MAX ==> after == before,
{
    let len = cells.len() as int;
    let new = inserted(cells, k, digest);
    let i = choose|i: int| 0 <= i < k && after == #[trigger] new[slot(digest, i, len)];
    lemma_occurs(digest, k, len, i);
    let s = slot(digest, i, len);
    assert(0 <= s < len) by {
        vstd::arithmetic::div_mod::lemma_mod_bound(
            counter::wrap_u64(digest * CBF_SEED_0 + i * (digest * CBF_SEED_1)) as int,
            len,
        );
    }
    assert(before <= cells[s]);
}

/// Inserting another digest never lowers an answer.
pub proof fn lemma_insert_keeps(
    cells: Seq<u32>,
    k: nat,
    digest: u64,
    other: u64,
    before: u32,
    after: u32,
)
    requires
        cells.len() > 0,
        is_query(cells, k, digest, before),
        is_query(inserted(cells, k, other), k, digest, after),
    ensures
        after >= before,
{
    if k > 0 {
        let len = cells.len() as int;
        let new = inserted(cells, k, other);
        let i = choose|i: int| 0 <= i < k && after == #[trigger] new[slot(digest, i, len)];
        let s = slot(digest, i, len);
        assert(0 <= s < len) by {
            vstd::arithmetic::div_mod::lemma_mod_bound(
                counter::wrap_u64(digest * CBF_SEED_0 + i * (digest * CBF_SEED_1)) as int,
                len,
            );
        }
        assert(before <= cells[s]);
    }
}

/// Subtracting a filter that was added gives the first one back, unless a sum was capped.
pub proof fn lemma_add_then_sub(a: Seq<u32>, b: Seq<u32>)
    requires
        forall|j: int|
            0 <= j < a.len() && j < b.len() ==> (#[trigger] a[j]) + (#[trigger] b[j]) <= u32::MAX,
    ensures
        subtracted(added(a, b), b) == a,
{
    assert forall|j: int| 0 <= j < a.len() implies subtracted(added(a, b), b)[j] == a[j] by {
        if j < b.len() {
            assert(a[j] + b[j] <= u32::MAX);
        }
    }
    assert(subtracted(added(a, b), b) =~= a);
}

/// The filter of no digests answers zero.
pub proof fn lemma_empty_answers_zero(len: nat, k: nat, digest: u64, r: u32)
    requires
        len > 0,
        is_query(Seq::new(len, |j: int| 0u32), k, digest, r),
    ensures
        r == 0,
{
    if k > 0 {
        let cells = Seq::new(len, |j: int| 0u32);
        let i = choose|i: int| 0 <= i < k && r == #[trigger] cells[slot(digest, i, len as int)];
        vstd::arithmetic::div_mod::lemma_mod_bound(
            counter::wrap_u64(digest * CBF_SEED_0 + i * (digest * CBF_SEED_1)) as int,
            len as int,
        );
    }
}

/// How many slots of the listed digests are cell `j`.
pub open spec fn occurrences_in_all(digests: Seq<u64>, k: nat, len: int, j: int) -> nat
    decreases digests.len(),
{
    if digests.len() == 0 {
        0
    } else {
        occurrences_in_all(digests.drop_last(), k, len, j) + occurrences(
            digests.last(),
            k,
            len,
            j,
        )
    }
}

/// How often a digest is listed.
pub open spec fn times(digests: Seq<u64>, d: u64) -> nat
    decreases digests.len(),
{
    if digests.len() == 0 {
        0
    } else {
        times(digests.drop_last(), d) + if digests.last() == d {
            1nat
        } else {
            0
        }
    }
}

/// After a list of digests was inserted, every counter has grown by the number of their slots
/// that it is, up to its largest value.
pub proof fn lemma_inserted_all(cells: Seq<u32>, k: nat, digests: Seq<u64>)
    ensures
        inserted_all(cells, k, digests).len() == cells.len(),
        forall|j: int|
            0 <= j < cells.len() ==> #[trigger] inserted_all(cells, k, digests)[j] == capped(
                cells[j] + occurrences_in_all(digests, k, cells.len() as int, j),
            ),
    decreases digests.len(),
{
    if digests.len() > 0 {
        let rest = digests.drop_last();
        lemma_inserted_all(cells, k, rest);
        let before = inserted_all(cells, k, rest);
        let after = inserted_all(cells, k, digests);
        assert forall|j: int| 0 <= j < cells.len() implies #[trigger] after[j] == capped(
            cells[j] + occurrences_in_all(digests, k, cells.len() as int, j),
        ) by {
            assert(before[j] == capped(
                cells[j] + occurrences_in_all(rest, k, cells.len() as int, j),
            ));
        }
    }
}

proof fn lemma_occurrences_without(digests: Seq<u64>, k: nat, len: int, j: int, i: int)
    requires
        0 <= i < digests.len(),
    ensures
        occurrences_in_all(digests, k, len, j) == occurrences_in_all(
            digests.remove(i),
            k,
            len,
            j,
        ) + occurrences(digests[i], k, len, j),
    decreases digests.len(),
{
    let less = digests.remove(i);
    if i == digests.len() - 1 {
        assert(less =~= digests.drop_last());
    } else {
        let rest = digests.drop_last();
        lemma_occurrences_without(rest, k, len, j, i);
        assert(less.drop_last() =~= rest.remove(i));
        assert(less.last() == digests.last());
    }
}

proof fn lemma_occurrences_order(a: Seq<u64>, b: Seq<u64>, k: nat, len: int, j: int)
    requires
        a.to_multiset() == b.to_multiset(),
    ensures
        occurrences_in_all(a, k, len, j) == occurrences_in_all(b, k, len, j),
    decreases a.len(),
{
    broadcast use vstd::seq_lib::group_to_multiset_ensures;

    assert(a.len() == a.to_multiset().len());
    assert(b.len() == b.to_multiset().len());
    if a.len() > 0 {
        let d = a.last();
        assert(a[a.len() - 1] == d);
        assert(a.contains(d));
        assert(a.to_multiset().count(d) > 0);
        assert(b.contains(d));
        let i = choose|i: int| 0 <= i < b.len() && b[i] == d;
        assert(a.drop_last() =~= a.remove(a.len() - 1));
        lemma_occurrences_order(a.drop_last(), b.remove(i), k, len, j);
        lemma_occurrences_without(b, k, len, j, i);
    }
}

/// It does not matter in which order digests are inserted.
pub proof fn lemma_insert_order(cells: Seq<u32>, k: nat, a: Seq<u64>, b: Seq<u64>)
    requires
        a.to_multiset() == b.to_multiset(),
    ensures
        inserted_all(cells, k, a) == inserted_all(cells, k, b),
{
    lemma_inserted_all(cells, k, a);
    lemma_inserted_all(cells, k, b);
    let (x, y) = (inserted_all(cells, k, a), inserted_all(cells, k, b));
    assert forall|j: int| 0 <= j < cells.len() implies x[j] == y[j] by {
        lemma_occurrences_order(a, b, k, cells.len() as int, j);
    }
    assert(x =~= y);
}

proof fn lemma_occurs_each_time(digests: Seq<u64>, d: u64, k: nat, len: int, i: int)
    requires
        0 <= i < k,
    ensures
        occurrences_in_all(digests, k, len, slot(d, i, len)) >= times(digests, d),
    decreases digests.len(),
{
    if digests.len() > 0 {
        lemma_occurs_each_time(digests.drop_last(), d, k, len, i);
        lemma_occurs(d, k, len, i);
    }
}

/// After any list of insertions a query answers at least how often the digest was inserted,
/// on top of what it answered before, up to the largest value of a counter. So no answer is
/// lower than before, and none too low.
pub proof fn lemma_inserts_count(
    cells: Seq<u32>,
    k: nat,
    digests: Seq<u64>,
    d: u64,
    before: u32,
    after: u32,
)
    requires
        k > 0,
        cells.len() > 0,
        is_query(cells, k, d, before),
        is_query(inserted_all(cells, k, digests), k, d, after),
    ensures
        after >= capped(before + times(digests, d)),
        after >= before,
        times(digests, d) <= u32::MAX ==> after >= times(digests, d),
{
    let len = cells.len() as int;
    let new = inserted_all(cells, k, digests);
    lemma_inserted_all(cells, k, digests);
    let i = choose|i: int| 0 <= i < k && after == #[trigger] new[slot(d, i, len)];
    let s = slot(d, i, len);
    assert(0 <= s < len) by {
        vstd::arithmetic::div_mod::lemma_mod_bound(
            counter::wrap_u64(d * CBF_SEED_0 + i * (d * CBF_SEED_1)) as int,
            len,
        );
    }
    lemma_occurs_each_time(digests, d, k, len, i);
    assert(before <= cells[s]);
}

/// The slots of a digest are spaced evenly, before they are folded onto the cells, and the
/// first two of any digest but zero and the half of the range differ.
pub proof fn lemma_slots_in_steps(digest: u64, i: int, len: int)
    requires
        i >= 0,
        0 < len,
    ensures
        ({
            let all: int = 0x1_0000_0000_0000_0000;
            &&& slot(digest, i, len) == slot(digest, i, all) % len
            &&& (slot(digest, i + 2, all) - slot(digest, i + 1, all)) % all == (slot(
                digest,
                i + 1,
                all,
            ) - slot(digest, i, all)) % all
            &&& 0 < digest < 0x8000_0000_0000_0000 ==> slot(digest, 0, all) != slot(
                digest,
                1,
                all,
            )
        }),
{
    let all: int = 0x1_0000_0000_0000_0000;
    let (a, b) = (digest * CBF_SEED_0, digest * CBF_SEED_1);
    vstd::arithmetic::div_mod::lemma_small_mod(
        counter::wrap_u64(a + i * b) as nat,
        all as nat,
    );
    vstd::arithmetic::div_mod::lemma_small_mod(
        counter::wrap_u64(a + (i + 1) * b) as nat,
        all as nat,
    );
    vstd::arithmetic::div_mod::lemma_small_mod(
        counter::wrap_u64(a + (i + 2) * b) as nat,
        all as nat,
    );
    assert((i + 1) * b == i * b + b) by (nonlinear_arith);
    assert((i + 2) * b == i * b + 2 * b) by (nonlinear_arith);
    vstd::arithmetic::div_mod::lemma_sub_mod_noop(a + (i + 1) * b, a + i * b, all);
    vstd::arithmetic::div_mod::lemma_sub_mod_noop(a + (i + 2) * b, a + (i + 1) * b, all);
    if 0 < digest < 0x8000_0000_0000_0000 {
        assert(0 * b == 0) by (nonlinear_arith);
        assert(1 * b == b);
        vstd::arithmetic::div_mod::lemma_small_mod(counter::wrap_u64(a) as nat, all as nat);
        vstd::arithmetic::div_mod::lemma_small_mod(counter::wrap_u64(a + b) as nat, all as nat);
        if counter::wrap_u64(a + b) == counter::wrap_u64(a) {
            vstd::arithmetic::div_mod::lemma_sub_mod_noop(a + b, a, all);
            assert(b % all == 0);
            lemma_never_vanishes(digest);
        }
    }
}

proof fn lemma_never_vanishes(digest: u64)
    requires
        digest < 0x8000_0000_0000_0000,
        (digest * CBF_SEED_1) % 0x1_0000_0000_0000_0000 == 0,
    ensures
        digest == 0,
{
    let half: int = 0x8000_0000_0000_0000;
    let odd: int = CBF_SEED_1 as int / 2;
    let q = (digest * CBF_SEED_1) / 0x1_0000_0000_0000_0000;
    assert(CBF_SEED_1 == 2 * odd);
    assert(digest * odd == half * q) by (nonlinear_arith)
        requires
            digest * CBF_SEED_1 == 0x1_0000_0000_0000_0000 * q,
            CBF_SEED_1 == 2 * odd,
            half * 2 == 0x1_0000_0000_0000_0000,
    ;
    let inverse: int = 0x6bce78ed7bd46361;
    assert((odd * inverse) % half == 1);
    vstd::arithmetic::div_mod::lemma_mod_multiples_basic(q * inverse, half);
    assert((q * inverse) * half == (half * q) * inverse) by (nonlinear_arith);
    assert((digest * odd) * inverse == digest * (odd * inverse)) by (nonlinear_arith);
    vstd::arithmetic::div_mod::lemma_mul_mod_noop_right(digest as int, odd * inverse, half);
    vstd::arithmetic::div_mod::lemma_small_mod(digest as nat, half as nat);
}

/// The answer of a query is the smallest of the digest's counters: none of them is below it, and
/// one of them is as large. So one counter that another digest does not share is enough to keep
/// that digest from raising the answer.
pub proof fn lemma_query_is_smallest(cells: Seq<u32>, k: nat, digest: u64, r: u32, i: int)
    requires
        is_query(cells, k, digest, r),
        cells.len() > 0,
        0 <= i < k,
    ensures
        query_of(cells, k, digest) == r,
        r <= cells[slot(digest, i, cells.len() as int)],
        exists|j: int|
            0 <= j < k && r == #[trigger] cells[slot(digest, j, cells.len() as int)],
{
    lemma_query_unique(cells, k, digest, r);
}

/// A digest that leaves one of the smallest counters of another untouched does not change the
/// answer for it.
pub proof fn lemma_insert_elsewhere(
    cells: Seq<u32>,
    k: nat,
    digest: u64,
    other: u64,
    i: int,
    before: u32,
    after: u32,
)
    requires
        cells.len() > 0,
        0 <= i < k,
        is_query(cells, k, digest, before),
        is_query(inserted(cells, k, other), k, digest, after),
        cells[slot(digest, i, cells.len() as int)] == before,
        forall|l: int|
            0 <= l < k ==> #[trigger] slot(other, l, cells.len() as int) != slot(
                digest,
                i,
                cells.len() as int,
            ),
    ensures
        after == before,
{
    let len = cells.len() as int;
    let s = slot(digest, i, len);
    lemma_no_occurrence(other, k, len, s);
    let next = inserted(cells, k, other);
    vstd::arithmetic::div_mod::lemma_mod_bound(
        counter::wrap_u64(digest * CBF_SEED_0 + i * (digest * CBF_SEED_1)) as int,
        len,
    );
    assert(next[s] == before);
    assert(after <= next[slot(digest, i, len)]);
    let j = choose|j: int| 0 <= j < k && after == #[trigger] next[slot(digest, j, len)];
    let t = slot(digest, j, len);
    vstd::arithmetic::div_mod::lemma_mod_bound(
        counter::wrap_u64(digest * CBF_SEED_0 + j * (digest * CBF_SEED_1)) as int,
        len,
    );
    assert(before <= cells[slot(digest, j, len)]);
    assert(next[t] >= cells[t]);
}

proof fn lemma_no_occurrence(other: u64, k: nat, len: int, s: int)
    requires
        forall|l: int| 0 <= l < k ==> #[trigger] slot(other, l, len) != s,
    ensures
        occurrences(other, k, len, s) == 0,
    decreases k,
{
    if k > 0 {
        assert(slot(other, k - 1, len) != s);
        lemma_no_occurrence(other, (k - 1) as nat, len, s);
    }
}

} // verus!
