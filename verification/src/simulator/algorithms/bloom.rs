//! A Bloom filter with fixed hash functions: its answers depend on its contents alone.

use crate::simulator::algorithms::bits::{Bits, MAX_BITS};
use crate::simulator::algorithms::hashing;
use crate::simulator::algorithms::hashing::{write_u64, HashKey};
use crate::simulator::binary64;
use crate::simulator::binary64::Binary64;
use crate::simulator::clock::Stopwatch;
use crate::simulator::counter;
use crate::simulator::counter::add_u128;
use std::hash::{DefaultHasher, Hasher};
use std::marker::PhantomData;
use vstd::arithmetic::power2::*;
use vstd::prelude::*;
use vstd::std_specs::hash::*;

verus! {

/// Seeds of the two hash streams. Any two distinct values would do.
pub const BLOOM_SEED_0: u64 = 0x9E37_79B9_7F4A_7C15;

pub const BLOOM_SEED_1: u64 = 0xD1B5_4A32_D192_ED03;

/// A hash function chosen by a seed, the same in every process.
#[derive(Clone, Copy, Debug, PartialEq, Eq, Structural)]
pub struct SeededState(pub u64);

impl SeededState {
    pub fn new(seed: u64) -> (s: Self)
        ensures
            s == SeededState(seed),
    {
        SeededState(seed)
    }

    /// A hasher that has been fed the seed.
    pub fn build_hasher(&self) -> (h: DefaultHasher)
        ensures
            h@ == hashing::write_u64_writes(self.0),
    {
        let mut h = DefaultHasher::new();
        write_u64(&mut h, self.0);
        assert(h@ =~= hashing::write_u64_writes(self.0));
        h
    }

    /// The hash of a value that writes the given byte strings.
    pub open spec fn hash_of(self, writes: Seq<Seq<u8>>) -> u64 {
        DefaultHasher::spec_finish(hashing::write_u64_writes(self.0) + writes)
    }

    /// The hash of a value.
    pub fn hash_one<T: ?Sized + HashKey>(&self, value: &T) -> (h: u64)
        ensures
            h == self.hash_of(value.hash_writes()),
            h == DefaultHasher::spec_finish(
                hashing::write_u64_writes(self.0) + value.hash_writes(),
            ),
    {
        let mut h = self.build_hasher();
        value.feed(&mut h);
        h.finish()
    }
}

/// The finalizer of the splitmix64 generator.
pub open spec fn mixed(z: u64) -> u64 {
    let a = counter::wrap_u64(z + 0x9E37_79B9_7F4A_7C15);
    let b = counter::wrap_u64((a ^ (a >> 30)) * 0xBF58_476D_1CE4_E5B9);
    let c = counter::wrap_u64((b ^ (b >> 27)) * 0x94D0_49BB_1331_11EB);
    c ^ (c >> 31)
}

/// Spreads a counter into a well-distributed number.
pub fn splitmix64(z: u64) -> (r: u64)
    ensures
        r == mixed(z),
{
    let a: u64 = z.wrapping_add(0x9E37_79B9_7F4A_7C15);
    let x: u64 = a ^ (a >> 30u32);
    assert(x * 0xBF58_476D_1CE4_E5B9 >= 0);
    let b: u64 = x.wrapping_mul(0xBF58_476D_1CE4_E5B9);
    let y: u64 = b ^ (b >> 27u32);
    assert(y * 0x94D0_49BB_1331_11EB >= 0);
    let c: u64 = y.wrapping_mul(0x94D0_49BB_1331_11EB);
    c ^ (c >> 31u32)
}

/// The pair of hash functions of the slice with the given index.
pub open spec fn slice_hashers(index: u64) -> (SeededState, SeededState) {
    (
        SeededState(mixed(BLOOM_SEED_0 ^ (index << 1))),
        SeededState(mixed(BLOOM_SEED_1 ^ ((index << 1) | 1))),
    )
}

/// Deterministic pair of hash functions for a slice. Different slices get independent pairs;
/// slice 0 has the pair of single filters.
pub fn seeded_hashers(index: u64) -> (r: [SeededState; 2])
    ensures
        r@[0] == slice_hashers(index).0,
        r@[1] == slice_hashers(index).1,
{
    [
        SeededState::new(splitmix64(BLOOM_SEED_0 ^ (index << 1u32))),
        SeededState::new(splitmix64(BLOOM_SEED_1 ^ ((index << 1u32) | 1))),
    ]
}

fn default_bloom_hashers() -> (r: [SeededState; 2])
    ensures
        r@[0] == slice_hashers(0).0,
        r@[1] == slice_hashers(0).1,
{
    seeded_hashers(0)
}

/// A false-positive rate between zero and one, given by its logarithm.
#[derive(Clone, Copy, Debug, PartialEq, Eq, Structural)]
pub struct FalsePositiveRate {
    neg_ln: Binary64,
}

/// The significand and exponent of the natural logarithm of two.
pub open spec fn ln_2() -> Binary64 {
    Binary64::of((0x16_2E42_FEFA_39EFint, -53int))
}

fn exec_ln_2() -> (r: Binary64)
    ensures
        r == ln_2(),
        r.wf(),
{
    Binary64 { mant: 0x16_2E42_FEFA_39EF, exp: -53 }
}

/// The bits of a filter for `capacity` elements, given the opposite of the logarithm of its
/// false-positive rate: the double-precision value of `ceil(capacity * neg_ln / ln(2)^2)`, at
/// least one and at most the longest bit vector.
pub open spec fn bits_at(neg_ln: Binary64, capacity: nat) -> int {
    let elements = Binary64::of(binary64::nearest(capacity, 0));
    let weight = Binary64::of(elements.product(neg_ln));
    let square = Binary64::of(ln_2().product(ln_2()));
    let bits = Binary64::of(weight.quotient(square)).ceiling();
    if bits < 1 {
        1
    } else if bits > MAX_BITS {
        MAX_BITS as int
    } else {
        bits
    }
}

/// The hash functions of a filter: the double-precision value of `ceil(neg_ln / ln(2))`.
pub open spec fn hashes_at(neg_ln: Binary64) -> int {
    Binary64::of(neg_ln.quotient(ln_2())).ceiling()
}

impl FalsePositiveRate {
    /// The opposite of the rate's natural logarithm.
    pub closed spec fn neg_ln(self) -> Binary64 {
        self.neg_ln
    }

    #[verifier::type_invariant]
    pub closed spec fn wf(self) -> bool {
        self.neg_ln.wf() && self.neg_ln.mant > 0 && -105 <= self.neg_ln.exp <= -43
    }

    /// The rate whose natural logarithm is the opposite of the double with the given bits.
    /// Rates strictly between zero and one have logarithms in a range of their own.
    pub fn from_neg_ln_bits(bits: u64) -> (r: Option<Self>)
        ensures
            r is Some <==> 0x3ca0_0000_0000_0000 <= bits <= 0x4087_4385_446d_71c3,
            r matches Some(rate) ==> rate.wf() && rate.neg_ln().parts() == ((binary64::MANT_MIN
                + bits % binary64::MANT_MIN) as int, bits / binary64::MANT_MIN - 1075),
    {
        if 0x3ca0_0000_0000_0000 <= bits && bits <= 0x4087_4385_446d_71c3 {
            match Binary64::from_bits(bits) {
                Some(neg_ln) => Some(FalsePositiveRate { neg_ln }),
                None => None,
            }
        } else {
            None
        }
    }

    /// 0.01
    pub fn one_in_100() -> (r: Self)
        ensures
            r.neg_ln().parts() == (0x12_6bb1_bbb5_5515int, -50int),
            r.wf(),
    {
        FalsePositiveRate { neg_ln: Binary64 { mant: 0x12_6bb1_bbb5_5515, exp: -50 } }
    }

    /// 0.1
    pub fn one_in_10() -> (r: Self)
        ensures
            r.neg_ln().parts() == (0x12_6bb1_bbb5_5515int, -51int),
            r.wf(),
    {
        FalsePositiveRate { neg_ln: Binary64 { mant: 0x12_6bb1_bbb5_5515, exp: -51 } }
    }

    /// 0.13
    pub fn thirteen_in_100() -> (r: Self)
        ensures
            r.neg_ln().parts() == (0x10_525f_4c39_1ddaint, -51int),
            r.wf(),
    {
        FalsePositiveRate { neg_ln: Binary64 { mant: 0x10_525f_4c39_1dda, exp: -51 } }
    }

    /// 0.27
    pub fn twenty_seven_in_100() -> (r: Self)
        ensures
            r.neg_ln().parts() == (0x14_f307_7ece_4b36int, -52int),
            r.wf(),
    {
        FalsePositiveRate { neg_ln: Binary64 { mant: 0x14_f307_7ece_4b36, exp: -52 } }
    }

    /// 0.31
    pub fn thirty_one_in_100() -> (r: Self)
        ensures
            r.neg_ln().parts() == (0x12_bd2a_5db2_fda2int, -52int),
            r.wf(),
    {
        FalsePositiveRate { neg_ln: Binary64 { mant: 0x12_bd2a_5db2_fda2, exp: -52 } }
    }

    /// The bits of a filter for `capacity` elements.
    pub open spec fn bits_for(self, capacity: nat) -> int {
        bits_at(self.neg_ln(), capacity)
    }

    /// The hash functions of a filter.
    pub open spec fn hashes_for(self) -> int {
        hashes_at(self.neg_ln())
    }

    fn bits(&self, capacity: usize) -> (n: usize)
        ensures
            n == self.bits_for(capacity as nat),
            1 <= n <= MAX_BITS,
    {
        proof {
            use_type_invariant(self);
        }
        let elements = Binary64::from_u64(capacity as u64);
        let weight = elements.times(self.neg_ln);
        let square = exec_ln_2().times(exec_ln_2());
        let m: usize = weight.over(square).ceil_usize();
        if m < 1 {
            1
        } else if m > MAX_BITS {
            MAX_BITS
        } else {
            m
        }
    }

    fn hash_count(&self) -> (k: u64)
        ensures
            k == self.hashes_for(),
    {
        proof {
            use_type_invariant(self);
        }
        let ratio = self.neg_ln.over(exec_ln_2());
        proof {
            let d = pow2((-ratio.exp) as nat) as int;
            lemma2_to64_rest();
            if -ratio.exp > 41 {
                lemma_pow2_strictly_increases(41, (-ratio.exp) as nat);
            }
            assert((ratio.mant + d - 1) / d <= 4096) by (nonlinear_arith)
                requires
                    d >= 0x200_0000_0000,
                    ratio.mant < 0x20_0000_0000_0000,
            ;
        }
        ratio.ceil_usize() as u64
    }
}

/// The `i`-th bit of a value with the given hashes, among `len` bits.
pub open spec fn bit_index(h0: u64, h1: u64, i: int, len: int) -> int {
    counter::wrap_u64(h0 + i * h1) as int % len
}

/// Whether `j` is one of the first `k` bits of a value with the given hashes.
pub open spec fn touches(h0: u64, h1: u64, k: int, len: int, j: int) -> bool {
    exists|i: int| 0 <= i < k && #[trigger] bit_index(h0, h1, i, len) == j
}

/// A Bloom filter, without the times it took.
#[verifier::ext_equal]
pub struct Filter {
    pub bits: Seq<bool>,
    pub hashers: (SeededState, SeededState),
    pub hashes: u64,
}

impl Filter {
    /// An empty filter.
    pub open spec fn empty(len: nat, hashers: (SeededState, SeededState), hashes: u64) -> Filter {
        Filter { bits: Seq::new(len, |i: int| false), hashers, hashes }
    }

    /// Whether bit `j` belongs to a value that writes the given byte strings.
    pub open spec fn marks(self, writes: Seq<Seq<u8>>, j: int) -> bool {
        touches(
            self.hashers.0.hash_of(writes),
            self.hashers.1.hash_of(writes),
            self.hashes as int,
            self.bits.len() as int,
            j,
        )
    }

    /// Whether all bits of the value are set.
    pub open spec fn has(self, writes: Seq<Seq<u8>>) -> bool {
        forall|j: int| 0 <= j < self.bits.len() && #[trigger] self.marks(writes, j) ==> self.bits[j]
    }

    /// The filter with all bits of the value set.
    pub open spec fn with(self, writes: Seq<Seq<u8>>) -> Filter {
        Filter {
            bits: Seq::new(self.bits.len(), |j: int| self.bits[j] || self.marks(writes, j)),
            ..self
        }
    }

    /// The filter with all bits of the values set.
    pub open spec fn with_all<T: HashKey>(self, values: Seq<T>) -> Filter
        decreases values.len(),
    {
        if values.len() == 0 {
            self
        } else {
            self.with_all(values.drop_last()).with(values.last().hash_writes())
        }
    }
}

/// An inserted value is found: there are no false negatives.
pub proof fn lemma_inserted_is_found(f: Filter, writes: Seq<Seq<u8>>)
    ensures
        f.with(writes).has(writes),
{
    let g = f.with(writes);
    assert forall|j: int| 0 <= j < g.bits.len() && #[trigger] g.marks(writes, j) implies g.bits[j] by {
        assert(f.marks(writes, j));
    }
}

/// A value stays found whatever else is inserted.
pub proof fn lemma_found_stays_found(f: Filter, writes: Seq<Seq<u8>>, other: Seq<Seq<u8>>)
    requires
        f.has(writes),
    ensures
        f.with(other).has(writes),
{
    let g = f.with(other);
    assert forall|j: int| 0 <= j < g.bits.len() && #[trigger] g.marks(writes, j) implies g.bits[j] by {
        assert(f.marks(writes, j));
    }
}

/// Inserting a value twice is inserting it once.
pub proof fn lemma_insert_twice(f: Filter, writes: Seq<Seq<u8>>)
    ensures
        f.with(writes).with(writes) == f.with(writes),
{
    let g = f.with(writes);
    assert forall|j: int| 0 <= j < g.bits.len() implies g.marks(writes, j) == f.marks(
        writes,
        j,
    ) by {}
    assert(g.with(writes) =~= g);
}

/// Inserting values keeps sizes and hash functions.
pub proof fn lemma_with_all_shape<T: HashKey>(f: Filter, values: Seq<T>)
    ensures
        f.with_all(values).bits.len() == f.bits.len(),
        f.with_all(values).hashers == f.hashers,
        f.with_all(values).hashes == f.hashes,
    decreases values.len(),
{
    if values.len() > 0 {
        lemma_with_all_shape(f, values.drop_last());
    }
}

/// A filter of a list of values finds each of them.
pub proof fn lemma_all_found<T: HashKey>(f: Filter, values: Seq<T>, i: int)
    requires
        0 <= i < values.len(),
    ensures
        f.with_all(values).has(values[i].hash_writes()),
    decreases values.len(),
{
    let rest = values.drop_last();
    let last = values.last().hash_writes();
    if i == values.len() - 1 {
        lemma_inserted_is_found(f.with_all(rest), last);
    } else {
        lemma_all_found(f, rest, i);
        assert(rest[i] == values[i]);
        lemma_found_stays_found(f.with_all(rest), values[i].hash_writes(), last);
    }
}

/// A Bloom filter over values of type `T`.
#[derive(Debug)]
pub struct BloomFilter<T: ?Sized> {
    base: Bits,
    hashers: [SeededState; 2],
    hashes: u64,
    marker: PhantomData<T>,
    t_enc: u128,
    t_dec: u128,
}

impl<T: ?Sized> View for BloomFilter<T> {
    type V = Filter;

    closed spec fn view(&self) -> Filter {
        Filter {
            bits: self.base@,
            hashers: (self.hashers@[0], self.hashers@[1]),
            hashes: self.hashes,
        }
    }
}

impl<T: ?Sized> BloomFilter<T> {
    /// There is a bit to set.
    #[verifier::type_invariant]
    pub closed spec fn wf(self) -> bool {
        self.base@.len() > 0
    }

    /// A filter for `capacity` values with the given false-positive rate.
    pub fn new(capacity: usize, fpr: FalsePositiveRate) -> (f: Self)
        ensures
            f.wf(),
            f@ == Filter::empty(
                fpr.bits_for(capacity as nat) as nat,
                slice_hashers(0),
                fpr.hashes_for() as u64,
            ),
    {
        let m: usize = fpr.bits(capacity);
        let k: u64 = fpr.hash_count();
        BloomFilter {
            base: Bits::falses(m),
            hashers: default_bloom_hashers(),
            hashes: k,
            marker: PhantomData,
            t_enc: 0,
            t_dec: 0,
        }
    }

    /// A filter of `m` bits with `k` bits for each value.
    pub fn from_raw_parts(m: usize, k: u64) -> (f: Self)
        requires
            0 < m <= MAX_BITS,
            k > 0,
        ensures
            f.wf(),
            f@ == Filter::empty(m as nat, slice_hashers(0), k),
    {
        Self::from_raw_parts_with_hashers(m, k, default_bloom_hashers())
    }

    /// A filter of `m` bits with `k` bits for each value, and the given hash functions.
    pub fn from_raw_parts_with_hashers(m: usize, k: u64, hashers: [SeededState; 2]) -> (f: Self)
        requires
            0 < m <= MAX_BITS,
            k > 0,
        ensures
            f.wf(),
            f@ == Filter::empty(m as nat, (hashers@[0], hashers@[1]), k),
    {
        BloomFilter {
            base: Bits::falses(m),
            hashers,
            hashes: k,
            marker: PhantomData,
            t_enc: 0,
            t_dec: 0,
        }
    }

    pub fn bitslice(&self) -> (b: &Bits)
        ensures
            b@ == self@.bits,
    {
        &self.base
    }

    pub fn hashers(&self) -> (r: [SeededState; 2])
        ensures
            (r@[0], r@[1]) == self@.hashers,
    {
        [self.hashers[0], self.hashers[1]]
    }

    pub fn bit_len(&self) -> (n: usize)
        ensures
            n == self@.bits.len(),
            0 < n <= MAX_BITS,
    {
        proof {
            use_type_invariant(self);
        }
        self.base.len()
    }

    pub fn byte_len(&self) -> (n: usize)
        ensures
            n == (self@.bits.len() + 7) / 8,
    {
        let n: usize = self.base.len();
        (n + 7) / 8
    }

    pub fn hashes(&self) -> (k: u64)
        ensures
            k == self@.hashes,
    {
        self.hashes
    }

    /// Nanoseconds spent on timed insertions.
    pub closed spec fn encode_time(self) -> u128 {
        self.t_enc
    }

    /// Nanoseconds spent on timed queries.
    pub closed spec fn decode_time(self) -> u128 {
        self.t_dec
    }

    pub fn t_enc(&self) -> (t: u128)
        ensures
            t == self.encode_time(),
    {
        self.t_enc
    }

    pub fn t_dec(&self) -> (t: u128)
        ensures
            t == self.decode_time(),
    {
        self.t_dec
    }
}

proof fn lemma_wrapped_bit(h0: u64, h1: u64, i: u64)
    ensures
        counter::wrap_u64(h0 + counter::wrap_u64(i * h1)) == counter::wrap_u64(h0 + i * h1),
{
    counter::lemma_wrap_u64_add(h0 as int, i * h1);
}

impl<T: ?Sized + HashKey> BloomFilter<T> {
    fn bit(&self, h0: u64, h1: u64, i: u64) -> (b: usize)
        ensures
            b == bit_index(h0, h1, i as int, self@.bits.len() as int),
            b < self@.bits.len(),
    {
        proof {
            use_type_invariant(self);
            lemma_wrapped_bit(h0, h1, i);
            assert(i * h1 >= 0) by (nonlinear_arith);
        }
        let h: u64 = h0.wrapping_add(i.wrapping_mul(h1));
        (h % self.base.len() as u64) as usize
    }

    /// `contains`, adding to the decoding time.
    pub fn timed_contains(&mut self, value: &T) -> (r: bool)
        ensures
            r == old(self)@.has(value.hash_writes()),
            final(self)@ == old(self)@,
            final(self).encode_time() == old(self).encode_time(),
            final(self).decode_time() >= old(self).decode_time(),
            final(self).wf(),
    {
        let watch = Stopwatch::start();
        let r: bool = self.contains(value);
        proof {
            use_type_invariant(&*self);
        }
        self.t_dec = add_u128(self.t_dec, watch.nanos());
        r
    }

    /// Whether the value may have been inserted. An inserted one always is found.
    pub fn contains(&self, value: &T) -> (r: bool)
        ensures
            r == self@.has(value.hash_writes()),
    {
        let h0: u64 = self.hashers[0].hash_one(value);
        let h1: u64 = self.hashers[1].hash_one(value);
        let ghost len = self@.bits.len() as int;
        let mut i: u64 = 0;
        while i < self.hashes
            invariant
                i <= self.hashes,
                len == self@.bits.len(),
                h0 == self@.hashers.0.hash_of(value.hash_writes()),
                h1 == self@.hashers.1.hash_of(value.hash_writes()),
                forall|l: int| 0 <= l < i ==> self@.bits[#[trigger] bit_index(h0, h1, l, len)],
            decreases self.hashes - i,
        {
            let b: usize = self.bit(h0, h1, i);
            if !self.base.get(b) {
                assert(self@.marks(value.hash_writes(), b as int));
                return false;
            }
            i = i + 1;
        }
        assert forall|j: int| 0 <= j < len && #[trigger] self@.marks(value.hash_writes(), j) implies self@.bits[j] by {
            let l = choose|l: int|
                0 <= l < self.hashes && #[trigger] bit_index(h0, h1, l, len) == j;
            assert(self@.bits[bit_index(h0, h1, l, len)]);
        }
        true
    }

    /// `insert`, adding to the encoding time.
    pub fn timed_insert(&mut self, value: &T)
        ensures
            final(self)@ == old(self)@.with(value.hash_writes()),
            final(self).encode_time() >= old(self).encode_time(),
            final(self).decode_time() == old(self).decode_time(),
            final(self).wf(),
    {
        let watch = Stopwatch::start();
        self.insert(value);
        proof {
            use_type_invariant(&*self);
        }
        self.t_enc = add_u128(self.t_enc, watch.nanos());
    }

    /// Sets all bits of the value.
    pub fn insert(&mut self, value: &T)
        ensures
            final(self)@ == old(self)@.with(value.hash_writes()),
            final(self).encode_time() == old(self).encode_time(),
            final(self).decode_time() == old(self).decode_time(),
            final(self).wf(),
    {
        let h0: u64 = self.hashers[0].hash_one(value);
        let h1: u64 = self.hashers[1].hash_one(value);
        let k: u64 = self.hashes;
        let ghost start = self@;
        let ghost len = start.bits.len() as int;
        let mut i: u64 = 0;
        proof {
            use_type_invariant(&*self);
        }
        while i < k
            invariant
                i <= k,
                k == start.hashes,
                start == old(self)@,
                len == start.bits.len(),
                self@.bits.len() == len,
                self@.hashers == start.hashers,
                self@.hashes == start.hashes,
                self.t_enc == old(self).t_enc,
                self.t_dec == old(self).t_dec,
                self.wf(),
                forall|j: int|
                    0 <= j < len ==> (#[trigger] self@.bits[j] == (start.bits[j] || touches(
                        h0,
                        h1,
                        i as int,
                        len,
                        j,
                    ))),
            decreases k - i,
        {
            let b: usize = self.bit(h0, h1, i);
            let ghost before = self@.bits;
            proof {
                use_type_invariant(&*self);
            }
            self.base.set(b, true);
            i = i + 1;
            assert forall|j: int| 0 <= j < len implies (#[trigger] self@.bits[j] == (start.bits[j]
                || touches(h0, h1, i as int, len, j))) by {
                assert(before[j] == (start.bits[j] || touches(h0, h1, i - 1, len, j)));
                if touches(h0, h1, i - 1, len, j) {
                    let l = choose|l: int|
                        0 <= l < i - 1 && #[trigger] bit_index(h0, h1, l, len) == j;
                    assert(bit_index(h0, h1, l, len) == j);
                }
                if j == b {
                    assert(bit_index(h0, h1, i - 1, len) == j);
                }
            }
        }
        assert(self@ =~= start.with(value.hash_writes()));
    }
}

/// The bits of a value follow from its two hashes: the first is the first hash, and each
/// further one lies the second hash ahead of the one before.
pub proof fn lemma_bits_in_steps(h0: u64, h1: u64, i: int, len: int)
    requires
        i >= 0,
        len > 0,
    ensures
        bit_index(h0, h1, 0, len) == h0 as int % len,
        bit_index(h0, h1, i + 1, len) == bit_index(counter::wrap_u64(h0 + h1), h1, i, len),
{
    assert(0 * h1 == 0) by (nonlinear_arith);
    assert(h0 + (i + 1) * h1 == h0 + h1 + i * h1) by (nonlinear_arith);
    counter::lemma_wrap_u64_add(h0 + h1, i * h1);
}

/// A value is found exactly where each of its bits is set, as many as there are hash functions.
pub proof fn lemma_found_by_its_bits(f: Filter, writes: Seq<Seq<u8>>)
    requires
        f.bits.len() > 0,
    ensures
        f.has(writes) <==> forall|i: int|
            0 <= i < f.hashes ==> f.bits[#[trigger] bit_index(
                f.hashers.0.hash_of(writes),
                f.hashers.1.hash_of(writes),
                i,
                f.bits.len() as int,
            )],
{
    let (h0, h1) = (f.hashers.0.hash_of(writes), f.hashers.1.hash_of(writes));
    let len = f.bits.len() as int;
    if f.has(writes) {
        assert forall|i: int| 0 <= i < f.hashes implies f.bits[#[trigger] bit_index(
            h0,
            h1,
            i,
            len,
        )] by {
            assert(f.marks(writes, bit_index(h0, h1, i, len)));
        }
    }
    if forall|i: int| 0 <= i < f.hashes ==> f.bits[#[trigger] bit_index(h0, h1, i, len)] {
        assert forall|j: int| 0 <= j < len && #[trigger] f.marks(writes, j) implies f.bits[j] by {
            let i = choose|i: int|
                0 <= i < f.hashes && #[trigger] bit_index(h0, h1, i, len) == j;
            assert(f.bits[bit_index(h0, h1, i, len)]);
        }
    }
}

/// A value of the list belongs to a bit.
pub open spec fn marked_by<T: HashKey>(f: Filter, values: Seq<T>, j: int) -> bool {
    exists|i: int| 0 <= i < values.len() && f.marks((#[trigger] values[i]).hash_writes(), j)
}

/// In a filter of a list exactly those bits are set that belong to one of its values.
pub proof fn lemma_bits_exactly<T: HashKey>(empty: Filter, values: Seq<T>, j: int)
    requires
        forall|k: int| 0 <= k < empty.bits.len() ==> !(#[trigger] empty.bits[k]),
        0 <= j < empty.bits.len(),
    ensures
        empty.with_all(values).bits.len() == empty.bits.len(),
        empty.with_all(values).bits[j] <==> marked_by(empty, values, j),
    decreases values.len(),
{
    if values.len() > 0 {
        let rest = values.drop_last();
        lemma_bits_exactly(empty, rest, j);
        lemma_with_all_shape(empty, rest);
        if marked_by(empty, rest, j) {
            let i = choose|i: int|
                0 <= i < rest.len() && empty.marks((#[trigger] rest[i]).hash_writes(), j);
            assert(values[i] == rest[i]);
            assert(empty.marks(values[i].hash_writes(), j));
        }
        if marked_by(empty, values, j) {
            let i = choose|i: int|
                0 <= i < values.len() && empty.marks((#[trigger] values[i]).hash_writes(), j);
            if i < rest.len() {
                assert(rest[i] == values[i]);
                assert(empty.marks(rest[i].hash_writes(), j));
            }
        }
        if empty.marks(values.last().hash_writes(), j) {
            assert(empty.marks(values[values.len() - 1].hash_writes(), j));
        }
    }
}

proof fn lemma_times_inverse(v: u64, c: u64, inverse: u64)
    requires
        (c * inverse) % 0x1_0000_0000_0000_0000 == 1,
    ensures
        (counter::wrap_u64(v * c) * inverse) % 0x1_0000_0000_0000_0000 == v,
{
    let m: int = 0x1_0000_0000_0000_0000;
    vstd::arithmetic::div_mod::lemma_mul_mod_noop_left(v * c, inverse as int, m);
    assert((v * c) * inverse == v * (c * inverse)) by (nonlinear_arith);
    vstd::arithmetic::div_mod::lemma_mul_mod_noop_right(v as int, c * inverse, m);
    vstd::arithmetic::div_mod::lemma_small_mod(v as nat, m as nat);
}

proof fn lemma_times_odd(x: u64, y: u64, c: u64, inverse: u64)
    requires
        counter::wrap_u64(x * c) == counter::wrap_u64(y * c),
        (c * inverse) % 0x1_0000_0000_0000_0000 == 1,
    ensures
        x == y,
{
    lemma_times_inverse(x, c, inverse);
    lemma_times_inverse(y, c, inverse);
}

/// No two counters are spread into the same number.
pub proof fn lemma_mixed_apart(x: u64, y: u64)
    requires
        mixed(x) == mixed(y),
    ensures
        x == y,
{
    let (a, b) = (
        counter::wrap_u64(x + 0x9E37_79B9_7F4A_7C15),
        counter::wrap_u64(y + 0x9E37_79B9_7F4A_7C15),
    );
    let (p, q) = (a ^ (a >> 30), b ^ (b >> 30));
    let (c, d) = (
        counter::wrap_u64(p * 0xBF58_476D_1CE4_E5B9),
        counter::wrap_u64(q * 0xBF58_476D_1CE4_E5B9),
    );
    let (r, s) = (c ^ (c >> 27), d ^ (d >> 27));
    let (e, f) = (
        counter::wrap_u64(r * 0x94D0_49BB_1331_11EB),
        counter::wrap_u64(s * 0x94D0_49BB_1331_11EB),
    );
    assert(e == f) by (bit_vector)
        requires
            e ^ (e >> 31) == f ^ (f >> 31),
    ;
    lemma_times_odd(r, s, 0x94D0_49BB_1331_11EB, 0x319642b2d24d8ec3);
    assert(c == d) by (bit_vector)
        requires
            c ^ (c >> 27) == d ^ (d >> 27),
    ;
    lemma_times_odd(p, q, 0xBF58_476D_1CE4_E5B9, 0x96de1b173f119089);
    assert(a == b) by (bit_vector)
        requires
            a ^ (a >> 30) == b ^ (b >> 30),
    ;
}

/// Every slice has hash functions of its own: no two slices share one, and the two of a slice
/// differ.
pub proof fn lemma_slices_hash_apart(i: u64, j: u64)
    requires
        i < 0x8000_0000_0000_0000,
        j < 0x8000_0000_0000_0000,
    ensures
        slice_hashers(i).0 != slice_hashers(i).1,
        i != j ==> slice_hashers(i).0 != slice_hashers(j).0,
        i != j ==> slice_hashers(i).1 != slice_hashers(j).1,
{
    let (s, t) = (BLOOM_SEED_0, BLOOM_SEED_1);
    let (a, b) = (s ^ (i << 1), s ^ (j << 1));
    let (c, d) = (t ^ ((i << 1) | 1), t ^ ((j << 1) | 1));
    assert(a != c) by (bit_vector)
        requires
            a == s ^ (i << 1),
            c == t ^ ((i << 1) | 1),
            s == 0x9E37_79B9_7F4A_7C15u64,
            t == 0xD1B5_4A32_D192_ED03u64,
    ;
    assert(i != j ==> a != b && c != d) by (bit_vector)
        requires
            i < 0x8000_0000_0000_0000,
            j < 0x8000_0000_0000_0000,
            a == s ^ (i << 1),
            b == s ^ (j << 1),
            c == t ^ ((i << 1) | 1),
            d == t ^ ((j << 1) | 1),
    ;
    if slice_hashers(i).0 == slice_hashers(i).1 {
        lemma_mixed_apart(a, c);
    }
    if slice_hashers(i).0 == slice_hashers(j).0 {
        lemma_mixed_apart(a, b);
    }
    if slice_hashers(i).1 == slice_hashers(j).1 {
        lemma_mixed_apart(c, d);
    }
}

proof fn lemma_weight(neg_ln: Binary64, capacity: nat) -> (w: Binary64)
    requires
        neg_ln.wf(),
        neg_ln.mant > 0,
        -105 <= neg_ln.exp <= 0,
        0 < capacity <= u64::MAX,
    ensures
        w == Binary64::of(
            Binary64::of(binary64::nearest(capacity, 0)).product(neg_ln),
        ),
        w.parts() == Binary64::of(binary64::nearest(capacity, 0)).product(neg_ln),
        Binary64::of(binary64::nearest(capacity, 0)).parts() == binary64::nearest(capacity, 0),
        w.wf(),
        w.mant > 0,
        -300 <= w.exp <= 300,
{
    binary64::lemma_nearest_range(capacity, 0);
    let n = Binary64::of(binary64::nearest(capacity, 0));
    let x = n.mant * neg_ln.mant;
    assert(0 < x < binary64::MANT_END * binary64::MANT_END) by (nonlinear_arith)
        requires
            0 < n.mant < binary64::MANT_END,
            0 < neg_ln.mant < binary64::MANT_END,
            x == n.mant * neg_ln.mant,
    ;
    binary64::lemma_nearest_range(x as nat, n.exp + neg_ln.exp);
    Binary64::of(n.product(neg_ln))
}

proof fn lemma_square() -> (s: Binary64)
    ensures
        s == Binary64::of(ln_2().product(ln_2())),
        s.wf(),
        s.mant > 0,
        -300 <= s.exp <= 300,
{
    let m = ln_2().mant;
    let x = m * m;
    assert(0 < x < binary64::MANT_END * binary64::MANT_END) by (nonlinear_arith)
        requires
            0 < m < binary64::MANT_END,
            x == m * m,
    ;
    binary64::lemma_nearest_range(x as nat, -106);
    Binary64::of(ln_2().product(ln_2()))
}

proof fn lemma_quotient_range(a: Binary64, b: Binary64) -> (q: Binary64)
    requires
        a.wf(),
        b.wf(),
        a.mant > 0,
        b.mant > 0,
        -301 <= a.exp <= 301,
        -301 <= b.exp <= 301,
    ensures
        q == Binary64::of(a.quotient(b)),
        q.parts() == a.quotient(b),
        q.mant > 0,
        -700 <= q.exp <= 700,
{
    binary64::lemma_quotient_nearest(a, b);
    Binary64::of(a.quotient(b))
}

proof fn lemma_bits_double(w: Binary64, v: Binary64)
    requires
        w.wf(),
        v.wf(),
        w.mant > 0,
        v.mant == w.mant,
        v.exp == w.exp + 1,
        -300 <= w.exp <= 300,
    ensures
        ({
            let square = Binary64::of(ln_2().product(ln_2()));
            let a = Binary64::of(w.quotient(square)).ceiling();
            let b = Binary64::of(v.quotient(square)).ceiling();
            a >= 1 && 2 * a - 1 <= b <= 2 * a
        }),
{
    let square = lemma_square();
    let p = lemma_quotient_range(w, square);
    let q = lemma_quotient_range(v, square);
    binary64::lemma_ceiling_double(p, q);
    binary64::lemma_ceiling_positive(p);
}

/// The size of a filter goes with the number of elements that it is for: a filter for twice as
/// many has twice as many bits, or one less, unless that is more than there can be.
pub proof fn lemma_bits_by_capacity(neg_ln: Binary64, capacity: nat)
    requires
        neg_ln.wf(),
        neg_ln.mant > 0,
        -105 <= neg_ln.exp <= -1,
        0 < capacity,
        2 * capacity <= u64::MAX,
    ensures
        ({
            let (a, b) = (bits_at(neg_ln, capacity), bits_at(neg_ln, 2 * capacity));
            b == MAX_BITS || 2 * a - 1 <= b <= 2 * a
        }),
{
    let w = lemma_weight(neg_ln, capacity);
    let v = lemma_weight(neg_ln, 2 * capacity);
    binary64::lemma_nearest_double(capacity, 0);
    let n = Binary64::of(binary64::nearest(capacity, 0));
    let m = Binary64::of(binary64::nearest(2 * capacity, 0));
    binary64::lemma_nearest_range(capacity, 0);
    let x = (n.mant * neg_ln.mant) as nat;
    assert(x > 0) by (nonlinear_arith)
        requires
            n.mant > 0,
            neg_ln.mant > 0,
            x == n.mant * neg_ln.mant,
    ;
    binary64::lemma_nearest_double(x, n.exp + neg_ln.exp);
    assert(m.mant == n.mant && m.exp == n.exp + 1);
    lemma_bits_double(w, v);
}

/// The size and the hash functions of a filter go with its rate: the square of a rate takes
/// twice as many bits, or one less, unless that is more than there can be, and twice as many
/// hash functions, or one less.
pub proof fn lemma_bits_by_rate(neg_ln: Binary64, squared: Binary64, capacity: nat)
    requires
        neg_ln.wf(),
        neg_ln.mant > 0,
        -105 <= neg_ln.exp <= -2,
        squared.mant == neg_ln.mant,
        squared.exp == neg_ln.exp + 1,
        0 < capacity <= u64::MAX,
    ensures
        ({
            let (a, b) = (bits_at(neg_ln, capacity), bits_at(squared, capacity));
            b == MAX_BITS || 2 * a - 1 <= b <= 2 * a
        }),
        2 * hashes_at(neg_ln) - 1 <= hashes_at(squared) <= 2 * hashes_at(neg_ln),
        hashes_at(neg_ln) >= 1,
{
    let w = lemma_weight(neg_ln, capacity);
    let v = lemma_weight(squared, capacity);
    let n = Binary64::of(binary64::nearest(capacity, 0));
    binary64::lemma_nearest_range(capacity, 0);
    let x = (n.mant * neg_ln.mant) as nat;
    assert(x > 0) by (nonlinear_arith)
        requires
            n.mant > 0,
            neg_ln.mant > 0,
            x == n.mant * neg_ln.mant,
    ;
    binary64::lemma_nearest_double(x, n.exp + neg_ln.exp);
    lemma_bits_double(w, v);
    let p = lemma_quotient_range(neg_ln, ln_2());
    let q = lemma_quotient_range(squared, ln_2());
    binary64::lemma_ceiling_double(p, q);
    binary64::lemma_ceiling_positive(p);
}

/// An empty filter has the size, the hash functions and the number of bits for each value that
/// it was made with, and finds nothing.
pub proof fn lemma_empty_finds_nothing(
    len: nat,
    hashers: (SeededState, SeededState),
    hashes: u64,
    writes: Seq<Seq<u8>>,
)
    requires
        len > 0,
        hashes > 0,
    ensures
        ({
            let f = Filter::empty(len, hashers, hashes);
            f.bits.len() == len && f.hashers == hashers && f.hashes == hashes && !f.has(writes)
        }),
{
    let f = Filter::empty(len, hashers, hashes);
    let (h0, h1) = (hashers.0.hash_of(writes), hashers.1.hash_of(writes));
    let at = bit_index(h0, h1, 0, len as int);
    vstd::arithmetic::div_mod::lemma_mod_bound(
        counter::wrap_u64(h0 + 0 * h1) as int,
        len as int,
    );
    assert(f.marks(writes, at));
    assert(0 <= at < len);
    assert(!f.bits[at]);
}

} // verus!
