//! A Bloom filter that grows slice by slice, until a stopping strategy has seen enough.

pub mod expected_cost;

use crate::simulator::algorithms::bits::MAX_BITS;
use crate::simulator::algorithms::bloom;
use crate::simulator::algorithms::bloom::{seeded_hashers, BloomFilter, Filter, SeededState};
use crate::simulator::algorithms::hashing::HashKey;
use crate::simulator::clock::Stopwatch;
use crate::simulator::counter;
use crate::simulator::counter::{add_u128, add_usize, mul_usize};
use vstd::prelude::*;

verus! {

/// A growing filter, without the times it took.
#[verifier::ext_equal]
pub struct Slices<T> {
    pub filters: Seq<Filter>,
    pub data: Seq<T>,
    pub bits: nat,
}

impl<T: HashKey> Slices<T> {
    /// No slices yet. A slice has at least one bit and at most the longest bit vector's.
    pub open spec fn start(data: Seq<T>, m: nat) -> Slices<T> {
        Slices {
            filters: Seq::empty(),
            data,
            bits: if m < 1 {
                1
            } else if m > MAX_BITS {
                MAX_BITS as nat
            } else {
                m
            },
        }
    }

    /// One more slice, with the given hash functions.
    pub open spec fn extended_with(self, hashers: (SeededState, SeededState)) -> Slices<T> {
        Slices {
            filters: self.filters.push(
                Filter::empty(self.bits, hashers, 1).with_all(self.data),
            ),
            ..self
        }
    }

    /// One more slice, with the hash functions that belong to its index.
    pub open spec fn extended(self) -> Slices<T> {
        self.extended_with(bloom::slice_hashers(self.filters.len() as u64))
    }

    /// Whether every slice has the value.
    pub open spec fn has(self, value: T) -> bool {
        forall|i: int|
            0 <= i < self.filters.len() ==> (#[trigger] self.filters[i]).has(value.hash_writes())
    }

    /// Bytes on the wire: every slice and an 8-byte header, or nothing without slices.
    pub open spec fn wire(self) -> usize {
        if self.filters.len() == 0 {
            0
        } else {
            counter::wrap_usize(
                counter::wrap_usize(
                    (self.filters.len() * ((self.filters[0].bits.len() + 7) / 8)) as int,
                ) + 8,
            )
        }
    }
}

/// What decides when enough slices were seen.
pub trait StoppingStrategy<T: HashKey>: Sized {
    /// What the strategy remembers.
    type State;

    /// Whether the strategy keeps to what its other specifications say, and with that stops.
    /// Strategies that do not say so promise nothing.
    open spec fn obeys_verdict() -> bool {
        false
    }

    open spec fn state(&self) -> Self::State {
        arbitrary()
    }

    /// A bound on how many more slices are asked for.
    open spec fn rank(s: Self::State) -> nat {
        0
    }

    /// The state after a slice was added.
    open spec fn noticed(s: Self::State, bf: Slices<T>) -> Self::State {
        s
    }

    /// The elements that may be common and those that are not, when enough slices were seen.
    open spec fn verdict(s: Self::State, bf: Slices<T>) -> Option<(Seq<T>, Seq<T>)> {
        None
    }

    /// Takes notice of a new slice. Where that is not enough, the bound is lower.
    fn on_extend(&mut self, bf: &mut RatelessBF<T>)
        ensures
            Self::obeys_verdict() ==> {
                &&& final(self).state() == Self::noticed(old(self).state(), old(bf)@)
                &&& *final(bf) == *old(bf)
                &&& Self::rank(old(self).state()) <= usize::MAX
                &&& Self::verdict(final(self).state(), old(bf)@) is None ==> Self::rank(
                    final(self).state(),
                ) < Self::rank(old(self).state())
            },
    ;

    fn should_stop(&mut self, bf: &mut RatelessBF<T>) -> (r: Option<(Vec<T>, Vec<T>)>)
        ensures
            Self::obeys_verdict() ==> {
                &&& final(self).state() == old(self).state()
                &&& *final(bf) == *old(bf)
                &&& match r {
                    Some(parts) => Self::verdict(old(self).state(), old(bf)@) == Some(
                        (parts.0@, parts.1@),
                    ),
                    None => Self::verdict(old(self).state(), old(bf)@) is None,
                }
            },
    ;
}

/// What makes stopping strategies.
pub trait StoppingStrategyFactory<T: HashKey> {
    type Strategy: StoppingStrategy<T>;

    /// The state of a new strategy.
    spec fn fresh(&self, elements: Seq<T>, sample_size: nat) -> <Self::Strategy as StoppingStrategy<T>>::State;

    /// The name of the strategy.
    spec fn name(&self) -> Seq<char>;

    /// The parameters of the strategy.
    spec fn params(&self) -> Seq<char>;

    fn create(&self, elements: Vec<T>, sample_size: usize) -> (s: Self::Strategy)
        ensures
            s.state() == self.fresh(elements@, sample_size as nat),
    ;

    fn print_name(&self) -> (r: String)
        ensures
            r@ == self.name(),
    ;

    fn print_params(&self) -> (r: String)
        ensures
            r@ == self.params(),
    ;
}

/// The filter after it was extended until the strategy stopped, and the strategy's verdict.
/// Strategies that do not stop yet lower their bound.
pub open spec fn extended_until<T: HashKey, S: StoppingStrategy<T>>(bf: Slices<T>, s: S::State) -> (
    Slices<T>,
    (Seq<T>, Seq<T>),
)
    decreases S::rank(s),
{
    let next = bf.extended();
    let seen = S::noticed(s, next);
    match S::verdict(seen, next) {
        Some(parts) => (next, parts),
        None => if S::rank(seen) < S::rank(s) {
            extended_until::<T, S>(next, seen)
        } else {
            (next, (Seq::empty(), Seq::empty()))
        },
    }
}

/// A Bloom filter that grows slice by slice.
#[derive(Debug)]
pub struct RatelessBF<T: HashKey> {
    bloom_filters: Vec<BloomFilter<T>>,
    data: Vec<T>,
    m: usize,
    t_enc: u128,
    t_dec: u128,
}

impl<T: HashKey> View for RatelessBF<T> {
    type V = Slices<T>;

    closed spec fn view(&self) -> Slices<T> {
        Slices {
            filters: Seq::new(self.bloom_filters@.len(), |i: int| self.bloom_filters@[i]@),
            data: self.data@,
            bits: self.m as nat,
        }
    }
}

impl<T: HashKey> RatelessBF<T> {
    #[verifier::type_invariant]
    pub closed spec fn wf(self) -> bool {
        0 < self.m <= MAX_BITS
    }

    /// No slices yet.
    pub fn new(data: Vec<T>, m: usize) -> (r: Self)
        ensures
            r@ == Slices::start(data@, m as nat),
            r.wf(),
    {
        let bits: usize = if m < 1 {
            1
        } else if m > MAX_BITS {
            MAX_BITS
        } else {
            m
        };
        let r = RatelessBF { bloom_filters: Vec::new(), data, m: bits, t_enc: 0, t_dec: 0 };
        assert(r@ =~= Slices::start(data@, m as nat));
        r
    }

    pub fn len(&self) -> (n: usize)
        ensures
            n == self@.filters.len(),
    {
        self.bloom_filters.len()
    }

    pub fn is_empty(&self) -> (r: bool)
        ensures
            r == (self@.filters.len() == 0),
    {
        self.bloom_filters.len() == 0
    }

    pub fn data(&self) -> (r: &Vec<T>)
        ensures
            r@ == self@.data,
    {
        &self.data
    }

    /// The number of values that the slices hold.
    pub fn source_size(&self) -> (n: usize)
        ensures
            n == self@.data.len(),
    {
        self.data.len()
    }

    pub fn filters(&self) -> (r: &Vec<BloomFilter<T>>)
        ensures
            Seq::new(r@.len(), |i: int| r@[i]@) == self@.filters,
    {
        &self.bloom_filters
    }

    pub fn bits_per_filter(&self) -> (n: usize)
        ensures
            n == self@.bits,
    {
        self.m
    }

    /// Adds a slice with the hash functions of its index.
    pub fn extend(&mut self)
        ensures
            final(self)@ == old(self)@.extended(),
            final(self).wf(),
            final(self).times() == old(self).times(),
    {
        self.extend_with_hashers(seeded_hashers(self.bloom_filters.len() as u64));
    }

    /// Adds a slice with the given hash functions.
    pub fn extend_with_hashers(&mut self, hashers: [SeededState; 2])
        ensures
            final(self)@ == old(self)@.extended_with((hashers@[0], hashers@[1])),
            final(self).wf(),
            final(self).times() == old(self).times(),
    {
        proof {
            use_type_invariant(&*self);
        }
        let ghost start = self@;
        let mut filter: BloomFilter<T> = BloomFilter::from_raw_parts_with_hashers(
            self.m,
            1,
            hashers,
        );
        let ghost empty = filter@;
        let mut i: usize = 0;
        assert(self.data@.take(0) =~= Seq::<T>::empty());
        while i < self.data.len()
            invariant
                i <= self.data@.len(),
                filter@ == empty.with_all(self.data@.take(i as int)),
            decreases self.data@.len() - i,
        {
            filter.insert(&self.data[i]);
            assert(self.data@.take(i + 1).drop_last() =~= self.data@.take(i as int));
            i = i + 1;
        }
        assert(self.data@.take(i as int) =~= self.data@);
        let mut filters: Vec<BloomFilter<T>> = Vec::new();
        let ghost before = self.bloom_filters@;
        std::mem::swap(&mut filters, &mut self.bloom_filters);
        filters.push(filter);
        self.bloom_filters = filters;
        proof {
            use_type_invariant(&*self);
        }
        assert(self@ =~= start.extended_with((hashers@[0], hashers@[1])));
    }

    /// Whether every slice has the value.
    pub fn contains(&self, value: &T) -> (r: bool)
        ensures
            r == self@.has(*value),
    {
        let mut i: usize = 0;
        while i < self.bloom_filters.len()
            invariant
                i <= self.bloom_filters@.len(),
                forall|j: int|
                    0 <= j < i ==> (#[trigger] self@.filters[j]).has(value.hash_writes()),
            decreases self.bloom_filters@.len() - i,
        {
            if !self.bloom_filters[i].contains(value) {
                assert(!self@.filters[i as int].has(value.hash_writes()));
                return false;
            }
            assert(self@.filters[i as int].has(value.hash_writes()));
            i = i + 1;
        }
        true
    }

    /// Adds slices until the strategy stops; the strategy's verdict. A strategy that keeps its
    /// promises stops in time; any other one is cut off after the largest `usize` of slices.
    pub fn extend_until<S: StoppingStrategy<T>>(&mut self, strategy: S) -> (r: (Vec<T>, Vec<T>))
        ensures
            S::obeys_verdict() ==> {
                &&& (final(self)@, (r.0@, r.1@)) == extended_until::<T, S>(
                    old(self)@,
                    strategy.state(),
                )
                &&& final(self).times().0 >= old(self).times().0
                &&& final(self).times().1 >= old(self).times().1
            },
            final(self).wf(),
    {
        let mut strategy_now = strategy;
        let ghost goal = extended_until::<T, S>(self@, strategy.state());
        let mut left: usize = usize::MAX;
        proof {
            use_type_invariant(&*self);
        }
        loop
            invariant
                self.wf(),
                S::obeys_verdict() ==> {
                    &&& self.t_enc >= old(self).t_enc
                    &&& self.t_dec >= old(self).t_dec
                    &&& extended_until::<T, S>(self@, strategy_now.state()) == goal
                    &&& left < usize::MAX ==> S::rank(strategy_now.state()) <= left
                },
                goal == extended_until::<T, S>(old(self)@, strategy.state()),
            decreases left,
        {
            let enc = Stopwatch::start();
            self.extend();
            proof {
                use_type_invariant(&*self);
            }
            self.t_enc = add_u128(self.t_enc, enc.nanos());
            let dec = Stopwatch::start();
            strategy_now.on_extend(self);
            let stop: Option<(Vec<T>, Vec<T>)> = strategy_now.should_stop(self);
            proof {
                use_type_invariant(&*self);
            }
            self.t_dec = add_u128(self.t_dec, dec.nanos());
            match stop {
                Some(parts) => {
                    return parts;
                },
                None => {},
            }
            if left == 0 {
                return (Vec::new(), Vec::new());
            }
            left = left - 1;
        }
    }

    /// Tells the strategy of a new slice.
    pub fn on_extend<S: StoppingStrategy<T>>(&mut self, strategy: S)
        ensures
            S::obeys_verdict() ==> *final(self) == *old(self),
            final(self).wf(),
    {
        let mut strategy_now = strategy;
        strategy_now.on_extend(self);
        proof {
            use_type_invariant(&*self);
        }
    }

    /// Bytes on the wire: every slice and an 8-byte header, or nothing without slices.
    pub fn size_of(&self) -> (n: usize)
        ensures
            n == self@.wire(),
    {
        if self.bloom_filters.len() == 0 {
            return 0;
        }
        let one: usize = self.bloom_filters[0].byte_len();
        assert(self@.filters[0] == self.bloom_filters@[0]@);
        add_usize(mul_usize(self.bloom_filters.len(), one), 8)
    }

    /// Nanoseconds spent on adding slices and on deciding.
    pub closed spec fn times(self) -> (u128, u128) {
        (self.t_enc, self.t_dec)
    }

    pub fn t_enc(&self) -> (t: u128)
        ensures
            t == self.times().0,
    {
        self.t_enc
    }

    pub fn t_dec(&self) -> (t: u128)
        ensures
            t == self.times().1,
    {
        self.t_dec
    }
}

/// A slice that holds all values, with some hash functions.
pub open spec fn full_slice<T: HashKey>(f: Filter, bits: nat, data: Seq<T>) -> bool {
    exists|hashers: (SeededState, SeededState)|
        f == #[trigger] Filter::empty(bits, hashers, 1).with_all(data)
}

/// The slices of a filter are those that extending it makes: each holds all values.
pub open spec fn grown<T: HashKey>(bf: Slices<T>) -> bool {
    forall|i: int|
        0 <= i < bf.filters.len() ==> full_slice(#[trigger] bf.filters[i], bf.bits, bf.data)
}

/// A filter that grew by extension has each of its values: there are no false negatives.
pub proof fn lemma_values_are_found<T: HashKey>(bf: Slices<T>, i: int)
    requires
        grown(bf),
        0 <= i < bf.data.len(),
    ensures
        bf.has(bf.data[i]),
{
    assert forall|j: int| 0 <= j < bf.filters.len() implies (#[trigger] bf.filters[j]).has(
        bf.data[i].hash_writes(),
    ) by {
        assert(full_slice(bf.filters[j], bf.bits, bf.data));
        let hashers = choose|hashers: (SeededState, SeededState)|
            bf.filters[j] == #[trigger] Filter::empty(bf.bits, hashers, 1).with_all(bf.data);
        bloom::lemma_all_found(Filter::empty(bf.bits, hashers, 1), bf.data, i);
    }
}

/// Extending keeps what was there, and a filter that grew by extension goes on doing so.
pub proof fn lemma_extension_grows<T: HashKey>(bf: Slices<T>, hashers: (SeededState, SeededState))
    requires
        grown(bf),
    ensures
        grown(bf.extended_with(hashers)),
        bf.extended_with(hashers).filters.take(bf.filters.len() as int) == bf.filters,
{
    let next = bf.extended_with(hashers);
    assert(next.filters.take(bf.filters.len() as int) =~= bf.filters);
    assert forall|i: int| 0 <= i < next.filters.len() implies full_slice(
        #[trigger] next.filters[i],
        next.bits,
        next.data,
    ) by {
        if i < bf.filters.len() {
            assert(next.filters[i] == bf.filters[i]);
        } else {
            assert(next.filters[i] == Filter::empty(next.bits, hashers, 1).with_all(next.data));
        }
    }
}

/// Another slice never adds to what a filter has.
pub proof fn lemma_extension_narrows<T: HashKey>(
    bf: Slices<T>,
    hashers: (SeededState, SeededState),
    value: T,
)
    requires
        bf.extended_with(hashers).has(value),
    ensures
        bf.has(value),
{
    let next = bf.extended_with(hashers);
    assert forall|i: int| 0 <= i < bf.filters.len() implies (#[trigger] bf.filters[i]).has(
        value.hash_writes(),
    ) by {
        assert(next.filters[i] == bf.filters[i]);
    }
}

/// Every slice is on the bill: the first one costs its bytes and a header of eight, and each
/// further one exactly its bytes more, unless the counter overflows. Without slices there is
/// nothing to pay.
pub proof fn lemma_each_slice_is_billed<T: HashKey>(
    bf: Slices<T>,
    hashers: (SeededState, SeededState),
)
    requires
        grown(bf),
        (bf.filters.len() + 1) * ((bf.bits + 7) / 8) + 8 <= usize::MAX,
    ensures
        bf.filters.len() == 0 ==> bf.wire() == 0,
        bf.extended_with(hashers).wire() == bf.wire() + (bf.bits + 7) / 8 + (
        if bf.filters.len() == 0 {
            8int
        } else {
            0
        }),
{
    let next = bf.extended_with(hashers);
    let (n, one) = (bf.filters.len(), (bf.bits + 7) / 8);
    lemma_extension_grows(bf, hashers);
    assert(full_slice(next.filters[0], next.bits, next.data));
    lemma_slice_len(next, 0);
    assert((n + 1) * one == n * one + one) by (nonlinear_arith);
    assert(n * one >= 0) by (nonlinear_arith);
    if n > 0 {
        lemma_slice_len(bf, 0);
        counter::lemma_wrap_small((n * one) as int);
        counter::lemma_wrap_small((n * one + 8) as int);
    }
    counter::lemma_wrap_small(((n + 1) * one) as int);
    counter::lemma_wrap_small(((n + 1) * one + 8) as int);
    assert(next.filters.len() == n + 1);
    assert((next.filters[0].bits.len() + 7) / 8 == one);
    assert(next.filters.len() * ((next.filters[0].bits.len() + 7) / 8) == (n + 1) * one);
    assert(next.wire() == (n + 1) * one + 8);
    if n > 0 {
        assert((bf.filters[0].bits.len() + 7) / 8 == one);
        assert(bf.wire() == n * one + 8);
    } else {
        assert((0 + 1) * one == one) by (nonlinear_arith);
    }
}

proof fn lemma_slice_len<T: HashKey>(bf: Slices<T>, i: int)
    requires
        grown(bf),
        0 <= i < bf.filters.len(),
    ensures
        bf.filters[i].bits.len() == bf.bits,
{
    assert(full_slice(bf.filters[i], bf.bits, bf.data));
    let hashers = choose|hashers: (SeededState, SeededState)|
        bf.filters[i] == #[trigger] Filter::empty(bf.bits, hashers, 1).with_all(bf.data);
    bloom::lemma_with_all_shape(Filter::empty(bf.bits, hashers, 1), bf.data);
}

/// A filter after it was extended a number of times.
pub open spec fn extended_times<T: HashKey>(bf: Slices<T>, n: nat) -> Slices<T>
    decreases n,
{
    if n == 0 {
        bf
    } else {
        extended_times(bf, (n - 1) as nat).extended()
    }
}

proof fn lemma_slice_hashers<T: HashKey>(data: Seq<T>, m: nat, n: nat, i: int)
    requires
        n < 0x8000_0000_0000_0000,
        0 <= i < n,
    ensures
        extended_times(Slices::start(data, m), n).filters.len() == n,
        extended_times(Slices::start(data, m), n).filters[i].hashers == bloom::slice_hashers(
            i as u64,
        ),
    decreases n,
{
    let start = Slices::start(data, m);
    let before = extended_times(start, (n - 1) as nat);
    if n > 1 {
        lemma_slice_hashers(data, m, (n - 1) as nat, if i < n - 1 {
            i
        } else {
            0
        });
    } else {
        assert(before == start);
    }
    let empty = Filter::empty(before.bits, bloom::slice_hashers((n - 1) as u64), 1);
    bloom::lemma_with_all_shape(empty, before.data);
}

/// Every slice looks at the values anew: however often a filter is extended, no two of its
/// slices share a hash function.
pub proof fn lemma_slices_apart<T: HashKey>(data: Seq<T>, m: nat, n: nat, i: int, j: int)
    requires
        n < 0x8000_0000_0000_0000,
        0 <= i < j < n,
    ensures
        ({
            let f = extended_times(Slices::start(data, m), n).filters;
            &&& f.len() == n
            &&& f[i].hashers.0 != f[j].hashers.0
            &&& f[i].hashers.1 != f[j].hashers.1
            &&& f[i].hashers.0 != f[i].hashers.1
        }),
{
    lemma_slice_hashers(data, m, n, i);
    lemma_slice_hashers(data, m, n, j);
    bloom::lemma_slices_hash_apart(i as u64, j as u64);
}

/// A filter starts with the data and the slice size that it was made with, and without slices.
/// Every slice that is added has that size and one bit for each value.
pub proof fn lemma_slices_start<T: HashKey>(
    data: Seq<T>,
    m: nat,
    hashers: (SeededState, SeededState),
)
    requires
        1 <= m <= MAX_BITS,
    ensures
        Slices::start(data, m).bits == m,
        Slices::start(data, m).data == data,
        Slices::start(data, m).filters.len() == 0,
        ({
            let slice = Slices::start(data, m).extended_with(hashers).filters[0];
            slice.bits.len() == m && slice.hashes == 1 && slice.hashers == hashers
        }),
{
    bloom::lemma_with_all_shape(Filter::empty(m, hashers, 1), data);
}

} // verus!
