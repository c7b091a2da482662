//! Stops when another slice costs more than it is expected to save.

use crate::simulator::algorithms::bloom::Filter;
use crate::simulator::algorithms::{bloom, rateless_bloom};
use crate::simulator::algorithms::hashing::HashKey;
use crate::simulator::algorithms::rateless_bloom::{
    RatelessBF, Slices, StoppingStrategy, StoppingStrategyFactory,
};
use crate::simulator::text;
use crate::simulator::text::decimal;
use vstd::prelude::*;
use vstd::string::*;

verus! {

/// Bytes that reconciling one left-over element costs.
pub const RATELESS_SET_RECONCILIATION_OVERHEAD: usize = 11;

/// The elements still possibly common, those known not to be, and how many the newest slice
/// ruled out.
#[verifier::ext_equal]
pub struct Sieve {
    pub common: Seq<u64>,
    pub missing: Seq<u64>,
    pub ruled_out: nat,
}

impl Sieve {
    /// Sorts the first `n` of the candidates by what a slice says of them.
    pub open spec fn sifted(common: Seq<u64>, missing: Seq<u64>, f: Filter, n: nat) -> Sieve
        decreases n,
    {
        if n == 0 {
            Sieve { common: Seq::empty(), missing, ruled_out: 0 }
        } else {
            let before = Self::sifted(common, missing, f, (n - 1) as nat);
            let d = common[n - 1];
            if f.has(d.hash_writes()) {
                Sieve { common: before.common.push(d), ..before }
            } else {
                Sieve {
                    missing: before.missing.push(d),
                    ruled_out: before.ruled_out + 1,
                    ..before
                }
            }
        }
    }
}

/// How many elements a slice of the given number of bits has to rule out to pay for itself.
pub open spec fn threshold(bits: nat) -> nat {
    let t = bits / (8 * RATELESS_SET_RECONCILIATION_OVERHEAD as nat);
    if t < 1 {
        1
    } else {
        t
    }
}

proof fn lemma_sifted_len(common: Seq<u64>, missing: Seq<u64>, f: Filter, n: nat)
    ensures
        Sieve::sifted(common, missing, f, n).common.len() + Sieve::sifted(
            common,
            missing,
            f,
            n,
        ).ruled_out == n,
    decreases n,
{
    if n > 0 {
        lemma_sifted_len(common, missing, f, (n - 1) as nat);
    }
}

/// Asking for another slice means that the newest one ruled something out.
proof fn lemma_rank(s: Sieve, bf: Slices<u64>)
    ensures
        ExpectedCost::verdict(ExpectedCost::noticed(s, bf), bf) is None ==> ExpectedCost::rank(
            ExpectedCost::noticed(s, bf),
        ) < ExpectedCost::rank(s),
{
    lemma_sifted_len(s.common, s.missing, bf.filters.last(), s.common.len());
}

/// Sifts candidates slice by slice.
#[derive(Debug)]
pub struct ExpectedCost {
    common: Vec<u64>,
    missing: Vec<u64>,
    ruled_out: usize,
}

impl StoppingStrategy<u64> for ExpectedCost {
    type State = Sieve;

    open spec fn obeys_verdict() -> bool {
        true
    }

    closed spec fn state(&self) -> Sieve {
        Sieve {
            common: self.common@,
            missing: self.missing@,
            ruled_out: self.ruled_out as nat,
        }
    }

    open spec fn rank(s: Sieve) -> nat {
        s.common.len()
    }

    open spec fn noticed(s: Sieve, bf: Slices<u64>) -> Sieve {
        if bf.filters.len() == 0 {
            Sieve { ruled_out: 0, ..s }
        } else {
            Sieve::sifted(s.common, s.missing, bf.filters.last(), s.common.len())
        }
    }

    open spec fn verdict(s: Sieve, bf: Slices<u64>) -> Option<(Seq<u64>, Seq<u64>)> {
        if s.ruled_out < threshold(bf.bits) {
            Some((s.common, s.missing))
        } else {
            None
        }
    }

    fn on_extend(&mut self, bf: &mut RatelessBF<u64>) {
        let ghost start = self.state();
        proof {
            assert(self.common@.len() == self.common.len());
            lemma_rank(start, bf@);
        }
        let count: usize = bf.len();
        if count == 0 {
            self.ruled_out = 0;
            assert(self.state() =~= Self::noticed(start, bf@));
            return;
        }
        let filter = &bf.filters()[count - 1];
        let ghost f = bf@.filters.last();
        assert(filter@ == f);
        let mut common: Vec<u64> = Vec::new();
        let mut ruled_out: usize = 0;
        let mut i: usize = 0;
        while i < self.common.len()
            invariant
                i <= self.common@.len(),
                ruled_out <= i,
                start.common == self.common@,
                filter@ == f,
                ({
                    let s = Sieve::sifted(start.common, start.missing, f, i as nat);
                    &&& s.common == common@
                    &&& s.missing == self.missing@
                    &&& s.ruled_out == ruled_out
                }),
            decreases self.common@.len() - i,
        {
            let d: u64 = self.common[i];
            if filter.contains(&d) {
                common.push(d);
            } else {
                self.missing.push(d);
                ruled_out = ruled_out + 1;
            }
            i = i + 1;
        }
        self.common = common;
        self.ruled_out = ruled_out;
        assert(self.state() =~= Self::noticed(start, bf@));
    }

    fn should_stop(&mut self, bf: &mut RatelessBF<u64>) -> (r: Option<(Vec<u64>, Vec<u64>)>) {
        let t: usize = bf.bits_per_filter() / (8 * RATELESS_SET_RECONCILIATION_OVERHEAD);
        let least: usize = if t < 1 {
            1
        } else {
            t
        };
        if self.ruled_out < least {
            let common = self.common.clone();
            let missing = self.missing.clone();
            assert(common@ =~= self.common@);
            assert(missing@ =~= self.missing@);
            Some((common, missing))
        } else {
            None
        }
    }
}

/// Makes strategies that sift a list of candidates.
#[derive(Clone, Copy, Debug, PartialEq, Eq, Structural)]
pub struct ExpectedCostFactory;

impl ExpectedCostFactory {
    pub fn new() -> (f: Self)
        ensures
            f.name() == "ExpectedCost"@,
    {
        ExpectedCostFactory
    }
}

impl StoppingStrategyFactory<u64> for ExpectedCostFactory {
    type Strategy = ExpectedCost;

    open spec fn fresh(&self, elements: Seq<u64>, sample_size: nat) -> Sieve {
        Sieve { common: elements, missing: Seq::empty(), ruled_out: 0 }
    }

    open spec fn name(&self) -> Seq<char> {
        "ExpectedCost"@
    }

    open spec fn params(&self) -> Seq<char> {
        "overhead="@ + text::digits(RATELESS_SET_RECONCILIATION_OVERHEAD as nat)
    }

    fn create(&self, elements: Vec<u64>, sample_size: usize) -> (s: ExpectedCost) {
        let s = ExpectedCost { common: elements, missing: Vec::new(), ruled_out: 0 };
        assert(s.state() =~= self.fresh(elements@, sample_size as nat));
        s
    }

    fn print_name(&self) -> (r: String) {
        "ExpectedCost".to_string()
    }

    fn print_params(&self) -> (r: String) {
        let mut r: String = "overhead=".to_string();
        r.append(decimal(RATELESS_SET_RECONCILIATION_OVERHEAD as u128).as_str());
        r
    }
}

/// None of the listed digests is among the data.
pub open spec fn apart(listed: Seq<u64>, data: Seq<u64>) -> bool {
    forall|i: int| 0 <= i < listed.len() ==> !data.contains(#[trigger] listed[i])
}

proof fn lemma_sifted_apart(common: Seq<u64>, missing: Seq<u64>, bits: nat, data: Seq<u64>, f: Filter, n: nat)
    requires
        rateless_bloom::full_slice(f, bits, data),
        apart(missing, data),
        n <= common.len(),
    ensures
        apart(Sieve::sifted(common, missing, f, n).missing, data),
    decreases n,
{
    if n > 0 {
        lemma_sifted_apart(common, missing, bits, data, f, (n - 1) as nat);
        let before = Sieve::sifted(common, missing, f, (n - 1) as nat);
        let d = common[n - 1];
        if !f.has(d.hash_writes()) && data.contains(d) {
            let i = choose|i: int| 0 <= i < data.len() && data[i] == d;
            let hashers = choose|hashers: (bloom::SeededState, bloom::SeededState)|
                f == #[trigger] Filter::empty(bits, hashers, 1).with_all(data);
            bloom::lemma_all_found(Filter::empty(bits, hashers, 1), data, i);
        }
    }
}

/// Every digest that the strategy declares missing is missing from the filter's data.
pub proof fn lemma_missing_is_missing(bf: Slices<u64>, s: Sieve)
    requires
        rateless_bloom::grown(bf),
        apart(s.missing, bf.data),
    ensures
        apart(rateless_bloom::extended_until::<u64, ExpectedCost>(bf, s).1.1, bf.data),
    decreases s.common.len(),
{
    let next = bf.extended();
    rateless_bloom::lemma_extension_grows(bf, bloom::slice_hashers(bf.filters.len() as u64));
    let seen = ExpectedCost::noticed(s, next);
    assert(rateless_bloom::full_slice(
        next.filters[next.filters.len() - 1],
        next.bits,
        next.data,
    ));
    lemma_sifted_apart(
        s.common,
        s.missing,
        next.bits,
        next.data,
        next.filters.last(),
        s.common.len(),
    );
    lemma_rank(s, next);
    if ExpectedCost::verdict(seen, next) is None {
        lemma_missing_is_missing(next, seen);
    }
}

proof fn lemma_sifted_all(common: Seq<u64>, missing: Seq<u64>, f: Filter, n: nat)
    requires
        n <= common.len(),
        forall|i: int| 0 <= i < n ==> f.has((#[trigger] common[i]).hash_writes()),
    ensures
        Sieve::sifted(common, missing, f, n) == (Sieve {
            common: common.take(n as int),
            missing,
            ruled_out: 0,
        }),
    decreases n,
{
    if n > 0 {
        lemma_sifted_all(common, missing, f, (n - 1) as nat);
        assert(f.has(common[n - 1].hash_writes()));
        assert(common.take(n as int) =~= common.take(n - 1).push(common[n - 1]));
    } else {
        assert(common.take(0) =~= Seq::<u64>::empty());
    }
}

/// Sifting the very digests that a filter holds stops after one slice, with all of them
/// possibly common and none missing.
pub proof fn lemma_same_digests(data: Seq<u64>, m: nat)
    ensures
        rateless_bloom::extended_until::<u64, ExpectedCost>(
            Slices::start(data, m),
            Sieve { common: data, missing: Seq::empty(), ruled_out: 0 },
        ) == (Slices::start(data, m).extended(), (data, Seq::<u64>::empty())),
{
    let start = Slices::start(data, m);
    let next = start.extended();
    let f = next.filters.last();
    let hashers = bloom::slice_hashers(0);
    assert(f == Filter::empty(start.bits, hashers, 1).with_all(data));
    assert forall|i: int| 0 <= i < data.len() implies f.has((#[trigger] data[i]).hash_writes()) by {
        bloom::lemma_all_found(Filter::empty(start.bits, hashers, 1), data, i);
    }
    lemma_sifted_all(data, Seq::empty(), f, data.len());
    assert(data.take(data.len() as int) =~= data);
}

proof fn lemma_sifted_parts(common: Seq<u64>, missing: Seq<u64>, f: Filter, n: nat, d: u64)
    requires
        n <= common.len(),
    ensures
        ({
            let s = Sieve::sifted(common, missing, f, n);
            s.common.contains(d) || s.missing.contains(d) <==> common.take(n as int).contains(d)
                || missing.contains(d)
        }),
    decreases n,
{
    if n > 0 {
        lemma_sifted_parts(common, missing, f, (n - 1) as nat, d);
        let before = Sieve::sifted(common, missing, f, (n - 1) as nat);
        let last = common[n - 1];
        assert(common.take(n as int) =~= common.take(n - 1).push(last));
        lemma_pushed(common.take(n - 1), last, d);
        lemma_pushed(before.common, last, d);
        lemma_pushed(before.missing, last, d);
    }
}

proof fn lemma_pushed(s: Seq<u64>, last: u64, d: u64)
    ensures
        s.push(last).contains(d) <==> s.contains(d) || last == d,
{
    let t = s.push(last);
    if s.contains(d) {
        let i = choose|i: int| 0 <= i < s.len() && s[i] == d;
        assert(t[i] == d);
    }
    if last == d {
        assert(t[s.len() as int] == d);
    }
    if t.contains(d) && last != d {
        let i = choose|i: int| 0 <= i < t.len() && t[i] == d;
        assert(s[i] == d);
    }
}

/// Sifting loses no candidate and adds none: each ends up possibly common or missing.
pub proof fn lemma_parted(bf: Slices<u64>, s: Sieve, d: u64)
    ensures
        ({
            let (common, missing) = rateless_bloom::extended_until::<u64, ExpectedCost>(bf, s).1;
            common.contains(d) || missing.contains(d) <==> s.common.contains(d)
                || s.missing.contains(d)
        }),
    decreases s.common.len(),
{
    let next = bf.extended();
    let seen = ExpectedCost::noticed(s, next);
    lemma_sifted_parts(s.common, s.missing, next.filters.last(), s.common.len(), d);
    assert(s.common.take(s.common.len() as int) =~= s.common);
    lemma_rank(s, next);
    if ExpectedCost::verdict(seen, next) is None {
        lemma_parted(next, seen, d);
    }
}

/// None of the slices from `from` up to `to` rules the digest out.
pub open spec fn stands(bf: Slices<u64>, from: int, to: int, d: u64) -> bool {
    forall|i: int| from <= i < to ==> (#[trigger] bf.filters[i]).has(d.hash_writes())
}

/// The listed digests that none of the slices from `from` up to `to` rules out.
pub open spec fn standing(listed: Seq<u64>, bf: Slices<u64>, from: int, to: int) -> Seq<u64> {
    listed.filter(|d: u64| stands(bf, from, to, d))
}

proof fn lemma_sifted_kept(common: Seq<u64>, missing: Seq<u64>, f: Filter, n: nat)
    requires
        n <= common.len(),
    ensures
        Sieve::sifted(common, missing, f, n).common == common.take(n as int).filter(
            |d: u64| f.has(d.hash_writes()),
        ),
    decreases n,
{
    reveal(Seq::filter);
    let keep = |d: u64| f.has(d.hash_writes());
    if n > 0 {
        lemma_sifted_kept(common, missing, f, (n - 1) as nat);
        assert(common.take(n as int).drop_last() =~= common.take(n - 1));
        assert(common.take(n as int).last() == common[n - 1]);
    } else {
        assert(common.take(0).filter(keep) =~= Seq::<u64>::empty());
    }
}

proof fn lemma_filter_twice(
    s: Seq<u64>,
    a: spec_fn(u64) -> bool,
    b: spec_fn(u64) -> bool,
    both: spec_fn(u64) -> bool,
)
    requires
        forall|d: u64| #[trigger] both(d) == (a(d) && b(d)),
    ensures
        s.filter(a).filter(b) == s.filter(both),
    decreases s.len(),
{
    reveal(Seq::filter);
    if s.len() > 0 {
        let rest = s.drop_last();
        lemma_filter_twice(rest, a, b, both);
        let x = s.last();
        assert(both(x) == (a(x) && b(x)));
        if a(x) {
            assert(rest.filter(a).push(x).drop_last() =~= rest.filter(a));
            assert(rest.filter(a).push(x).last() == x);
        }
    } else {
        assert(s.filter(a) =~= s);
        assert(s.filter(both) =~= s);
    }
}

proof fn lemma_filter_alike(s: Seq<u64>, a: spec_fn(u64) -> bool, b: spec_fn(u64) -> bool)
    requires
        forall|d: u64| #[trigger] a(d) == b(d),
    ensures
        s.filter(a) == s.filter(b),
    decreases s.len(),
{
    reveal(Seq::filter);
    if s.len() > 0 {
        lemma_filter_alike(s.drop_last(), a, b);
        assert(a(s.last()) == b(s.last()));
    }
}

/// Sifting adds slices of all the data behind those that are there, at least one, and calls
/// possibly common exactly the candidates that none of the added slices rules out, in their
/// order.
pub proof fn lemma_sifting_keeps(bf: Slices<u64>, s: Sieve)
    ensures
        ({
            let (end, (common, missing)) = rateless_bloom::extended_until::<u64, ExpectedCost>(
                bf,
                s,
            );
            let n = bf.filters.len() as int;
            &&& end.data == bf.data
            &&& end.bits == bf.bits
            &&& end.filters.len() > n
            &&& end.filters.take(n) == bf.filters
            &&& forall|i: int|
                n <= i < end.filters.len() ==> rateless_bloom::full_slice(
                    #[trigger] end.filters[i],
                    bf.bits,
                    bf.data,
                )
            &&& common == standing(s.common, end, n, end.filters.len() as int)
        }),
    decreases s.common.len(),
{
    let next = bf.extended();
    let n = bf.filters.len() as int;
    let f = next.filters.last();
    let seen = ExpectedCost::noticed(s, next);
    let (end, (common, missing)) = rateless_bloom::extended_until::<u64, ExpectedCost>(bf, s);
    assert(f == Filter::empty(
        bf.bits,
        bloom::slice_hashers(bf.filters.len() as u64),
        1,
    ).with_all(bf.data));
    assert(rateless_bloom::full_slice(f, bf.bits, bf.data));
    assert(next.filters.take(n) =~= bf.filters);
    lemma_sifted_kept(s.common, s.missing, f, s.common.len());
    assert(s.common.take(s.common.len() as int) =~= s.common);
    let new = |d: u64| f.has(d.hash_writes());
    assert(seen.common == s.common.filter(new));
    lemma_rank(s, next);
    let all = |d: u64| stands(end, n, end.filters.len() as int, d);
    if ExpectedCost::verdict(seen, next) is None {
        lemma_sifting_keeps(next, seen);
        assert(end.filters.take(n + 1) == next.filters);
        assert(end.filters[n] == next.filters[n]) by {
            assert(end.filters.take(n + 1)[n] == end.filters[n]);
        }
        assert(end.filters.take(n) =~= next.filters.take(n)) by {
            assert(end.filters.take(n + 1).take(n) =~= end.filters.take(n));
        }
        let later = |d: u64| stands(end, n + 1, end.filters.len() as int, d);
        assert forall|d: u64| #[trigger] all(d) == (new(d) && later(d)) by {
            if all(d) {
                assert(end.filters[n].has(d.hash_writes()));
            }
            if new(d) && later(d) {
                assert forall|i: int| n <= i < end.filters.len() implies (
                #[trigger] end.filters[i]).has(d.hash_writes()) by {
                    if i == n {
                    }
                }
            }
        }
        lemma_filter_twice(s.common, new, later, all);
    } else {
        assert(end == next);
        assert forall|d: u64| #[trigger] new(d) == all(d) by {
            if all(d) {
                assert(end.filters[n].has(d.hash_writes()));
            }
        }
        lemma_filter_alike(s.common, new, all);
    }
}

/// A slice that rules out so many candidates is worth its bytes: each of them would cost eleven
/// bytes to reconcile, up to one, and at least one is ruled out.
pub open spec fn pays_off(bits: nat, ruled_out: int) -> bool {
    ruled_out >= 1 && 8 * 11 * (ruled_out + 1) > bits
}

/// Sifting goes on as long as it pays and no longer: every slice that was added but the last
/// ruled out enough candidates to be worth its bytes, and the last one did not.
pub proof fn lemma_sifting_pays(bf: Slices<u64>, s: Sieve)
    ensures
        ({
            let end = rateless_bloom::extended_until::<u64, ExpectedCost>(bf, s).0;
            let n = bf.filters.len() as int;
            forall|i: int|
                n <= i < end.filters.len() ==> (pays_off(
                    bf.bits,
                    standing(s.common, end, n, i).len() - (#[trigger] standing(
                        s.common,
                        end,
                        n,
                        i + 1,
                    )).len(),
                ) <==> i < end.filters.len() - 1)
        }),
    decreases s.common.len(),
{
    let next = bf.extended();
    let n = bf.filters.len() as int;
    let f = next.filters.last();
    let seen = ExpectedCost::noticed(s, next);
    let end = rateless_bloom::extended_until::<u64, ExpectedCost>(bf, s).0;
    lemma_sifting_keeps(bf, s);
    lemma_sifted_kept(s.common, s.missing, f, s.common.len());
    assert(s.common.take(s.common.len() as int) =~= s.common);
    lemma_sifted_len(s.common, s.missing, f, s.common.len());
    let new = |d: u64| f.has(d.hash_writes());
    assert(seen.common == s.common.filter(new));
    lemma_rank(s, next);
    let more = ExpectedCost::verdict(seen, next) is None;
    assert(end.filters[n] == f) by {
        if more {
            lemma_sifting_keeps(next, seen);
            assert(end.filters.take(n + 1)[n] == end.filters[n]);
        }
    }
    let none = |d: u64| stands(end, n, n, d);
    let one = |d: u64| stands(end, n, n + 1, d);
    lemma_filter_every(s.common, none);
    assert forall|d: u64| #[trigger] new(d) == one(d) by {
        if one(d) {
            assert(end.filters[n].has(d.hash_writes()));
        }
    }
    lemma_filter_alike(s.common, new, one);
    let out = s.common.len() - seen.common.len();
    assert(seen.ruled_out == out);
    lemma_threshold(next.bits, out as nat);
    assert(more == pays_off(bf.bits, out));
    if more {
        lemma_sifting_pays(next, seen);
        lemma_sifting_keeps(next, seen);
    }
    assert forall|i: int| n <= i < end.filters.len() implies (pays_off(
        bf.bits,
        standing(s.common, end, n, i).len() - (#[trigger] standing(
            s.common,
            end,
            n,
            i + 1,
        )).len(),
    ) <==> i < end.filters.len() - 1) by {
        if i > n {
            lemma_standing_after(s.common, seen.common, end, n, i);
            lemma_standing_after(s.common, seen.common, end, n, i + 1);
        }
    }
}

proof fn lemma_filter_every(s: Seq<u64>, keep: spec_fn(u64) -> bool)
    requires
        forall|d: u64| #[trigger] keep(d),
    ensures
        s.filter(keep) == s,
    decreases s.len(),
{
    reveal(Seq::filter);
    if s.len() > 0 {
        lemma_filter_every(s.drop_last(), keep);
        assert(keep(s.last()));
        assert(s.drop_last().push(s.last()) =~= s);
    } else {
        assert(s.filter(keep) =~= s);
    }
}

proof fn lemma_standing_after(
    listed: Seq<u64>,
    kept: Seq<u64>,
    end: Slices<u64>,
    n: int,
    to: int,
)
    requires
        n < to,
        kept == listed.filter(|d: u64| end.filters[n].has(d.hash_writes())),
    ensures
        standing(kept, end, n + 1, to) == standing(listed, end, n, to),
{
    let new = |d: u64| end.filters[n].has(d.hash_writes());
    let later = |d: u64| stands(end, n + 1, to, d);
    let all = |d: u64| stands(end, n, to, d);
    assert forall|d: u64| #[trigger] all(d) == (new(d) && later(d)) by {
        if all(d) {
            assert(end.filters[n].has(d.hash_writes()));
        }
    }
    lemma_filter_twice(listed, new, later, all);
}

proof fn lemma_threshold(bits: nat, out: nat)
    ensures
        out >= threshold(bits) <==> pays_off(bits, out as int),
{
    assert(8 * RATELESS_SET_RECONCILIATION_OVERHEAD as nat == 88);
    let t = bits / 88;
    assert(88 * t <= bits < 88 * (t + 1));
}

} // verus!
