//! Rateless reconciliation of two lists of digests.
//!
//! Both sides code their digests, each of them once, into ever more symbols. Subtracting the symbols of one side
//! from those of the other cancels what both hold. Symbols are consumed until what is left
//! can be peeled away and turns out to be the difference of the lists.

pub mod mapping;

use crate::simulator::algorithms::multiparty_sketch::digest_hash;
use crate::simulator::algorithms::multiparty_sketch;
use crate::simulator::algorithms::riblt::mapping::SymbolMapping;
use crate::simulator::clock::Stopwatch;
use crate::simulator::counter;
use crate::simulator::counter::{add_i64, add_u128, add_u64, sub_i64, sub_u64};
use std::collections::HashSet;
use vstd::prelude::*;

verus! {

/// No code is extended past this many symbols.
pub const MAX_SYMBOLS: usize = 0x4000_0000;

/// A coded symbol: the sum of the digests that enter it, the sum of their hashes, both modulo
/// `2^64`, and their number. Digests of the other side count with the opposite sign.
#[derive(Clone, Copy, Debug, PartialEq, Eq, Structural)]
pub struct CodedSymbol {
    pub sum: u64,
    pub check: u64,
    pub count: i64,
}

/// Whether a digest enters the symbol with index `j`: its walk meets that index.
pub open spec fn enters(d: u64, j: int) -> bool {
    exists|k: nat|
        k < mapping::MAX_DRAWS && #[trigger] mapping::index_at(multiparty_sketch::hash_of(d), k)
            == j
}

impl CodedSymbol {
    pub open spec fn zero() -> CodedSymbol {
        CodedSymbol { sum: 0, check: 0, count: 0 }
    }

    /// The symbol after a digest was entered (`s` is one) or taken out (`s` is minus one).
    pub open spec fn moved(self, d: u64, s: int) -> CodedSymbol {
        CodedSymbol {
            sum: counter::wrap_u64(self.sum + s * d),
            check: counter::wrap_u64(self.check + s * multiparty_sketch::hash_of(d)),
            count: counter::wrap_i64(self.count + s),
        }
    }

    /// The digest that would make up the symbol alone.
    pub open spec fn candidate(self) -> u64 {
        if self.count == 1 {
            self.sum
        } else {
            counter::wrap_u64(-self.sum)
        }
    }

    /// Whether the symbol holds one digest alone, going by its hash.
    pub open spec fn pure(self) -> bool {
        let h = multiparty_sketch::hash_of(self.candidate());
        ||| self.count == 1 && self.check == h
        ||| self.count == -1 && self.check == counter::wrap_u64(-h)
    }

    fn sole_digest(&self) -> (r: Option<u64>)
        ensures
            r == if self.pure() {
                Some(self.candidate())
            } else {
                None
            },
    {
        if self.count == 1 {
            if digest_hash(self.sum) == self.check {
                return Some(self.sum);
            }
        } else if self.count == -1 {
            let d: u64 = sub_u64(0, self.sum);
            if sub_u64(0, digest_hash(d)) == self.check {
                return Some(d);
            }
        }
        None
    }
}

/// The symbols after a digest was entered or taken out.
pub open spec fn walked(cells: Seq<CodedSymbol>, d: u64, s: int) -> Seq<CodedSymbol> {
    Seq::new(
        cells.len(),
        |j: int|
            if enters(d, j) {
                cells[j].moved(d, s)
            } else {
                cells[j]
            },
    )
}

/// What digests add up to.
#[verifier::ext_equal]
pub struct Sums {
    pub sum: int,
    pub check: int,
    pub count: int,
}

/// What the digests of a list that enter symbol `j` add up to.
pub open spec fn sums(list: Seq<u64>, j: int) -> Sums
    decreases list.len(),
{
    if list.len() == 0 {
        Sums { sum: 0, check: 0, count: 0 }
    } else {
        let before = sums(list.drop_last(), j);
        let d = list.last();
        if enters(d, j) {
            Sums {
                sum: before.sum + d,
                check: before.check + multiparty_sketch::hash_of(d),
                count: before.count + 1,
            }
        } else {
            before
        }
    }
}

/// The difference of the two lists' symbols with index `j`.
pub open spec fn symbol_at(a: Seq<u64>, b: Seq<u64>, j: int) -> CodedSymbol {
    let (x, y) = (sums(a, j), sums(b, j));
    CodedSymbol {
        sum: counter::wrap_u64(x.sum - y.sum),
        check: counter::wrap_u64(x.check - y.check),
        count: counter::wrap_i64(x.count - y.count),
    }
}

/// The first `n` symbols of the difference of two lists.
pub open spec fn difference_at(a: Seq<u64>, b: Seq<u64>, n: nat) -> Seq<CodedSymbol> {
    Seq::new(n, |j: int| symbol_at(a, b, j))
}

/// Nothing is left in the symbols.
pub open spec fn all_zero(cells: Seq<CodedSymbol>) -> bool {
    forall|j: int| 0 <= j < cells.len() ==> (#[trigger] cells[j]) == CodedSymbol::zero()
}

/// The digests of one list that the other does not hold.
pub open spec fn minus(a: Seq<u64>, b: Seq<u64>) -> Set<u64> {
    a.to_set().difference(b.to_set())
}

/// The digests found by peeling, and what is left of the symbols.
#[verifier::ext_equal]
pub struct Peeling {
    pub cells: Seq<CodedSymbol>,
    pub inserted: Seq<u64>,
    pub removed: Seq<u64>,
}

impl Peeling {
    /// Looks at symbol `i`: where it holds one digest alone, takes that out of every symbol
    /// it enters.
    pub open spec fn step(self, i: int) -> Peeling {
        let c = self.cells[i];
        if !c.pure() {
            self
        } else {
            let d = c.candidate();
            if c.count == 1 {
                Peeling {
                    cells: walked(self.cells, d, -1),
                    inserted: self.inserted.push(d),
                    removed: self.removed,
                }
            } else {
                Peeling {
                    cells: walked(self.cells, d, 1),
                    inserted: self.inserted,
                    removed: self.removed.push(d),
                }
            }
        }
    }

    /// Looks at the first `n` symbols in order.
    pub open spec fn pass(self, n: nat) -> Peeling
        decreases n,
    {
        if n == 0 {
            self
        } else {
            self.pass((n - 1) as nat).step(n - 1)
        }
    }

    /// How many digests were found.
    pub open spec fn found(self) -> nat {
        self.inserted.len() + self.removed.len()
    }

    /// Passes over all symbols until one finds nothing, and at most `fuel` of them.
    pub open spec fn passes(self, fuel: nat) -> Peeling
        decreases fuel,
    {
        if fuel == 0 {
            self
        } else {
            let next = self.pass(self.cells.len());
            if next.found() == self.found() {
                next
            } else {
                next.passes((fuel - 1) as nat)
            }
        }
    }

    pub open spec fn start(cells: Seq<CodedSymbol>) -> Peeling {
        Peeling { cells, inserted: Seq::empty(), removed: Seq::empty() }
    }
}

/// What peeling makes of the first `n` symbols of the difference of two lists.
pub open spec fn peeled(a: Seq<u64>, b: Seq<u64>, n: nat) -> Peeling {
    Peeling::start(difference_at(a, b, n)).passes(u64::MAX as nat)
}

/// Whether `n` symbols are enough to tell the lists apart: peeling leaves nothing, and finds
/// the digests that one side holds alone, each once.
pub open spec fn decodes(a: Seq<u64>, b: Seq<u64>, n: nat) -> bool {
    let p = peeled(a, b, n);
    &&& all_zero(p.cells)
    &&& p.inserted.to_set() == minus(a, b)
    &&& p.removed.to_set() == minus(b, a)
    &&& p.inserted.no_duplicates()
    &&& p.removed.no_duplicates()
}

/// How many symbols are tried after `n` were not enough.
pub open spec fn next_size(n: nat) -> nat {
    n + n / 16 + 1
}

/// The number of symbols past which the code is not extended.
pub open spec fn symbol_limit(a: Seq<u64>, b: Seq<u64>) -> nat {
    let wanted = 64 * (a.len() + b.len()) + 1024;
    if wanted > MAX_SYMBOLS {
        MAX_SYMBOLS as nat
    } else {
        wanted
    }
}

/// The number of symbols tried last when `n` are tried first.
pub open spec fn tried_from(a: Seq<u64>, b: Seq<u64>, n: nat) -> nat
    decreases
            if n < symbol_limit(a, b) {
                symbol_limit(a, b) - n
            } else {
                0
            },
{
    if n >= symbol_limit(a, b) || decodes(a, b, n) {
        n
    } else {
        tried_from(a, b, next_size(n))
    }
}

/// The digests of a list that another one does not hold, in order.
pub open spec fn lacking(a: Seq<u64>, b: Seq<u64>) -> Seq<u64> {
    a.filter(|d: u64| !b.contains(d))
}

/// The digests of a list without repetitions, in the order of their first occurrence.
pub open spec fn distinct(list: Seq<u64>) -> Seq<u64>
    decreases list.len(),
{
    if list.len() == 0 {
        Seq::empty()
    } else {
        let rest = distinct(list.drop_last());
        if rest.contains(list.last()) {
            rest
        } else {
            rest.push(list.last())
        }
    }
}

/// A coded list of digests, without the times it took.
#[verifier::ext_equal]
pub struct Coded {
    pub symbols: Seq<u64>,
    pub consumed: nat,
    pub local_only: Seq<u64>,
    pub remote_only: Seq<u64>,
}

impl Coded {
    /// The code of a list, before anything was consumed.
    pub open spec fn of(symbols: Seq<u64>) -> Coded {
        Coded { symbols, consumed: 0, local_only: Seq::empty(), remote_only: Seq::empty() }
    }

    /// The code after it was decoded against another list. Where the code does not tell the
    /// lists apart, its digests follow it one by one, a symbol each.
    pub open spec fn against(self, other: Seq<u64>) -> Coded {
        let (a, b) = (distinct(self.symbols), distinct(other));
        let n = tried_from(a, b, 1);
        let p = peeled(a, b, n);
        if decodes(a, b, n) {
            Coded { consumed: n, local_only: p.inserted, remote_only: p.removed, ..self }
        } else {
            Coded {
                consumed: if n + a.len() > usize::MAX {
                    usize::MAX as nat
                } else {
                    n + a.len()
                },
                local_only: lacking(a, b),
                remote_only: lacking(b, a),
                ..self
            }
        }
    }
}

proof fn lemma_list_extends(list: Seq<u64>, d: u64, j: int)
    ensures
        sums(list.push(d), j) == if enters(d, j) {
            let before = sums(list, j);
            Sums {
                sum: before.sum + d,
                check: before.check + multiparty_sketch::hash_of(d),
                count: before.count + 1,
            }
        } else {
            sums(list, j)
        },
{
    assert(list.push(d).drop_last() =~= list);
}

proof fn lemma_entered(a: Seq<u64>, b: Seq<u64>, d: u64, n: nat)
    ensures
        walked(difference_at(a, b, n), d, 1) == difference_at(a.push(d), b, n),
        walked(difference_at(a, b, n), d, -1) == difference_at(a, b.push(d), n),
{
    assert forall|j: int| 0 <= j < n implies #[trigger] walked(difference_at(a, b, n), d, 1)[j]
        == difference_at(a.push(d), b, n)[j] && walked(difference_at(a, b, n), d, -1)[j]
        == difference_at(a, b.push(d), n)[j] by {
        lemma_list_extends(a, d, j);
        lemma_list_extends(b, d, j);
        let (x, y) = (sums(a, j), sums(b, j));
        let h = multiparty_sketch::hash_of(d);
        counter::lemma_wrap_u64_add(x.sum - y.sum, d as int);
        counter::lemma_wrap_u64_add(x.sum - y.sum, -d);
        counter::lemma_wrap_u64_add(x.check - y.check, h as int);
        counter::lemma_wrap_u64_add(x.check - y.check, -h);
        counter::lemma_wrap_i64_add(x.count - y.count, 1);
        counter::lemma_wrap_i64_add(x.count - y.count, -1);
    }
    let (less, goal) = (walked(difference_at(a, b, n), d, -1), difference_at(a, b.push(d), n));
    assert forall|j: int| 0 <= j < n implies #[trigger] less[j] == goal[j] by {
        assert(walked(difference_at(a, b, n), d, 1)[j] == difference_at(a.push(d), b, n)[j]);
    }
    assert(walked(difference_at(a, b, n), d, 1) =~= difference_at(a.push(d), b, n));
    assert(less =~= goal);
}

/// Whether one of the first `k` indices of a walk is `j`.
spec fn met(seed: u64, k: nat, j: int) -> bool {
    exists|i: nat| i < k && #[trigger] mapping::index_at(seed, i) == j
}

/// Enters a digest into the symbols on its walk, or takes it out.
fn walk(cells: &mut Vec<CodedSymbol>, d: u64, insert: bool)
    ensures
        final(cells)@ == walked(
            old(cells)@,
            d,
            if insert {
                1
            } else {
                -1
            },
        ),
{
    let h: u64 = digest_hash(d);
    let size: usize = cells.len();
    let ghost start = cells@;
    let ghost s: int = if insert {
        1
    } else {
        -1
    };
    let ghost goal = walked(start, d, s);
    let mut mapping = SymbolMapping::new(h);
    let mut last: Option<usize> = None;
    let mut inside: bool = true;
    while inside
        invariant
            h == multiparty_sketch::hash_of(d),
            start.len() == size,
            cells@.len() == size,
            goal == walked(start, d, s),
            s == if insert {
                1int
            } else {
                -1int
            },
            mapping.wf(),
            mapping.seed() == h,
            mapping.drawn() <= mapping::MAX_DRAWS,
            inside ==> forall|j: int|
                0 <= j < size ==> #[trigger] cells@[j] == if met(h, mapping.drawn(), j) {
                    start[j].moved(d, s)
                } else {
                    start[j]
                },
            inside ==> (last is None <==> mapping.drawn() == 0),
            inside ==> (last matches Some(i) ==> i == mapping::index_at(
                h,
                (mapping.drawn() - 1) as nat,
            )),
            !inside ==> cells@ == goal,
        decreases
            mapping::MAX_DRAWS - mapping.drawn(),
            if inside {
                1int
            } else {
                0
            },
    {
        let ghost k = mapping.drawn();
        let ghost before = cells@;
        let next: Option<usize> = mapping.next();
        let stop: bool = match next {
            Some(idx) => idx >= size,
            None => true,
        };
        if stop {
            proof {
                assert forall|j: int| 0 <= j < size implies #[trigger] before[j] == goal[j] by {
                    if enters(d, j) && !met(h, k, j) {
                        let i = choose|i: nat|
                            i < mapping::MAX_DRAWS && #[trigger] mapping::index_at(h, i) == j;
                        assert(i >= k);
                        mapping::lemma_walk_ascends(h, k, i);
                    }
                    if met(h, k, j) {
                        let i = choose|i: nat| i < k && #[trigger] mapping::index_at(h, i) == j;
                        assert(i < mapping::MAX_DRAWS);
                    }
                }
                assert(before =~= goal);
            }
            inside = false;
        } else {
            let idx: usize = next.unwrap();
            let seen: bool = match last {
                Some(i) => i == idx,
                None => false,
            };
            proof {
                if met(h, k, idx as int) {
                    let i = choose|i: nat| i < k && #[trigger] mapping::index_at(h, i) == idx;
                    mapping::lemma_walk_ascends(h, i, (k - 1) as nat);
                    mapping::lemma_walk_ascends(h, (k - 1) as nat, k);
                    assert(seen);
                }
                if seen {
                    assert(mapping::index_at(h, (k - 1) as nat) == idx);
                    assert(met(h, k, idx as int));
                }
                assert forall|j: int| #[trigger] met(h, k + 1, j) == (met(h, k, j) || j == idx) by {
                    if met(h, k + 1, j) {
                        let i = choose|i: nat| i < k + 1 && #[trigger] mapping::index_at(h, i) == j;
                        if i < k {
                            assert(met(h, k, j));
                        }
                    }
                    if met(h, k, j) {
                        let i = choose|i: nat| i < k && #[trigger] mapping::index_at(h, i) == j;
                        assert(i < k + 1);
                    }
                    if j == idx {
                        assert(mapping::index_at(h, k) == j);
                    }
                }
            }
            if !seen {
                let c: CodedSymbol = cells[idx];
                let n: CodedSymbol = if insert {
                    CodedSymbol {
                        sum: add_u64(c.sum, d),
                        check: add_u64(c.check, h),
                        count: add_i64(c.count, 1),
                    }
                } else {
                    CodedSymbol {
                        sum: sub_u64(c.sum, d),
                        check: sub_u64(c.check, h),
                        count: sub_i64(c.count, 1),
                    }
                };
                cells.set(idx, n);
                assert(s * d == if insert {
                    d as int
                } else {
                    -d
                } && s * h == if insert {
                    h as int
                } else {
                    -h
                }) by (nonlinear_arith)
                    requires
                        s == if insert {
                            1int
                        } else {
                            -1int
                        },
                ;
                assert(n == c.moved(d, s));
            }
            last = Some(idx);
        }
    }
}

/// The first `size` symbols of the difference of two lists.
fn code_difference(a: &Vec<u64>, b: &Vec<u64>, size: usize) -> (cells: Vec<CodedSymbol>)
    ensures
        cells@ == difference_at(a@, b@, size as nat),
{
    let mut cells: Vec<CodedSymbol> = Vec::new();
    let mut i: usize = 0;
    while i < size
        invariant
            i <= size,
            cells@ == Seq::new(i as nat, |j: int| CodedSymbol::zero()),
        decreases size - i,
    {
        cells.push(CodedSymbol { sum: 0, check: 0, count: 0 });
        i = i + 1;
    }
    let ghost none = Seq::<u64>::empty();
    assert(cells@ =~= difference_at(none, none, size as nat));
    let mut k: usize = 0;
    assert(a@.take(0) =~= none);
    while k < a.len()
        invariant
            k <= a@.len(),
            none == Seq::<u64>::empty(),
            cells@ == difference_at(a@.take(k as int), none, size as nat),
        decreases a@.len() - k,
    {
        proof {
            lemma_entered(a@.take(k as int), none, a@[k as int], size as nat);
            assert(a@.take(k + 1) =~= a@.take(k as int).push(a@[k as int]));
        }
        walk(&mut cells, a[k], true);
        k = k + 1;
    }
    assert(a@.take(k as int) =~= a@);
    let mut l: usize = 0;
    assert(b@.take(0) =~= none);
    while l < b.len()
        invariant
            l <= b@.len(),
            cells@ == difference_at(a@, b@.take(l as int), size as nat),
        decreases b@.len() - l,
    {
        proof {
            lemma_entered(a@, b@.take(l as int), b@[l as int], size as nat);
            assert(b@.take(l + 1) =~= b@.take(l as int).push(b@[l as int]));
        }
        walk(&mut cells, b[l], false);
        l = l + 1;
    }
    assert(b@.take(l as int) =~= b@);
    cells
}

/// The digests found by peeling, and what is left of the symbols.
struct PeelingState {
    cells: Vec<CodedSymbol>,
    inserted: Vec<u64>,
    removed: Vec<u64>,
}

impl View for PeelingState {
    type V = Peeling;

    closed spec fn view(&self) -> Peeling {
        Peeling { cells: self.cells@, inserted: self.inserted@, removed: self.removed@ }
    }
}

/// One pass over all symbols; whether it found a digest.
fn peel_pass(p: &mut PeelingState) -> (changed: bool)
    ensures
        final(p)@ == old(p)@.pass(old(p).cells@.len()),
        changed == (final(p)@.found() != old(p)@.found()),
{
    let size: usize = p.cells.len();
    let ghost start = p@;
    let mut changed: bool = false;
    let mut i: usize = 0;
    while i < size
        invariant
            i <= size,
            p.cells@.len() == size,
            start.cells.len() == size,
            p@ == start.pass(i as nat),
            p@.found() >= start.found(),
            changed == (p@.found() != start.found()),
        decreases size - i,
    {
        let c: CodedSymbol = p.cells[i];
        match c.sole_digest() {
            Some(d) => {
                if c.count == 1 {
                    p.inserted.push(d);
                    walk(&mut p.cells, d, false);
                } else {
                    p.removed.push(d);
                    walk(&mut p.cells, d, true);
                }
                changed = true;
            },
            None => {},
        }
        i = i + 1;
        assert(p@ =~= start.pass(i as nat));
    }
    changed
}

/// Peels the first `n` symbols until a pass over them finds nothing more.
fn peel(cells: &Vec<CodedSymbol>, n: usize, a: Ghost<Seq<u64>>, b: Ghost<Seq<u64>>) -> (p:
    PeelingState)
    requires
        n <= cells@.len(),
        cells@ == difference_at(a@, b@, cells@.len()),
    ensures
        p@ == peeled(a@, b@, n as nat),
{
    let mut first: Vec<CodedSymbol> = Vec::new();
    let mut i: usize = 0;
    while i < n
        invariant
            i <= n <= cells@.len(),
            first@ == cells@.take(i as int),
        decreases n - i,
    {
        first.push(cells[i]);
        assert(cells@.take(i + 1) =~= cells@.take(i as int).push(cells@[i as int]));
        i = i + 1;
    }
    assert(first@ =~= difference_at(a@, b@, n as nat));
    let mut p = PeelingState { cells: first, inserted: Vec::new(), removed: Vec::new() };
    assert(p@ =~= Peeling::start(difference_at(a@, b@, n as nat)));
    let mut fuel: u64 = u64::MAX;
    let mut changed: bool = true;
    while changed && fuel > 0
        invariant
            changed ==> p@.passes(fuel as nat) == peeled(a@, b@, n as nat),
            !changed ==> p@ == peeled(a@, b@, n as nat),
        decreases fuel,
    {
        changed = peel_pass(&mut p);
        fuel = fuel - 1;
    }
    p
}

fn cells_all_zero(cells: &Vec<CodedSymbol>) -> (r: bool)
    ensures
        r == all_zero(cells@),
{
    let mut i: usize = 0;
    while i < cells.len()
        invariant
            i <= cells@.len(),
            forall|j: int| 0 <= j < i ==> (#[trigger] cells@[j]) == CodedSymbol::zero(),
        decreases cells@.len() - i,
    {
        let c: CodedSymbol = cells[i];
        if c.sum != 0 || c.check != 0 || c.count != 0 {
            assert(cells@[i as int] != CodedSymbol::zero());
            return false;
        }
        i = i + 1;
    }
    true
}

/// The digests of a list as a set.
fn set_of(list: &Vec<u64>) -> (s: HashSet<u64>)
    ensures
        s@ == list@.to_set(),
{
    broadcast use vstd::std_specs::hash::group_hash_axioms;

    let mut s: HashSet<u64> = HashSet::new();
    let mut i: usize = 0;
    assert(s@ =~= list@.take(0).to_set());
    while i < list.len()
        invariant
            i <= list@.len(),
            s@ == list@.take(i as int).to_set(),
        decreases list@.len() - i,
    {
        s.insert(list[i]);
        proof {
            let (now, then) = (list@.take(i as int), list@.take(i + 1));
            assert(then =~= now.push(list@[i as int]));
            assert forall|d: u64| then.to_set().contains(d) <==> #[trigger] now.to_set().insert(
                list@[i as int],
            ).contains(d) by {
                if then.contains(d) {
                    let m = choose|m: int| 0 <= m < then.len() && then[m] == d;
                    if m < i {
                        assert(now[m] == d);
                    }
                }
                if now.contains(d) {
                    let m = choose|m: int| 0 <= m < now.len() && now[m] == d;
                    assert(then[m] == d);
                }
                assert(then[i as int] == list@[i as int]);
            }
            assert(then.to_set() =~= now.to_set().insert(list@[i as int]));
        }
        i = i + 1;
    }
    assert(list@.take(i as int) =~= list@);
    s
}

proof fn lemma_distinct(list: Seq<u64>)
    ensures
        distinct(list).no_duplicates(),
        distinct(list).to_set() == list.to_set(),
        distinct(list).len() <= list.len(),
    decreases list.len(),
{
    if list.len() > 0 {
        let rest = list.drop_last();
        let x = list.last();
        lemma_distinct(rest);
        assert(rest.push(x) =~= list);
        assert forall|d: u64| #[trigger] distinct(list).to_set().contains(d)
            == list.to_set().contains(d) by {
            lemma_contains_push(rest, x, d);
            lemma_contains_push(distinct(rest), x, d);
            assert(distinct(rest).to_set().contains(d) == rest.to_set().contains(d));
        }
    }
    assert(distinct(list).to_set() =~= list.to_set());
}

/// The digests of a list without repetitions.
fn distinct_digests(list: &Vec<u64>) -> (r: Vec<u64>)
    ensures
        r@ == distinct(list@),
{
    broadcast use vstd::std_specs::hash::group_hash_axioms;

    let mut r: Vec<u64> = Vec::new();
    let mut seen: HashSet<u64> = HashSet::new();
    let mut i: usize = 0;
    assert(list@.take(0) =~= Seq::<u64>::empty());
    while i < list.len()
        invariant
            i <= list@.len(),
            r@ == distinct(list@.take(i as int)),
            forall|d: u64| #[trigger] seen@.contains(d) <==> r@.contains(d),
        decreases list@.len() - i,
    {
        let d: u64 = list[i];
        let ghost before = r@;
        assert(list@.take(i + 1).drop_last() =~= list@.take(i as int));
        if !seen.contains(&d) {
            seen.insert(d);
            r.push(d);
            assert forall|x: u64| #[trigger] seen@.contains(x) <==> r@.contains(x) by {
                lemma_contains_push(before, d, x);
            }
        }
        i = i + 1;
    }
    assert(list@.take(i as int) =~= list@);
    r
}

/// The digests of a list that a set does not hold, in order.
fn without(list: &Vec<u64>, held: &HashSet<u64>, other: Ghost<Seq<u64>>) -> (r: Vec<u64>)
    requires
        held@ == other@.to_set(),
    ensures
        r@ == lacking(list@, other@),
{
    broadcast use vstd::std_specs::hash::group_hash_axioms;

    let mut r: Vec<u64> = Vec::new();
    let mut i: usize = 0;
    proof {
        reveal(Seq::filter);
        assert(list@.take(0) =~= Seq::<u64>::empty());
    }
    while i < list.len()
        invariant
            i <= list@.len(),
            held@ == other@.to_set(),
            r@ == lacking(list@.take(i as int), other@),
        decreases list@.len() - i,
    {
        proof {
            reveal(Seq::filter);
            assert(list@.take(i + 1).drop_last() =~= list@.take(i as int));
            assert(other@.to_set().contains(list@[i as int]) == other@.contains(list@[i as int]));
        }
        if !held.contains(&list[i]) {
            r.push(list[i]);
        }
        i = i + 1;
    }
    assert(list@.take(i as int) =~= list@);
    r
}

/// What filtering leaves, as a set.
proof fn lemma_lacking(a: Seq<u64>, b: Seq<u64>)
    ensures
        lacking(a, b).to_set() == minus(a, b),
        a.no_duplicates() ==> lacking(a, b).no_duplicates(),
    decreases a.len(),
{
    reveal(Seq::filter);
    if a.len() > 0 {
        let rest = a.drop_last();
        lemma_lacking(rest, b);
        let x = a.last();
        if a.no_duplicates() {
            let kept = lacking(rest, b);
            assert forall|m: int| 0 <= m < kept.len() implies #[trigger] kept[m] != x by {
                assert(kept.to_set().contains(kept[m]));
                assert(rest.contains(kept[m]));
            }
        }
        assert forall|d: u64| #[trigger] lacking(a, b).to_set().contains(d) <==> minus(
            a,
            b,
        ).contains(d) by {
            lemma_contains_push(lacking(rest, b), x, d);
            lemma_contains_push(rest, x, d);
            assert(rest.push(x) =~= a);
            assert(lacking(rest, b).to_set().contains(d) == minus(rest, b).contains(d));
        }
    }
    assert(lacking(a, b).to_set() =~= minus(a, b));
}

proof fn lemma_contains_push(list: Seq<u64>, x: u64, d: u64)
    ensures
        list.push(x).contains(d) <==> list.contains(d) || d == x,
{
    if list.contains(d) {
        let m = choose|m: int| 0 <= m < list.len() && list[m] == d;
        assert(list.push(x)[m] == d);
    }
    assert(list.push(x)[list.len() as int] == x);
}

/// Whether a list holds the digests of another, each once, and no others.
fn same_digests(a: &Vec<u64>, b: &Vec<u64>) -> (r: bool)
    requires
        b@.no_duplicates(),
    ensures
        r == (a@.to_set() == b@.to_set() && a@.no_duplicates()),
{
    let (x, y) = (set_of(a), set_of(b));
    let same: bool = all_in(a, &y, Ghost(b@)) && all_in(b, &x, Ghost(a@));
    assert(same ==> a@.to_set() =~= b@.to_set());
    proof {
        b@.unique_seq_to_set();
        if a@.no_duplicates() {
            a@.unique_seq_to_set();
        }
        if same && a@.len() == b@.len() {
            a@.lemma_no_dup_set_cardinality();
        }
    }
    same && a.len() == b.len()
}

fn all_in(list: &Vec<u64>, held: &HashSet<u64>, other: Ghost<Seq<u64>>) -> (r: bool)
    requires
        held@ == other@.to_set(),
    ensures
        r == list@.to_set().subset_of(other@.to_set()),
{
    broadcast use vstd::std_specs::hash::group_hash_axioms;

    let mut i: usize = 0;
    while i < list.len()
        invariant
            i <= list@.len(),
            held@ == other@.to_set(),
            forall|j: int| 0 <= j < i ==> other@.to_set().contains(#[trigger] list@[j]),
        decreases list@.len() - i,
    {
        if !held.contains(&list[i]) {
            assert(list@.to_set().contains(list@[i as int]));
            return false;
        }
        i = i + 1;
    }
    true
}

/// A list of digests coded for reconciliation, and what decoding found.
#[derive(Debug)]
pub struct RatelessIBLT {
    symbols: Vec<u64>,
    consumed: usize,
    local_only: Vec<u64>,
    remote_only: Vec<u64>,
    t_enc: u128,
    t_dec: u128,
}

impl View for RatelessIBLT {
    type V = Coded;

    closed spec fn view(&self) -> Coded {
        Coded {
            symbols: self.symbols@,
            consumed: self.consumed as nat,
            local_only: self.local_only@,
            remote_only: self.remote_only@,
        }
    }
}

fn copy_digests(v: &Vec<u64>) -> (r: Vec<u64>)
    ensures
        r@ == v@,
{
    let r = v.clone();
    assert(r@ =~= v@);
    r
}

impl RatelessIBLT {
    /// Codes a list of digests.
    pub fn riblt_from(symbols: Vec<u64>) -> (r: Self)
        ensures
            r@ == Coded::of(symbols@),
            r.times() == (0u128, 0u128),
    {
        RatelessIBLT {
            symbols,
            consumed: 0,
            local_only: Vec::new(),
            remote_only: Vec::new(),
            t_enc: 0,
            t_dec: 0,
        }
    }

    /// Decodes against the other list: extends both codes together until their difference
    /// peels away. The number of consumed symbols; the differences stay in `self`.
    pub fn find_all_differences(&mut self, other: &mut RatelessIBLT) -> (n: usize)
        ensures
            final(self)@ == old(self)@.against(old(other)@.symbols),
            final(self)@.local_only.to_set() == minus(old(self)@.symbols, old(other)@.symbols),
            final(self)@.remote_only.to_set() == minus(old(other)@.symbols, old(self)@.symbols),
            final(self)@.local_only.no_duplicates(),
            final(self)@.remote_only.no_duplicates(),
            n == final(self)@.consumed,
            *final(other) == *old(other),
            final(self).times().0 >= old(self).times().0,
            final(self).times().1 >= old(self).times().1,
    {
        let ours: Vec<u64> = distinct_digests(&self.symbols);
        let theirs: Vec<u64> = distinct_digests(&other.symbols);
        let ghost a = ours@;
        let ghost b = theirs@;
        let total: u128 = ours.len() as u128 + theirs.len() as u128;
        let wanted: u128 = 64 * total + 1024;
        let limit: usize = if wanted > MAX_SYMBOLS as u128 {
            MAX_SYMBOLS
        } else {
            wanted as usize
        };
        let only_here = without(&ours, &set_of(&theirs), Ghost(b));
        let only_there = without(&theirs, &set_of(&ours), Ghost(a));
        proof {
            lemma_distinct(self.symbols@);
            lemma_distinct(other.symbols@);
            lemma_lacking(a, b);
            lemma_lacking(b, a);
        }
        let mut size: usize = 64;
        let watch = Stopwatch::start();
        let mut cells: Vec<CodedSymbol> = code_difference(&ours, &theirs, size);
        self.t_enc = add_u128(self.t_enc, watch.nanos());
        let mut n: usize = 1;
        let mut tried: PeelingState = peel(&cells, n, Ghost(a), Ghost(b));
        let mut ok: bool = cells_all_zero(&tried.cells) && same_digests(&tried.inserted, &only_here)
            && same_digests(&tried.removed, &only_there);
        while !ok && n < limit
            invariant
                a == ours@,
                b == theirs@,
                self.symbols == old(self).symbols,
                only_here@.to_set() == minus(a, b),
                only_there@.to_set() == minus(b, a),
                only_here@.no_duplicates(),
                only_there@.no_duplicates(),
                limit == symbol_limit(a, b),
                limit <= MAX_SYMBOLS,
                1 <= n <= size <= 0x4800_0000,
                n < MAX_SYMBOLS + MAX_SYMBOLS / 16 + 1,
                cells@ == difference_at(a, b, size as nat),
                tried@ == peeled(a, b, n as nat),
                ok == decodes(a, b, n as nat),
                tried_from(a, b, n as nat) == tried_from(a, b, 1),
                self.t_enc >= old(self).t_enc,
                self.t_dec >= old(self).t_dec,
                *other == *old(other),
            decreases
                if n < limit {
                    limit - n
                } else {
                    0
                },
        {
            n = n + n / 16 + 1;
            if n > size {
                let grow = Stopwatch::start();
                size = if n > 0x2400_0000 {
                    0x4800_0000
                } else {
                    2 * n
                };
                cells = code_difference(&ours, &theirs, size);
                self.t_enc = add_u128(self.t_enc, grow.nanos());
            }
            let peeling = Stopwatch::start();
            tried = peel(&cells, n, Ghost(a), Ghost(b));
            ok = cells_all_zero(&tried.cells) && same_digests(&tried.inserted, &only_here)
                && same_digests(&tried.removed, &only_there);
            self.t_dec = add_u128(self.t_dec, peeling.nanos());
        }
        if ok {
            self.consumed = n;
            self.local_only = tried.inserted;
            self.remote_only = tried.removed;
        } else {
            self.consumed = n.saturating_add(ours.len());
            self.local_only = only_here;
            self.remote_only = only_there;
        }
        assert(self@ =~= old(self)@.against(old(other)@.symbols));
        self.consumed
    }

    /// Symbols consumed by decoding.
    pub fn consumed_symbols(&self) -> (n: usize)
        ensures
            n == self@.consumed,
    {
        self.consumed
    }

    /// Digests found on this side alone.
    pub fn get_local_only_symbols(&self) -> (r: Vec<u64>)
        ensures
            r@ == self@.local_only,
    {
        copy_digests(&self.local_only)
    }

    /// Digests found on the other side alone.
    pub fn get_remote_only_symbols(&self) -> (r: Vec<u64>)
        ensures
            r@ == self@.remote_only,
    {
        copy_digests(&self.remote_only)
    }

    /// Nanoseconds spent on coding and on decoding.
    pub closed spec fn times(self) -> (u128, u128) {
        (self.t_enc, self.t_dec)
    }

    pub fn t_enc(&self) -> (t: u128)
        ensures
            t == self.times().0,
    {
        self.t_enc
    }

    pub fn t_dec(&self) -> (t: u128)
        ensures
            t == self.times().1,
    {
        self.t_dec
    }
}

/// Decoding reports the two differences, whatever the lists are: the digests of this side
/// that the other lacks, and those of the other side that this one lacks, each of them once.
pub proof fn lemma_reported_is_the_difference(a: Seq<u64>, b: Seq<u64>)
    ensures
        Coded::of(a).against(b).local_only.to_set() == a.to_set().difference(b.to_set()),
        Coded::of(a).against(b).remote_only.to_set() == b.to_set().difference(a.to_set()),
        Coded::of(a).against(b).local_only.no_duplicates(),
        Coded::of(a).against(b).remote_only.no_duplicates(),
{
    lemma_distinct(a);
    lemma_distinct(b);
    lemma_lacking(distinct(a), distinct(b));
    lemma_lacking(distinct(b), distinct(a));
}

proof fn lemma_sums_without(list: Seq<u64>, i: int, j: int)
    requires
        0 <= i < list.len(),
    ensures
        sums(list, j) == sums(list.remove(i).push(list[i]), j),
    decreases list.len(),
{
    let rest = list.drop_last();
    if i == list.len() - 1 {
        assert(list.remove(i).push(list[i]) =~= list);
    } else {
        lemma_sums_without(rest, i, j);
        assert(rest.push(list.last()) =~= list);
        assert(list.remove(i) =~= rest.remove(i).push(list.last()));
        lemma_list_extends(rest, list.last(), j);
        lemma_list_extends(rest.remove(i), list[i], j);
        lemma_list_extends(rest.remove(i), list.last(), j);
        lemma_list_extends(list.remove(i), list[i], j);
    }
}

/// The order of a list does not matter to its code.
pub proof fn lemma_sums_order(a: Seq<u64>, b: Seq<u64>, j: int)
    requires
        a.no_duplicates(),
        b.no_duplicates(),
        a.to_set() == b.to_set(),
    ensures
        sums(a, j) == sums(b, j),
    decreases a.len(),
{
    if a.len() > 0 {
        let x = a.last();
        let rest = a.drop_last();
        assert(rest.push(x) =~= a);
        assert(a[a.len() - 1] == x);
        assert(a.to_set().contains(x));
        assert(b.to_set().contains(x));
        let i = choose|i: int| 0 <= i < b.len() && b[i] == x;
        let less = b.remove(i);
        assert forall|d: u64| #[trigger] rest.to_set().contains(d) == less.to_set().contains(
            d,
        ) by {
            assert(a.to_set().contains(d) == b.to_set().contains(d));
            assert(a.to_set().contains(d) == a.contains(d));
            assert(b.to_set().contains(d) == b.contains(d));
            if rest.contains(d) {
                let k = choose|k: int| 0 <= k < rest.len() && rest[k] == d;
                assert(a[k] == d);
                assert(a.contains(d));
                let m = choose|m: int| 0 <= m < b.len() && b[m] == d;
                assert(m != i);
                assert(less[if m < i {
                    m
                } else {
                    m - 1
                }] == d);
            }
            if less.contains(d) {
                let m = choose|m: int| 0 <= m < less.len() && less[m] == d;
                let full = if m < i {
                    m
                } else {
                    m + 1
                };
                assert(b[full] == d);
                assert(b.contains(d));
                assert(d != x);
                let k = choose|k: int| 0 <= k < a.len() && a[k] == d;
                assert(rest[k] == d);
            }
        }
        assert(rest.to_set() =~= less.to_set());
        lemma_sums_order(rest, less, j);
        lemma_sums_without(b, i, j);
        lemma_list_extends(less, x, j);
        lemma_list_extends(rest, x, j);
    } else if b.len() > 0 {
        assert(b.to_set().contains(b[0]));
        assert(a.contains(b[0]));
    }
}

/// Lists that hold the same digests decode at once, to no difference.
pub proof fn lemma_same_lists(a: Seq<u64>, b: Seq<u64>)
    requires
        a.to_set() == b.to_set(),
    ensures
        Coded::of(a).against(b) == (Coded { consumed: 1, ..Coded::of(a) }),
{
    let (x, y) = (distinct(a), distinct(b));
    lemma_distinct(a);
    lemma_distinct(b);
    lemma_sums_order(x, y, 0);
    let d = difference_at(x, y, 1);
    assert(d[0] == CodedSymbol::zero());
    let start = Peeling::start(d);
    reveal_with_fuel(Peeling::pass, 2);
    assert(start.pass(1) == start);
    assert(start.passes(u64::MAX as nat) == start);
    let none = Seq::<u64>::empty().to_set();
    assert(none =~= minus(x, y));
    assert(none =~= minus(y, x));
    assert(decodes(x, y, 1));
    assert(Coded::of(a).against(b) =~= (Coded { consumed: 1, ..Coded::of(a) }));
}

/// Lists that differ by one digest decode with one symbol.
pub proof fn lemma_one_more(b: Seq<u64>, e: u64)
    requires
        !b.contains(e),
    ensures
        Coded::of(b.push(e)).against(b) == (Coded {
            consumed: 1,
            local_only: seq![e],
            ..Coded::of(b.push(e))
        }),
{
    let c = distinct(b);
    lemma_distinct(b);
    assert(b.to_set().contains(e) == c.to_set().contains(e));
    let a = c.push(e);
    assert(b.push(e).drop_last() =~= b);
    assert(distinct(b.push(e)) == a);
    let h = multiparty_sketch::hash_of(e);
    assert(mapping::index_at(h, 0) == 0);
    assert(enters(e, 0));
    lemma_list_extends(c, e, 0);
    let d = difference_at(a, c, 1);
    assert(d[0] == CodedSymbol { sum: e, check: h, count: 1 });
    let start = Peeling::start(d);
    let next = start.step(0);
    assert(next.cells[0] == CodedSymbol::zero());
    reveal_with_fuel(Peeling::pass, 2);
    assert(start.pass(1) == next);
    assert(next.pass(1) == next);
    reveal_with_fuel(Peeling::passes, 3);
    assert(next.found() == 1);
    assert(peeled(a, c, 1) == next);
    assert(next.inserted =~= seq![e]);
    assert forall|x: u64| #[trigger] seq![e].to_set().contains(x) == minus(a, c).contains(x) by {
        lemma_contains_push(c, e, x);
        if x == e {
            assert(seq![e][0] == x);
        }
    }
    assert(seq![e].to_set() =~= minus(a, c));
    assert forall|x: u64| c.contains(x) implies a.contains(x) by {
        lemma_contains_push(c, e, x);
    }
    assert(Seq::<u64>::empty().to_set() =~= minus(c, a));
    assert(decodes(a, c, 1));
    let all = Coded::of(b.push(e));
    assert(all.against(b) =~= (Coded { consumed: 1, local_only: seq![e], ..all }));
}

/// Symbols are not wasted: what is consumed is one symbol, or exceeds by one and a sixteenth
/// part a number that did not tell the lists apart. Coding is given up only past the limit.
pub proof fn lemma_tried(a: Seq<u64>, b: Seq<u64>, n: nat)
    ensures
        ({
            let m = tried_from(a, b, n);
            &&& m >= n
            &&& decodes(a, b, m) || m >= 64 * (a.len() + b.len()) + 1024 || m >= 0x4000_0000
            &&& m > n ==> exists|k: nat|
                n <= k < m && !(#[trigger] decodes(a, b, k)) && 16 * (m - k - 1) <= k < 16 * (m
                    - k)
        }),
    decreases
            if n < symbol_limit(a, b) {
                symbol_limit(a, b) - n
            } else {
                0
            },
{
    if n < symbol_limit(a, b) && !decodes(a, b, n) {
        let next = next_size(n);
        lemma_tried(a, b, next);
        let m = tried_from(a, b, n);
        if m == next {
            assert(!decodes(a, b, n));
        } else {
            let k = choose|k: nat|
                next <= k < m && !(#[trigger] decodes(a, b, k)) && 16 * (m - k - 1) <= k < 16 * (m
                    - k);
            assert(!decodes(a, b, k));
        }
    }
}

/// Decoding consumes as many symbols as told the lists apart, and hardly more than it has to:
/// one, or by one and a sixteenth part more than a number that was not enough. Where that never
/// happened up to the limit, the digests of the sender follow, a symbol each.
pub proof fn lemma_consumed(c: Coded, other: Seq<u64>)
    ensures
        ({
            let (a, b) = (distinct(c.symbols), distinct(other));
            let n = c.against(other).consumed;
            ||| decodes(a, b, n) && (n == 1 || exists|k: nat|
                1 <= k < n && !(#[trigger] decodes(a, b, k)) && 16 * (n - k - 1) <= k < 16 * (n
                    - k))
            ||| n == usize::MAX
            ||| n >= a.len() && (n - a.len() >= 64 * (a.len() + b.len()) + 1024 || n - a.len()
                >= 0x4000_0000)
        }),
        c.against(other).symbols == c.symbols,
{
    let (a, b) = (distinct(c.symbols), distinct(other));
    lemma_tried(a, b, 1);
}

} // verus!
