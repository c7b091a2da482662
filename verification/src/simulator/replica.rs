//! Elements, sets of elements, and the replicas that hold them.

use crate::simulator::counter;
use crate::simulator::counter::{add_u128, add_usize};
use vstd::prelude::*;
use vstd::seq_lib::*;
use vstd::set_lib::*;

verus! {

/// Bytes of a digest on the wire.
pub const DIGEST_BYTES: usize = 8;

/// A set element: its digest, which identifies it, and the length of the payload it
/// stands for. The payload itself is never looked at, only its length is billed.
#[derive(Clone, Copy, Debug, PartialEq, Eq, Hash, Structural)]
pub struct Element {
    pub digest: u64,
    pub payload_len: usize,
}

impl Element {
    pub fn new(digest: u64, payload_len: usize) -> (e: Self)
        ensures
            e == (Element { digest, payload_len }),
    {
        Self { digest, payload_len }
    }

    /// Bytes of the element on the wire.
    pub open spec fn wire(self) -> usize {
        counter::wrap_usize(DIGEST_BYTES + self.payload_len)
    }

    /// Serialised byte size: 8-byte digest + payload bytes.
    pub fn wire_size(&self) -> (n: usize)
        ensures
            n == self.wire(),
            self.payload_len + DIGEST_BYTES <= usize::MAX ==> n == DIGEST_BYTES + self.payload_len,
    {
        add_usize(DIGEST_BYTES, self.payload_len)
    }

    /// The order in which sets keep their elements.
    pub open spec fn before(self, other: Self) -> bool {
        self.digest < other.digest || (self.digest == other.digest && self.payload_len
            < other.payload_len)
    }

    fn is_before(&self, other: &Self) -> (r: bool)
        ensures
            r == self.before(*other),
    {
        self.digest < other.digest || (self.digest == other.digest && self.payload_len
            < other.payload_len)
    }
}

/// Each element of `s` comes before all that follow it.
pub open spec fn ascending(s: Seq<Element>) -> bool {
    forall|i: int, j: int| 0 <= i < j < s.len() ==> (#[trigger] s[i]).before(#[trigger] s[j])
}

/// A set of elements, kept in ascending order.
#[derive(Debug)]
pub struct ElementSet {
    items: Vec<Element>,
}

impl View for ElementSet {
    type V = Set<Element>;

    open spec fn view(&self) -> Set<Element> {
        self.listed().to_set()
    }
}

proof fn lemma_ascending_unique(s: Seq<Element>)
    requires
        ascending(s),
    ensures
        s.no_duplicates(),
        s.to_set().finite(),
        s.to_set().len() == s.len(),
{
    assert forall|i: int, j: int| 0 <= i < s.len() && 0 <= j < s.len() && i != j implies s[i]
        != s[j] by {
        if i < j {
            assert(s[i].before(s[j]));
        } else {
            assert(s[j].before(s[i]));
        }
    }
    s.unique_seq_to_set();
    seq_to_set_is_finite(s);
}

/// A set of elements has one ascending order.
pub proof fn lemma_ascending_canonical(s: Seq<Element>, t: Seq<Element>)
    requires
        ascending(s),
        ascending(t),
        s.to_set() == t.to_set(),
    ensures
        s == t,
    decreases s.len(),
{
    lemma_ascending_unique(s);
    lemma_ascending_unique(t);
    if s.len() > 0 {
        let a = s.last();
        let b = t.last();
        assert(s.to_set().contains(a));
        assert(t.to_set().contains(b));
        assert(t.contains(a));
        assert(s.contains(b));
        let i = choose|i: int| 0 <= i < t.len() && t[i] == a;
        let j = choose|j: int| 0 <= j < s.len() && s[j] == b;
        assert(a == b) by {
            if i < t.len() - 1 {
                assert(t[i].before(t[t.len() - 1]));
            }
            if j < s.len() - 1 {
                assert(s[j].before(s[s.len() - 1]));
            }
        }
        let s0 = s.drop_last();
        let t0 = t.drop_last();
        assert forall|e: Element| s0.to_set().contains(e) implies t0.to_set().contains(e) by {
            let k = choose|k: int| 0 <= k < s0.len() && s0[k] == e;
            assert(s[k] == e && e != a);
            assert(s.to_set().contains(e));
            let l = choose|l: int| 0 <= l < t.len() && t[l] == e;
            assert(t0[l] == e);
        }
        assert forall|e: Element| t0.to_set().contains(e) implies s0.to_set().contains(e) by {
            let k = choose|k: int| 0 <= k < t0.len() && t0[k] == e;
            assert(t[k] == e && e != a);
            assert(t.to_set().contains(e));
            let l = choose|l: int| 0 <= l < s.len() && s[l] == e;
            assert(s0[l] == e);
        }
        assert(s0.to_set() =~= t0.to_set());
        lemma_ascending_canonical(s0, t0);
        assert(s =~= s0.push(a));
        assert(t =~= t0.push(b));
    } else {
        assert(t.len() == 0);
    }
}

/// The elements of a finite set in ascending order.
pub open spec fn listing(s: Set<Element>) -> Seq<Element> {
    choose|l: Seq<Element>| ascending(l) && #[trigger] l.to_set() == s
}

/// The digests of the elements of a finite set, in ascending order of the elements.
pub open spec fn digests_of(s: Set<Element>) -> Seq<u64> {
    listing(s).map_values(|e: Element| e.digest)
}

/// The ascending order of a set is the one that lists it.
pub proof fn lemma_listing(l: Seq<Element>)
    requires
        ascending(l),
    ensures
        listing(l.to_set()) == l,
{
    let other = listing(l.to_set());
    assert(ascending(other) && other.to_set() == l.to_set());
    lemma_ascending_canonical(l, other);
}

/// An ascending list with one more element in its place.
proof fn lemma_place(l: Seq<Element>, e: Element) -> (r: Seq<Element>)
    requires
        ascending(l),
        !l.contains(e),
    ensures
        ascending(r),
        r.to_set() == l.to_set().insert(e),
    decreases l.len(),
{
    if l.len() == 0 || l.last().before(e) {
        let r = l.push(e);
        lemma_seq_push_to_set(l, e);
        assert forall|i: int, j: int| 0 <= i < j < r.len() implies (#[trigger] r[i]).before(
            #[trigger] r[j],
        ) by {
            if j == l.len() && i < l.len() - 1 {
                assert(l[i].before(l[l.len() - 1]));
            }
        }
        r
    } else {
        let rest = l.drop_last();
        let last = l.last();
        assert(l[l.len() - 1] == last);
        assert(e.before(last));
        let m = lemma_place(rest, e);
        let r = m.push(last);
        lemma_seq_push_to_set(m, last);
        lemma_seq_push_to_set(rest, last);
        assert(l =~= rest.push(last));
        assert(r.to_set() =~= l.to_set().insert(e));
        assert forall|i: int, j: int| 0 <= i < j < r.len() implies (#[trigger] r[i]).before(
            #[trigger] r[j],
        ) by {
            if j == m.len() {
                assert(m.to_set().contains(m[i]));
                if m[i] != e {
                    assert(rest.contains(m[i]));
                    let k = choose|k: int| 0 <= k < rest.len() && rest[k] == m[i];
                    assert(l[k].before(l[l.len() - 1]));
                }
            }
        }
        r
    }
}

/// Every finite set has a listing, which ascends and holds just the set.
pub proof fn lemma_has_listing(s: Set<Element>)
    requires
        s.finite(),
    ensures
        ascending(listing(s)),
        listing(s).to_set() == s,
    decreases s.len(),
{
    let l = if s.len() == 0 {
        let l = Seq::<Element>::empty();
        assert(l.to_set() =~= s);
        l
    } else {
        let e = s.choose();
        let rest = s.remove(e);
        lemma_has_listing(rest);
        assert(!listing(rest).contains(e)) by {
            assert(listing(rest).to_set().contains(e) <==> listing(rest).contains(e));
        }
        let l = lemma_place(listing(rest), e);
        assert(l.to_set() =~= s);
        l
    };
    assert(ascending(l) && l.to_set() == s);
}

impl ElementSet {
    /// The elements in ascending order.
    pub closed spec fn listed(self) -> Seq<Element> {
        self.items@
    }

    /// The digests of the elements, in ascending order of the elements.
    pub open spec fn digests(self) -> Seq<u64> {
        self.listed().map_values(|e: Element| e.digest)
    }

    #[verifier::type_invariant]
    pub closed spec fn wf(self) -> bool {
        ascending(self.items@)
    }

    /// What every set satisfies: its list ascends, and has as many entries as the set.
    pub proof fn lemma_valid(self)
        requires
            self.wf(),
        ensures
            ascending(self.listed()),
            self.listed().no_duplicates(),
            self@.finite(),
            self@.len() == self.listed().len(),
            self.listed() == listing(self@),
            self.digests() == digests_of(self@),
    {
        lemma_ascending_unique(self.items@);
        lemma_listing(self.items@);
    }

    /// The empty set.
    pub fn new() -> (s: Self)
        ensures
            s.listed() == Seq::<Element>::empty(),
            s@ == Set::<Element>::empty(),
            s.wf(),
    {
        let s = ElementSet { items: Vec::new() };
        assert(s.listed().to_set() =~= Set::<Element>::empty());
        s
    }

    /// The number of elements.
    pub fn len(&self) -> (n: usize)
        ensures
            n == self@.len(),
            n == self.listed().len(),
            self.wf(),
    {
        proof {
            use_type_invariant(self);
            self.lemma_valid();
        }
        self.items.len()
    }

    /// The elements in ascending order.
    pub fn elements(&self) -> (v: &Vec<Element>)
        ensures
            v@ == self.listed(),
            v@ == listing(self@),
            self.wf(),
            ascending(v@),
    {
        proof {
            use_type_invariant(self);
            self.lemma_valid();
        }
        &self.items
    }

    /// The position of the first element that does not come before `e`.
    fn position(&self, e: &Element) -> (p: usize)
        ensures
            p <= self.listed().len(),
            forall|i: int| 0 <= i < p ==> (#[trigger] self.listed()[i]).before(*e),
            forall|i: int|
                p <= i < self.listed().len() ==> !(#[trigger] self.listed()[i]).before(*e),
    {
        proof {
            use_type_invariant(self);
        }
        let mut lo: usize = 0;
        let mut hi: usize = self.items.len();
        while lo < hi
            invariant
                lo <= hi <= self.items@.len(),
                ascending(self.items@),
                forall|i: int| 0 <= i < lo ==> (#[trigger] self.items@[i]).before(*e),
                forall|i: int|
                    hi <= i < self.items@.len() ==> !(#[trigger] self.items@[i]).before(*e),
            decreases hi - lo,
        {
            let mid: usize = lo + (hi - lo) / 2;
            if self.items[mid].is_before(e) {
                lo = mid + 1;
            } else {
                hi = mid;
            }
        }
        lo
    }

    /// Whether `e` is in the set.
    pub fn contains(&self, e: &Element) -> (r: bool)
        ensures
            r == self@.contains(*e),
            r == self.listed().contains(*e),
    {
        let p: usize = self.position(e);
        let r: bool = p < self.items.len() && self.items[p] == *e;
        proof {
            use_type_invariant(self);
            if !r && self.items@.contains(*e) {
                let i = choose|i: int| 0 <= i < self.items@.len() && self.items@[i] == *e;
                if i > p {
                    assert(self.items@[p as int].before(self.items@[i]));
                }
            }
        }
        r
    }

    /// Adds `e`; whether it was missing.
    pub fn insert(&mut self, e: Element) -> (added: bool)
        ensures
            added == !old(self)@.contains(e),
            final(self)@ == old(self)@.insert(e),
            final(self).wf(),
            !added ==> *final(self) == *old(self),
    {
        if self.contains(&e) {
            proof {
                use_type_invariant(&*self);
            }
            assert(self@.insert(e) =~= self@);
            return false;
        }
        let p: usize = self.position(&e);
        proof {
            use_type_invariant(&*self);
        }
        let ghost before = self.items@;
        let mut items: Vec<Element> = Vec::new();
        std::mem::swap(&mut items, &mut self.items);
        items.insert(p, e);
        let ghost after = items@;
        proof {
            assert(after == before.insert(p as int, e));
            assert forall|i: int, j: int| 0 <= i < j < after.len() implies (
            #[trigger] after[i]).before(#[trigger] after[j]) by {
                if j == p {
                    assert(before[i].before(e));
                } else if i == p {
                    assert(!before[j - 1].before(e));
                    assert(before[j - 1] != e) by {
                        assert(before.contains(before[j - 1]));
                    }
                } else {
                    let i0 = if i < p {
                        i
                    } else {
                        i - 1
                    };
                    let j0 = if j < p {
                        j
                    } else {
                        j - 1
                    };
                    assert(before[i0].before(before[j0]));
                }
            }
            assert forall|x: Element| after.to_set().contains(x) == before.to_set().insert(
                e,
            ).contains(x) by {
                if before.contains(x) {
                    let k = choose|k: int| 0 <= k < before.len() && before[k] == x;
                    if k < p {
                        assert(after[k] == x);
                    } else {
                        assert(after[k + 1] == x);
                    }
                }
                if x == e {
                    assert(after[p as int] == x);
                }
                if after.contains(x) && x != e {
                    let k = choose|k: int| 0 <= k < after.len() && after[k] == x;
                    if k < p {
                        assert(before[k] == x);
                    } else {
                        assert(before[k - 1] == x);
                    }
                }
            }
            assert(after.to_set() =~= before.to_set().insert(e));
        }
        self.items = items;
        true
    }

    /// Whether two sets hold the same elements.
    pub fn same_as(&self, other: &Self) -> (r: bool)
        ensures
            r == (self@ == other@),
    {
        proof {
            use_type_invariant(self);
            use_type_invariant(other);
            if self@ == other@ {
                lemma_ascending_canonical(self.items@, other.items@);
            }
        }
        if self.items.len() != other.items.len() {
            return false;
        }
        let mut i: usize = 0;
        while i < self.items.len()
            invariant
                i <= self.items@.len(),
                self.items@.len() == other.items@.len(),
                forall|k: int| 0 <= k < i ==> self.items@[k] == other.items@[k],
                self@ == other@ ==> self.items@ == other.items@,
            decreases self.items@.len() - i,
        {
            if self.items[i] != other.items[i] {
                return false;
            }
            i = i + 1;
        }
        assert(self.items@ =~= other.items@);
        true
    }

    /// The number of elements that the other set lacks.
    pub fn count_missing_from(&self, other: &Self) -> (n: usize)
        ensures
            n == self@.difference(other@).len(),
    {
        proof {
            use_type_invariant(self);
            lemma_ascending_unique(self.items@);
        }
        let mut n: usize = 0;
        let mut i: usize = 0;
        assert(self.items@.take(0).to_set().difference(other@) =~= Set::<Element>::empty());
        while i < self.items.len()
            invariant
                i <= self.items@.len(),
                n <= i,
                self.items@.no_duplicates(),
                n == self.items@.take(i as int).to_set().difference(other@).len(),
            decreases self.items@.len() - i,
        {
            let ghost prev = self.items@.take(i as int);
            let ghost next = self.items@.take(i + 1);
            let e: Element = self.items[i];
            proof {
                seq_to_set_is_finite(prev);
                assert(next =~= prev.push(e));
                assert(!prev.contains(e));
                assert forall|x: Element| next.to_set().contains(x) == prev.to_set().insert(
                    e,
                ).contains(x) by {
                    if prev.contains(x) {
                        let k = choose|k: int| 0 <= k < prev.len() && prev[k] == x;
                        assert(next[k] == x);
                    }
                    if x == e {
                        assert(next[i as int] == x);
                    }
                }
                if other@.contains(e) {
                    assert(next.to_set().difference(other@) =~= prev.to_set().difference(other@));
                } else {
                    assert(next.to_set().difference(other@) =~= prev.to_set().difference(
                        other@,
                    ).insert(e));
                }
            }
            if !other.contains(&e) {
                n = n + 1;
            }
            i = i + 1;
        }
        assert(self.items@.take(i as int) =~= self.items@);
        n
    }

    /// The digests of the elements, in ascending order of the elements.
    pub fn digest_list(&self) -> (r: Vec<u64>)
        ensures
            r@ == digests_of(self@),
            r@ == self.digests(),
            r@.len() == self@.len(),
    {
        let elements = self.elements();
        proof {
            self.lemma_valid();
        }
        let mut r: Vec<u64> = Vec::new();
        let mut i: usize = 0;
        while i < elements.len()
            invariant
                i <= elements@.len(),
                elements@ == self.listed(),
                r@ == self.digests().take(i as int),
            decreases elements@.len() - i,
        {
            r.push(elements[i].digest);
            i = i + 1;
            assert(r@ =~= self.digests().take(i as int));
        }
        assert(r@ =~= self.digests());
        r
    }

    /// Adds all of the given elements.
    pub fn insert_all(&mut self, elements: &Vec<Element>)
        ensures
            final(self)@ == old(self)@.union(elements@.to_set()),
            final(self).wf(),
    {
        let ghost start = self@;
        let mut i: usize = 0;
        proof {
            use_type_invariant(&*self);
        }
        assert(start.union(elements@.take(0).to_set()) =~= start);
        while i < elements.len()
            invariant
                i <= elements@.len(),
                self@ == start.union(elements@.take(i as int).to_set()),
                self.wf(),
            decreases elements@.len() - i,
        {
            self.insert(elements[i]);
            proof {
                let prev = elements@.take(i as int);
                assert(elements@.take(i + 1) =~= prev.push(elements@[i as int]));
                lemma_seq_push_to_set(prev, elements@[i as int]);
                assert(self@ =~= start.union(elements@.take(i + 1).to_set()));
            }
            i = i + 1;
        }
        assert(elements@.take(i as int) =~= elements@);
    }

    /// The elements in a list of their own.
    pub fn to_list(&self) -> (r: Vec<Element>)
        ensures
            r@ == listing(self@),
    {
        let elements = self.elements();
        let r = elements.clone();
        assert(r@ =~= elements@);
        r
    }

    /// The set of the given elements.
    pub fn from_elements(elements: &Vec<Element>) -> (s: Self)
        ensures
            s@ == elements@.to_set(),
            s.wf(),
    {
        let mut s = ElementSet::new();
        let mut i: usize = 0;
        assert(elements@.take(0).to_set() =~= Set::<Element>::empty());
        while i < elements.len()
            invariant
                i <= elements@.len(),
                s@ == elements@.take(i as int).to_set(),
                s.wf(),
            decreases elements@.len() - i,
        {
            s.insert(elements[i]);
            proof {
                let prev = elements@.take(i as int);
                let next = elements@.take(i + 1);
                assert(next =~= prev.push(elements@[i as int]));
                lemma_seq_push_to_set(prev, elements@[i as int]);
            }
            i = i + 1;
        }
        assert(elements@.take(i as int) =~= elements@);
        s
    }
}

impl PartialEq for ElementSet {
    fn eq(&self, other: &Self) -> (r: bool) {
        self.same_as(other)
    }
}

impl vstd::std_specs::cmp::PartialEqSpecImpl for ElementSet {
    open spec fn obeys_eq_spec() -> bool {
        true
    }

    open spec fn eq_spec(&self, other: &Self) -> bool {
        self@ == other@
    }
}

impl Eq for ElementSet {

}

/// Pushing onto a sequence inserts into its set.
pub proof fn lemma_seq_push_to_set<A>(s: Seq<A>, a: A)
    ensures
        s.push(a).to_set() == s.to_set().insert(a),
{
    assert forall|x: A| s.push(a).to_set().contains(x) == s.to_set().insert(a).contains(x) by {
        if s.contains(x) {
            let k = choose|k: int| 0 <= k < s.len() && s[k] == x;
            assert(s.push(a)[k] == x);
        }
        if x == a {
            assert(s.push(a)[s.len() as int] == x);
        }
        if s.push(a).contains(x) && x != a {
            let k = choose|k: int| 0 <= k < s.push(a).len() && s.push(a)[k] == x;
            assert(s[k] == x);
        }
    }
    assert(s.push(a).to_set() =~= s.to_set().insert(a));
}

impl Clone for ElementSet {
    fn clone(&self) -> (s: Self)
        ensures
            s.listed() == self.listed(),
            s@ == self@,
            s.wf(),
    {
        proof {
            use_type_invariant(self);
        }
        let items = self.items.clone();
        assert(items@ =~= self.items@);
        ElementSet { items }
    }
}

/// Where a replica stands in a run.
#[derive(Clone, Copy, Debug, PartialEq, Eq, Structural)]
pub enum ReplicaPhase {
    Idle,
    Active,
    Converged,
}

impl Default for ReplicaPhase {
    fn default() -> (p: Self)
        ensures
            p == ReplicaPhase::Idle,
    {
        ReplicaPhase::Idle
    }
}

/// What a replica has sent, spent and learned so far. Times are in nanoseconds.
#[derive(Clone, Copy, Debug, PartialEq, Eq, Structural)]
pub struct ReplicaStats {
    pub state_bytes_sent: usize,
    pub metadata_bytes_sent: usize,
    pub encode_time: u128,
    pub decode_time: u128,
    pub elements_added: usize,
}

impl Default for ReplicaStats {
    fn default() -> (s: Self)
        ensures
            s == (ReplicaStats {
                state_bytes_sent: 0,
                metadata_bytes_sent: 0,
                encode_time: 0,
                decode_time: 0,
                elements_added: 0,
            }),
    {
        ReplicaStats {
            state_bytes_sent: 0,
            metadata_bytes_sent: 0,
            encode_time: 0,
            decode_time: 0,
            elements_added: 0,
        }
    }
}

impl ReplicaStats {
    pub fn record_state_bytes_sent(&mut self, bytes: usize)
        ensures
            *final(self) == (ReplicaStats {
                state_bytes_sent: counter::wrap_usize(old(self).state_bytes_sent + bytes),
                ..*old(self)
            }),
    {
        self.state_bytes_sent = add_usize(self.state_bytes_sent, bytes);
    }

    pub fn record_metadata_bytes_sent(&mut self, bytes: usize)
        ensures
            *final(self) == (ReplicaStats {
                metadata_bytes_sent: counter::wrap_usize(old(self).metadata_bytes_sent + bytes),
                ..*old(self)
            }),
    {
        self.metadata_bytes_sent = add_usize(self.metadata_bytes_sent, bytes);
    }

    pub fn record_encode_time(&mut self, duration: u128)
        ensures
            *final(self) == (ReplicaStats {
                encode_time: counter::clamp_u128(old(self).encode_time + duration),
                ..*old(self)
            }),
    {
        self.encode_time = add_u128(self.encode_time, duration);
    }

    pub fn record_decode_time(&mut self, duration: u128)
        ensures
            *final(self) == (ReplicaStats {
                decode_time: counter::clamp_u128(old(self).decode_time + duration),
                ..*old(self)
            }),
    {
        self.decode_time = add_u128(self.decode_time, duration);
    }

    pub fn record_elements_added(&mut self, count: usize)
        ensures
            *final(self) == (ReplicaStats {
                elements_added: counter::wrap_usize(old(self).elements_added + count),
                ..*old(self)
            }),
    {
        self.elements_added = add_usize(self.elements_added, count);
    }
}

/// Narrow, borrowed view of a replica: its identity and its current set. Statistics and
/// phase are invisible to protocols.
pub struct ReplicaView<'a> {
    pub id: usize,
    pub set: &'a ElementSet,
}

impl<'a> ReplicaView<'a> {
    pub fn snapshot_set(&self) -> (s: ElementSet)
        ensures
            s.listed() == self.set.listed(),
            s@ == self.set@,
            s.wf(),
    {
        self.set.clone()
    }
}

/// A participant: its identity, set, phase and statistics.
#[derive(Debug)]
pub struct Replica {
    pub id: usize,
    pub set: ElementSet,
    pub phase: ReplicaPhase,
    pub stats: ReplicaStats,
}

impl Replica {
    pub fn new(id: usize, set: ElementSet) -> (r: Self)
        ensures
            r.id == id,
            r.set == set,
            r.phase == ReplicaPhase::Idle,
            r.stats == (ReplicaStats {
                state_bytes_sent: 0,
                metadata_bytes_sent: 0,
                encode_time: 0,
                decode_time: 0,
                elements_added: 0,
            }),
    {
        Self { id, set, phase: ReplicaPhase::Idle, stats: ReplicaStats::default() }
    }

    pub fn len(&self) -> (n: usize)
        ensures
            n == self.set@.len(),
    {
        self.set.len()
    }

    pub fn view(&self) -> (v: ReplicaView<'_>)
        ensures
            v.id == self.id,
            v.set == &self.set,
    {
        ReplicaView { id: self.id, set: &self.set }
    }

    pub fn set_phase(&mut self, phase: ReplicaPhase)
        ensures
            final(self).phase == phase,
            final(self).id == old(self).id,
            final(self).set == old(self).set,
            final(self).stats == old(self).stats,
    {
        self.phase = phase;
    }
}

} // verus!
