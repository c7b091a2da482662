//! Reconciliation protocols.

pub mod bf_iblt;
pub mod full_state_transfer;
pub mod hybrid_rbf_riblt;
pub mod messages;
pub mod multi_replica;
pub mod multi_replica_v2;
pub mod riblt;
pub mod topology_aware_cbf_riblt;
pub mod topology_aware_riblt;

use crate::simulator::algorithms::bloom;
use crate::simulator::algorithms::bloom::{BloomFilter, FalsePositiveRate, Filter};
use crate::simulator::algorithms::hashing::HashKey;
use crate::simulator::binary64::Binary64;
use crate::simulator::counter;
use crate::simulator::network;
use crate::simulator::network::{Outbox, Packet, ProtocolMsg, Stamps, Traffic};
use crate::simulator::replica;
use crate::simulator::replica::{Element, ElementSet, ReplicaView};
use crate::simulator::topology;
use crate::simulator::topology::{Topology, TopologyKind};
use std::collections::HashSet;
use vstd::prelude::*;
use vstd::std_specs::hash::*;

verus! {

/// The key under which a protocol keeps state of its own. It is no node: networks have at
/// most as many nodes as the largest `usize`, counted from zero.
pub const OWN_KEY: usize = usize::MAX;

/// A list of elements for each key, without their keys repeated.
pub type Carry = Seq<(usize, Seq<Element>)>;

/// The position of a key.
pub open spec fn has_key(c: Carry, key: usize) -> bool {
    exists|i: int| 0 <= i < c.len() && (#[trigger] c[i]).0 == key
}

/// No key occurs twice.
pub open spec fn keys_distinct(c: Carry) -> bool {
    forall|i: int, j: int| 0 <= i < j < c.len() ==> (#[trigger] c[i]).0 != (#[trigger] c[j]).0
}

/// The elements under a key.
pub open spec fn under(c: Carry, key: usize) -> Seq<Element> {
    c[choose|i: int| 0 <= i < c.len() && (#[trigger] c[i]).0 == key].1
}

/// The carry with the elements of a key replaced, or with a new key at the end.
pub open spec fn put(c: Carry, key: usize, elements: Seq<Element>) -> Carry {
    if has_key(c, key) {
        c.map_values(
            |e: (usize, Seq<Element>)|
                if e.0 == key {
                    (key, elements)
                } else {
                    e
                },
        )
    } else {
        c.push((key, elements))
    }
}

/// The carry with more elements under a key.
pub open spec fn joined(c: Carry, key: usize, elements: Seq<Element>) -> Carry {
    if has_key(c, key) {
        c.map_values(
            |e: (usize, Seq<Element>)|
                if e.0 == key {
                    (key, e.1 + elements)
                } else {
                    e
                },
        )
    } else {
        c.push((key, elements))
    }
}

/// Per-replica state that one round leaves to the next: lists of elements for neighbours.
#[derive(Debug)]
pub struct PendingElements {
    entries: Vec<(usize, Vec<Element>)>,
}

impl View for PendingElements {
    type V = Carry;

    closed spec fn view(&self) -> Carry {
        Seq::new(self.entries@.len(), |i: int| (self.entries@[i].0, self.entries@[i].1@))
    }
}

/// The view of an optional carry.
pub open spec fn carry_view(c: Option<PendingElements>) -> Option<Carry> {
    match c {
        Some(p) => Some(p@),
        None => None,
    }
}

/// What a carry holds, nothing when there is none.
pub open spec fn contents(c: Option<Carry>) -> Carry {
    match c {
        Some(c) => c,
        None => Seq::empty(),
    }
}

/// Nothing is carried where nothing is pending.
pub open spec fn carried(c: Carry) -> Option<Carry> {
    if c.len() == 0 {
        None
    } else {
        Some(c)
    }
}

impl PendingElements {
    pub fn new() -> (p: Self)
        ensures
            p@ == Seq::<(usize, Seq<Element>)>::empty(),
    {
        let p = PendingElements { entries: Vec::new() };
        assert(p@ =~= Seq::<(usize, Seq<Element>)>::empty());
        p
    }

    /// The contents of an optional carry.
    pub fn of(c: Option<PendingElements>) -> (p: Self)
        ensures
            p@ == contents(carry_view(c)),
    {
        match c {
            Some(p) => p,
            None => PendingElements::new(),
        }
    }

    /// A carry, unless nothing is pending.
    pub fn into_carry(self) -> (r: Option<PendingElements>)
        ensures
            carry_view(r) == carried(self@),
    {
        if self.is_empty() {
            None
        } else {
            Some(self)
        }
    }

    pub fn is_empty(&self) -> (r: bool)
        ensures
            r == (self@.len() == 0),
    {
        self.entries.len() == 0
    }

    pub fn len(&self) -> (n: usize)
        ensures
            n == self@.len(),
    {
        self.entries.len()
    }

    /// The `i`-th key.
    pub fn key(&self, i: usize) -> (k: usize)
        requires
            i < self@.len(),
        ensures
            k == self@[i as int].0,
    {
        self.entries[i].0
    }

    /// The elements under the `i`-th key.
    pub fn elements(&self, i: usize) -> (v: &Vec<Element>)
        requires
            i < self@.len(),
        ensures
            v@ == self@[i as int].1,
    {
        &self.entries[i].1
    }

    fn find(&self, key: usize) -> (r: Option<usize>)
        ensures
            match r {
                Some(i) => i < self@.len() && self@[i as int].0 == key,
                None => !has_key(self@, key),
            },
    {
        let mut i: usize = 0;
        while i < self.entries.len()
            invariant
                i <= self.entries@.len(),
                forall|j: int| 0 <= j < i ==> (#[trigger] self@[j]).0 != key,
            decreases self.entries@.len() - i,
        {
            if self.entries[i].0 == key {
                return Some(i);
            }
            i = i + 1;
        }
        None
    }

    /// The elements under a key.
    pub fn get(&self, key: usize) -> (r: Option<&Vec<Element>>)
        requires
            keys_distinct(self@),
        ensures
            match r {
                Some(v) => has_key(self@, key) && v@ == under(self@, key),
                None => !has_key(self@, key),
            },
    {
        match self.find(key) {
            Some(i) => {
                proof {
                    let j = choose|j: int| 0 <= j < self@.len() && (#[trigger] self@[j]).0 == key;
                    assert(self@[i as int].0 == key);
                    assert(i == j);
                }
                Some(&self.entries[i].1)
            },
            None => None,
        }
    }

    /// Replaces the elements under a key.
    pub fn insert(&mut self, key: usize, elements: Vec<Element>)
        requires
            keys_distinct(old(self)@),
        ensures
            final(self)@ == put(old(self)@, key, elements@),
            keys_distinct(final(self)@),
    {
        let ghost before = self@;
        match self.find(key) {
            Some(i) => {
                assert(before[i as int].0 == key);
                self.entries.set(i, (key, elements));
            },
            None => {
                self.entries.push((key, elements));
            },
        }
        assert(self@ =~= put(before, key, elements@));
        proof {
            lemma_put_distinct(before, key, elements@);
        }
    }

    /// Adds elements under a key.
    pub fn extend(&mut self, key: usize, elements: Vec<Element>)
        requires
            keys_distinct(old(self)@),
        ensures
            final(self)@ == joined(old(self)@, key, elements@),
            keys_distinct(final(self)@),
    {
        let ghost before = self@;
        match self.find(key) {
            Some(i) => {
                assert(before[i as int].0 == key);
                let mut more = elements;
                let mut slot: (usize, Vec<Element>) = (key, Vec::new());
                std::mem::swap(&mut slot, &mut self.entries[i]);
                slot.1.append(&mut more);
                self.entries.set(i, slot);
            },
            None => {
                self.entries.push((key, elements));
            },
        }
        assert(self@ =~= joined(before, key, elements@));
        proof {
            lemma_joined_distinct(before, key, elements@);
        }
    }
}

proof fn lemma_put_distinct(c: Carry, key: usize, elements: Seq<Element>)
    requires
        keys_distinct(c),
    ensures
        keys_distinct(put(c, key, elements)),
{
}

proof fn lemma_joined_distinct(c: Carry, key: usize, elements: Seq<Element>)
    requires
        keys_distinct(c),
    ensures
        keys_distinct(joined(c, key, elements)),
{
}

/// Every key is a neighbour, or the protocol's own.
pub open spec fn keys_reachable(c: Carry, links: Seq<Seq<usize>>, id: int) -> bool {
    forall|i: int|
        0 <= i < c.len() ==> ((#[trigger] c[i]).0 == OWN_KEY || links[id].contains(c[i].0))
}

/// A carry that a replica may be handed.
pub open spec fn carry_wf(c: Option<Carry>, links: Seq<Seq<usize>>, id: int) -> bool {
    keys_distinct(contents(c)) && keys_reachable(contents(c), links, id)
}

#[derive(Clone, Copy, Debug, PartialEq, Eq, Structural)]
pub enum ProtocolKind {
    FullStateTransfer,
    HybridRbfRiblt,
    MultiReplica,
    Riblt,
    StaticBfIblt,
}

impl ProtocolKind {
    pub open spec fn text(self) -> Seq<char> {
        match self {
            ProtocolKind::FullStateTransfer => "FullStateTransfer"@,
            ProtocolKind::HybridRbfRiblt => "HybridRbfRiblt"@,
            ProtocolKind::MultiReplica => "MultiReplica"@,
            ProtocolKind::Riblt => "Riblt"@,
            ProtocolKind::StaticBfIblt => "StaticBfIblt"@,
        }
    }

    /// The name of the protocol.
    pub fn name(&self) -> (s: String)
        ensures
            s@ == self.text(),
    {
        match self {
            ProtocolKind::FullStateTransfer => "FullStateTransfer".to_string(),
            ProtocolKind::HybridRbfRiblt => "HybridRbfRiblt".to_string(),
            ProtocolKind::MultiReplica => "MultiReplica".to_string(),
            ProtocolKind::Riblt => "Riblt".to_string(),
            ProtocolKind::StaticBfIblt => "StaticBfIblt".to_string(),
        }
    }
}

/// What a protocol knows of the replica it acts for.
pub struct Site {
    pub id: usize,
    pub set: Set<Element>,
    pub kind: TopologyKind,
    pub nodes: nat,
}

impl Site {
    /// The neighbours of the replica.
    pub open spec fn neighbors(self) -> Seq<usize> {
        topology::rows_of(self.kind, self.nodes)[self.id as int]
    }
}

/// The site of a replica in a topology.
pub open spec fn site_of(local: ReplicaView<'_>, topology: &Topology) -> Site {
    Site { id: local.id, set: local.set@, kind: topology.shape(), nodes: topology.size() }
}

/// What receiving leaves behind.
#[verifier::ext_equal]
pub struct Received {
    pub next: Set<Element>,
    pub carry: Option<Carry>,
    /// The messages as the receiver leaves them, for billing.
    pub inbox: Seq<(usize, Packet)>,
    pub false_matches: usize,
}

/// The traffic after a replica has sent the given messages in order.
pub open spec fn delivered(t: Traffic<Packet>, from: int, messages: Seq<(usize, Packet)>) -> Traffic<
    Packet,
>
    decreases messages.len(),
{
    if messages.len() == 0 {
        t
    } else {
        delivered(t, from, messages.drop_last()).sent(
            from,
            messages.last().0 as int,
            messages.last().1,
            messages.last().1.state_cost(),
        )
    }
}

/// Sending two lists one after the other is sending them joined.
pub proof fn lemma_delivered_both(
    t: Traffic<Packet>,
    from: int,
    a: Seq<(usize, Packet)>,
    b: Seq<(usize, Packet)>,
)
    ensures
        delivered(delivered(t, from, a), from, b) == delivered(t, from, a + b),
    decreases b.len(),
{
    if b.len() == 0 {
        assert(a + b =~= a);
    } else {
        assert((a + b).drop_last() =~= a + b.drop_last());
        lemma_delivered_both(t, from, a, b.drop_last());
    }
}

/// Sending keeps who is connected.
pub proof fn lemma_delivered_links(t: Traffic<Packet>, from: int, messages: Seq<(usize, Packet)>)
    ensures
        delivered(t, from, messages).links == t.links,
    decreases messages.len(),
{
    if messages.len() > 0 {
        lemma_delivered_links(t, from, messages.drop_last());
    }
}

/// The encoding times of the first `n` messages added up: those of the filters and of the codes
/// that are in use.
pub open spec fn encode_total(uses: Seq<(bool, bool)>, stamps: Seq<Stamps>, n: nat) -> nat
    decreases n,
{
    if n == 0 {
        0
    } else {
        encode_total(uses, stamps, (n - 1) as nat) + (if uses[n - 1].0 {
            stamps[n - 1].filter_encode as nat
        } else {
            0
        }) + (if uses[n - 1].1 {
            stamps[n - 1].code_encode as nat
        } else {
            0
        })
    }
}

/// The decoding times of the first `n` messages added up: those of the filters and of the codes
/// that are in use.
pub open spec fn decode_total(uses: Seq<(bool, bool)>, stamps: Seq<Stamps>, n: nat) -> nat
    decreases n,
{
    if n == 0 {
        0
    } else {
        decode_total(uses, stamps, (n - 1) as nat) + (if uses[n - 1].0 {
            stamps[n - 1].filter_decode as nat
        } else {
            0
        }) + (if uses[n - 1].1 {
            stamps[n - 1].code_decode as nat
        } else {
            0
        })
    }
}

/// Totals depend on the stamps of the messages they count.
pub proof fn lemma_totals_same(uses: Seq<(bool, bool)>, a: Seq<Stamps>, b: Seq<Stamps>, n: nat)
    requires
        forall|i: int| 0 <= i < n ==> #[trigger] a[i] == b[i],
    ensures
        encode_total(uses, a, n) == encode_total(uses, b, n),
        decode_total(uses, a, n) == decode_total(uses, b, n),
    decreases n,
{
    if n > 0 {
        lemma_totals_same(uses, a, b, (n - 1) as nat);
        assert(a[n - 1] == b[n - 1]);
    }
}

/// Where nothing is in use no time adds up.
pub proof fn lemma_totals_zero(uses: Seq<(bool, bool)>, stamps: Seq<Stamps>, n: nat)
    requires
        forall|i: int| 0 <= i < n ==> #[trigger] uses[i] == (false, false),
    ensures
        encode_total(uses, stamps, n) == 0,
        decode_total(uses, stamps, n) == 0,
    decreases n,
{
    if n > 0 {
        lemma_totals_zero(uses, stamps, (n - 1) as nat);
        assert(uses[n - 1] == (false, false));
    }
}

/// A protocol: what a replica sends, and what it makes of what it receives.
pub trait Protocol {
    /// The kind of the protocol.
    spec fn is_kind(&self) -> ProtocolKind;

    /// The messages that a replica sends, given what the last round left it.
    spec fn sends(&self, site: Site, carry: Option<Carry>) -> Seq<(usize, Packet)>;

    /// What a replica makes of its messages.
    spec fn receives(&self, site: Site, inbox: Seq<(usize, Packet)>) -> Received;

    /// Whether a replica uses the filter, and whether it uses the code, of a message.
    spec fn uses(&self, site: Site, p: Packet) -> (bool, bool);

    fn kind(&self) -> (k: ProtocolKind)
        ensures
            k == self.is_kind(),
    ;

    fn send_phase(
        &self,
        local: ReplicaView<'_>,
        topology: &Topology,
        outbox: &mut Outbox,
        carry: Option<PendingElements>,
    )
        requires
            old(outbox).wf(),
            old(outbox).sender() == local.id,
            old(outbox).traffic().links == topology.rows(),
            topology.wf(),
            carry_wf(carry_view(carry), topology.rows(), local.id as int),
        ensures
            final(outbox).wf(),
            final(outbox).sender() == local.id,
            network::flow(final(outbox).traffic()) == delivered(
                network::flow(old(outbox).traffic()),
                local.id as int,
                self.sends(site_of(local, topology), carry_view(carry)),
            ),
    ;

    fn recv_phase(
        &self,
        local: ReplicaView<'_>,
        topology: &Topology,
        inbox: &mut Vec<(usize, ProtocolMsg)>,
    ) -> (r: ProtocolStepResult)
        requires
            topology.wf(),
            local.id < topology.size(),
            network::inbox_wf(topology.rows(), local.id as int, old(inbox)@),
        ensures
            r.received(network::packets(final(inbox)@)) == self.receives(
                site_of(local, topology),
                network::packets(old(inbox)@),
            ),
            ({
                let came = network::packets(old(inbox)@);
                let uses = Seq::new(
                    came.len(),
                    |i: int| self.uses(site_of(local, topology), came[i].1),
                );
                let stamps = network::stamps_of(final(inbox)@);
                &&& r.metrics.encode_time == counter::clamp_u128(
                    encode_total(uses, stamps, came.len()) as int,
                )
                &&& r.metrics.decode_time == counter::clamp_u128(
                    decode_total(uses, stamps, came.len()) as int,
                )
            }),
            carry_wf(carry_view(r.carry), topology.rows(), local.id as int),
            final(inbox)@.len() == old(inbox)@.len(),
            forall|i: int|
                0 <= i < final(inbox)@.len() ==> (#[trigger] final(inbox)@[i]).0 == old(
                    inbox,
                )@[i].0,
    ;
}

/// The new set of a replica, what it measured, and what it carries into the next round.
#[derive(Debug)]
pub struct ProtocolStepResult {
    pub next_set: ElementSet,
    pub metrics: LocalMetrics,
    pub carry: Option<PendingElements>,
}

impl ProtocolStepResult {
    /// The result, without the times it took.
    pub open spec fn received(self, inbox: Seq<(usize, Packet)>) -> Received {
        Received {
            next: self.next_set@,
            carry: carry_view(self.carry),
            inbox,
            false_matches: self.metrics.false_matches,
        }
    }
}

/// What a replica measured in one step. Times are in nanoseconds.
#[derive(Clone, Copy, Debug, PartialEq, Eq, Structural)]
pub struct LocalMetrics {
    pub encode_time: u128,
    pub decode_time: u128,
    pub false_matches: usize,
}

impl Default for LocalMetrics {
    fn default() -> (m: Self)
        ensures
            m == (LocalMetrics { encode_time: 0, decode_time: 0, false_matches: 0 }),
    {
        LocalMetrics { encode_time: 0, decode_time: 0, false_matches: 0 }
    }
}

/// The messages that deliver what is pending, but for the protocol's own state.
pub open spec fn deliveries(c: Carry) -> Seq<(usize, Packet)>
    decreases c.len(),
{
    if c.len() == 0 {
        Seq::empty()
    } else if c.last().0 != OWN_KEY && c.last().1.len() > 0 {
        deliveries(c.drop_last()).push((c.last().0, Packet::Elements(c.last().1, None)))
    } else {
        deliveries(c.drop_last())
    }
}

/// Delivers what is pending, but for the protocol's own state.
pub fn deliver_pending(outbox: &mut Outbox, pending: &PendingElements)
    requires
        old(outbox).wf(),
        keys_reachable(pending@, old(outbox).traffic().links, old(outbox).sender() as int),
    ensures
        final(outbox).wf(),
        final(outbox).sender() == old(outbox).sender(),
        network::flow(final(outbox).traffic()) == delivered(
            network::flow(old(outbox).traffic()),
            old(outbox).sender() as int,
            deliveries(pending@),
        ),
{
    let ghost start = network::flow(outbox.traffic());
    let ghost links = outbox.traffic().links;
    let ghost from = outbox.sender();
    let mut i: usize = 0;
    assert(pending@.take(0) =~= Seq::<(usize, Seq<Element>)>::empty());
    while i < pending.len()
        invariant
            i <= pending@.len(),
            outbox.wf(),
            outbox.sender() == from,
            outbox.traffic().links == links,
            keys_reachable(pending@, links, from as int),
            network::flow(outbox.traffic()) == delivered(
                start,
                from as int,
                deliveries(pending@.take(i as int)),
            ),
        decreases pending@.len() - i,
    {
        let key: usize = pending.key(i);
        let els = pending.elements(i);
        proof {
            assert(pending@.take(i + 1).drop_last() =~= pending@.take(i as int));
            assert(pending@[i as int].0 == OWN_KEY || links[from as int].contains(
                pending@[i as int].0,
            ));
        }
        if key != OWN_KEY && els.len() > 0 {
            let copy = els.clone();
            assert(copy@ =~= els@);
            let ghost before = deliveries(pending@.take(i as int));
            outbox.send_elements(key, copy);
            assert(before.push((key, Packet::Elements(copy@, None))).drop_last() =~= before);
        }
        i = i + 1;
    }
    assert(pending@.take(i as int) =~= pending@);
}

/// The carry with elements queued for a node, unless there are none.
pub open spec fn queued(c: Carry, to: usize, elements: Seq<Element>) -> Carry {
    if elements.len() == 0 {
        c
    } else {
        joined(c, to, elements)
    }
}

/// Queues a list for a neighbour, also where it is empty.
pub(crate) fn owe(
    pending: &mut PendingElements,
    to: usize,
    elements: Vec<Element>,
    links: Ghost<Seq<Seq<usize>>>,
    id: Ghost<int>,
)
    requires
        keys_distinct(old(pending)@),
        keys_reachable(old(pending)@, links@, id@),
        topology::is_graph(links@),
        links@.len() <= usize::MAX,
        0 <= id@ < links@.len(),
        network::from_neighbor(links@, id@, to),
    ensures
        final(pending)@ == joined(old(pending)@, to, elements@),
        keys_distinct(final(pending)@),
        keys_reachable(final(pending)@, links@, id@),
{
    let ghost before = pending@;
    pending.extend(to, elements);
    assert(links@[id@].contains(to)) by {
        assert(links@[to as int].contains(id@ as usize));
    }
    assert forall|i: int| 0 <= i < pending@.len() implies ((#[trigger] pending@[i]).0 == OWN_KEY
        || links@[id@].contains(pending@[i].0)) by {
        if i < before.len() {
            assert(pending@[i].0 == before[i].0);
        }
    }
}

/// Queues elements for a neighbour, unless there are none.
pub(crate) fn queue(
    pending: &mut PendingElements,
    to: usize,
    elements: Vec<Element>,
    links: Ghost<Seq<Seq<usize>>>,
    id: Ghost<int>,
)
    requires
        keys_distinct(old(pending)@),
        keys_reachable(old(pending)@, links@, id@),
        topology::is_graph(links@),
        links@.len() <= usize::MAX,
        0 <= id@ < links@.len(),
        network::from_neighbor(links@, id@, to),
    ensures
        final(pending)@ == queued(old(pending)@, to, elements@),
        keys_distinct(final(pending)@),
        keys_reachable(final(pending)@, links@, id@),
{
    if elements.len() > 0 {
        owe(pending, to, elements, links, id);
    }
}

/// What receiving has made of the messages so far.
#[verifier::ext_equal]
pub struct Gathered {
    pub next: Set<Element>,
    pub pending: Carry,
    /// The messages as they were left.
    pub inbox: Seq<(usize, Packet)>,
    pub false_matches: usize,
}

impl Gathered {
    pub open spec fn start(set: Set<Element>) -> Gathered {
        Gathered {
            next: set,
            pending: Seq::empty(),
            inbox: Seq::empty(),
            false_matches: 0,
        }
    }

    /// A message was looked at: new elements, elements to send back, the message as it was
    /// left.
    pub open spec fn with(
        self,
        from: usize,
        new: Set<Element>,
        back: Seq<Element>,
        left: Packet,
        matches: int,
    ) -> Gathered {
        Gathered {
            next: self.next.union(new),
            pending: queued(self.pending, from, back),
            inbox: self.inbox.push((from, left)),
            false_matches: counter::wrap_usize(self.false_matches + matches),
        }
    }

    pub open spec fn received(self) -> Received {
        Received {
            next: self.next,
            carry: carried(self.pending),
            inbox: self.inbox,
            false_matches: self.false_matches,
        }
    }
}

/// The filter of a list of digests, given the opposite of the logarithm of its false-positive
/// rate.
pub open spec fn filter_of(digests: Seq<u64>, neg_ln: Binary64) -> Filter {
    let capacity: nat = if digests.len() < 1 {
        1
    } else {
        digests.len()
    };
    Filter::empty(
        bloom::bits_at(neg_ln, capacity) as nat,
        bloom::slice_hashers(0),
        bloom::hashes_at(neg_ln) as u64,
    ).with_all(digests)
}

/// The filter of a list of digests has each of them.
pub proof fn lemma_filter_finds(digests: Seq<u64>, neg_ln: Binary64, i: int)
    requires
        0 <= i < digests.len(),
    ensures
        filter_of(digests, neg_ln).has(digests[i].hash_writes()),
{
    let empty = Filter::empty(
        bloom::bits_at(neg_ln, digests.len()) as nat,
        bloom::slice_hashers(0),
        bloom::hashes_at(neg_ln) as u64,
    );
    bloom::lemma_all_found(empty, digests, i);
}

/// A filter of a list of digests.
pub fn build_filter(digests: &Vec<u64>, rate: FalsePositiveRate) -> (bf: BloomFilter<u64>)
    ensures
        bf@ == filter_of(digests@, rate.neg_ln()),
{
    let capacity: usize = if digests.len() < 1 {
        1
    } else {
        digests.len()
    };
    let mut bf: BloomFilter<u64> = BloomFilter::new(capacity, rate);
    let ghost empty = bf@;
    let mut i: usize = 0;
    assert(digests@.take(0) =~= Seq::<u64>::empty());
    while i < digests.len()
        invariant
            i <= digests@.len(),
            bf@ == empty.with_all(digests@.take(i as int)),
        decreases digests@.len() - i,
    {
        bf.timed_insert(&digests[i]);
        assert(digests@.take(i + 1).drop_last() =~= digests@.take(i as int));
        i = i + 1;
    }
    assert(digests@.take(i as int) =~= digests@);
    bf
}

/// The elements whose digests are listed, in order.
pub open spec fn with_digests(elements: Seq<Element>, digests: Seq<u64>) -> Seq<Element> {
    elements.filter(|e: Element| digests.contains(e.digest))
}

/// The set of the listed digests.
pub fn digest_set(digests: &Vec<u64>) -> (wanted: HashSet<u64>)
    ensures
        forall|d: u64| #[trigger] wanted@.contains(d) <==> digests@.contains(d),
{
    broadcast use vstd::std_specs::hash::group_hash_axioms;

    let mut wanted: HashSet<u64> = HashSet::new();
    let mut i: usize = 0;
    while i < digests.len()
        invariant
            i <= digests@.len(),
            forall|d: u64| #[trigger] wanted@.contains(d) <==> digests@.take(i as int).contains(d),
        decreases digests@.len() - i,
    {
        let d: u64 = digests[i];
        let ghost before = wanted@;
        wanted.insert(d);
        proof {
            let next = digests@.take(i + 1);
            assert(next =~= digests@.take(i as int).push(d));
            assert forall|x: u64| #[trigger] wanted@.contains(x) <==> next.contains(x) by {
                replica::lemma_seq_push_to_set(digests@.take(i as int), d);
                assert(next.to_set().contains(x) <==> digests@.take(i as int).to_set().insert(
                    d,
                ).contains(x));
                assert(before.contains(x) <==> digests@.take(i as int).contains(x));
            }
        }
        i = i + 1;
    }
    assert(digests@.take(i as int) =~= digests@);
    wanted
}

/// The elements of a set whose digests are listed, in ascending order.
pub fn select_by_digest(set: &ElementSet, digests: &Vec<u64>) -> (r: Vec<Element>)
    ensures
        r@ == with_digests(replica::listing(set@), digests@),
{
    broadcast use vstd::std_specs::hash::group_hash_axioms;

    let wanted = digest_set(digests);
    let elements = set.elements();
    let ghost keep = |e: Element| digests@.contains(e.digest);
    let mut r: Vec<Element> = Vec::new();
    let mut j: usize = 0;
    assert(elements@.take(0).filter(keep) =~= Seq::<Element>::empty()) by {
        reveal(Seq::filter);
    }
    while j < elements.len()
        invariant
            j <= elements@.len(),
            forall|d: u64| #[trigger] wanted@.contains(d) <==> digests@.contains(d),
            keep == (|e: Element| digests@.contains(e.digest)),
            r@ == elements@.take(j as int).filter(keep),
        decreases elements@.len() - j,
    {
        let e: Element = elements[j];
        proof {
            let next = elements@.take(j + 1);
            assert(next.drop_last() =~= elements@.take(j as int));
            assert(next.last() == e);
            reveal(Seq::filter);
        }
        if wanted.contains(&e.digest) {
            r.push(e);
        }
        j = j + 1;
    }
    assert(elements@.take(j as int) =~= elements@);
    r
}

/// The elements of a set whose digests no element of the other has.
pub open spec fn lacking_elements(set: Set<Element>, other: Set<Element>) -> Seq<Element> {
    replica::listing(set).filter(|e: Element| !replica::digests_of(other).contains(e.digest))
}

proof fn lemma_filter_same(
    s: Seq<Element>,
    a: spec_fn(Element) -> bool,
    b: spec_fn(Element) -> bool,
)
    requires
        forall|i: int| 0 <= i < s.len() ==> a(#[trigger] s[i]) == b(s[i]),
    ensures
        s.filter(a) == s.filter(b),
    decreases s.len(),
{
    reveal(Seq::filter);
    if s.len() > 0 {
        let rest = s.drop_last();
        assert forall|i: int| 0 <= i < rest.len() implies a(#[trigger] rest[i]) == b(rest[i]) by {
            assert(rest[i] == s[i]);
        }
        lemma_filter_same(rest, a, b);
        assert(a(s[s.len() - 1]) == b(s[s.len() - 1]));
    }
}

/// The elements with the digests that the other side lacks are those that it lacks.
pub(crate) proof fn lemma_lacking_elements(
    set: Set<Element>,
    other: Set<Element>,
    digests: Seq<u64>,
)
    requires
        forall|d: u64| #[trigger]
            replica::digests_of(set).contains(d) ==> (digests.contains(d)
                <==> !replica::digests_of(other).contains(d)),
    ensures
        with_digests(replica::listing(set), digests) == lacking_elements(set, other),
{
    let l = replica::listing(set);
    let theirs = replica::digests_of(other);
    assert forall|i: int| 0 <= i < l.len() implies digests.contains((#[trigger] l[i]).digest)
        == !theirs.contains(l[i].digest) by {
        assert(replica::digests_of(set)[i] == l[i].digest);
        assert(replica::digests_of(set).contains(l[i].digest));
    }
    lemma_filter_same(
        l,
        |e: Element| digests.contains(e.digest),
        |e: Element| !theirs.contains(e.digest),
    );
}

/// What one side lacks of a finite set is what that set holds under digests that it has not.
pub proof fn lemma_lacking_contains(set: Set<Element>, other: Set<Element>, e: Element)
    requires
        set.finite(),
    ensures
        lacking_elements(set, other).contains(e) <==> set.contains(e) && !replica::digests_of(
            other,
        ).contains(e.digest),
{
    let l = replica::listing(set);
    let theirs = replica::digests_of(other);
    let keep = |x: Element| !theirs.contains(x.digest);
    replica::lemma_has_listing(set);
    assert(l.to_set().contains(e) == l.contains(e));
    lemma_kept(l, keep, e);
}

/// What is kept of a list is what of it is to be kept.
pub(crate) proof fn lemma_kept(s: Seq<Element>, keep: spec_fn(Element) -> bool, e: Element)
    ensures
        s.filter(keep).contains(e) <==> s.contains(e) && keep(e),
    decreases s.len(),
{
    reveal(Seq::filter);
    let out = s.filter(keep);
    if s.len() > 0 {
        let rest = s.drop_last();
        lemma_kept(rest, keep, e);
        let kept = rest.filter(keep);
        if kept.contains(e) {
            let i = choose|i: int| 0 <= i < kept.len() && kept[i] == e;
            assert(out[i] == e);
        }
        if rest.contains(e) {
            let i = choose|i: int| 0 <= i < rest.len() && rest[i] == e;
            assert(s[i] == e);
        }
        if s.contains(e) && keep(e) && !rest.contains(e) {
            let i = choose|i: int| 0 <= i < s.len() && s[i] == e;
            if i < rest.len() {
                assert(rest[i] == e);
            }
            assert(out[out.len() - 1] == e);
        }
        if out.contains(e) && !kept.contains(e) {
            let i = choose|i: int| 0 <= i < out.len() && out[i] == e;
            if i < kept.len() {
                assert(kept[i] == e);
            }
            assert(s[s.len() - 1] == e);
        }
    } else {
        assert(out =~= Seq::<Element>::empty());
    }
}

/// Replacing the list under a key makes it the given one and leaves all others; adding to it
/// puts the elements behind those that were there.
pub proof fn lemma_carry_keeps(c: Carry, key: usize, elements: Seq<Element>, other: usize)
    requires
        keys_distinct(c),
    ensures
        has_key(put(c, key, elements), key),
        under(put(c, key, elements), key) == elements,
        has_key(joined(c, key, elements), key),
        under(joined(c, key, elements), key) == (if has_key(c, key) {
            under(c, key) + elements
        } else {
            elements
        }),
        other != key ==> {
            &&& has_key(put(c, key, elements), other) == has_key(c, other)
            &&& has_key(joined(c, key, elements), other) == has_key(c, other)
            &&& has_key(c, other) ==> under(put(c, key, elements), other) == under(c, other)
            &&& has_key(c, other) ==> under(joined(c, key, elements), other) == under(c, other)
        },
{
    let (p, j) = (put(c, key, elements), joined(c, key, elements));
    lemma_put_distinct(c, key, elements);
    lemma_joined_distinct(c, key, elements);
    if has_key(c, key) {
        let i = choose|i: int| 0 <= i < c.len() && (#[trigger] c[i]).0 == key;
        lemma_under_at(c, i);
        assert(p[i] == (key, elements));
        assert(j[i] == (key, c[i].1 + elements));
        lemma_under_at(p, i);
        lemma_under_at(j, i);
    } else {
        lemma_under_at(p, c.len() as int);
        lemma_under_at(j, c.len() as int);
    }
    if other != key {
        if has_key(c, other) {
            let i = choose|i: int| 0 <= i < c.len() && (#[trigger] c[i]).0 == other;
            lemma_under_at(c, i);
            assert(p[i] == c[i]);
            assert(j[i] == c[i]);
            lemma_under_at(p, i);
            lemma_under_at(j, i);
        }
        if has_key(p, other) {
            let i = choose|i: int| 0 <= i < p.len() && (#[trigger] p[i]).0 == other;
            assert(c[i].0 == other);
        }
        if has_key(j, other) {
            let i = choose|i: int| 0 <= i < j.len() && (#[trigger] j[i]).0 == other;
            assert(c[i].0 == other);
        }
    }
}

proof fn lemma_under_at(c: Carry, i: int)
    requires
        keys_distinct(c),
        0 <= i < c.len(),
    ensures
        has_key(c, c[i].0),
        under(c, c[i].0) == c[i].1,
{
    let k = choose|k: int| 0 <= k < c.len() && (#[trigger] c[k]).0 == c[i].0;
    assert(c[k].0 == c[i].0);
    if k < i {
        assert(c[k].0 != c[i].0);
    } else if i < k {
        assert(c[i].0 != c[k].0);
    }
}

/// All that is pending is delivered, and nothing else: a message goes out exactly for every
/// neighbour with elements pending, holding just those, and no neighbour gets two.
pub proof fn lemma_deliveries_exactly(c: Carry)
    requires
        keys_distinct(c),
    ensures
        forall|to: usize, els: Seq<Element>| #[trigger]
            deliveries(c).contains((to, Packet::Elements(els, None))) <==> to != usize::MAX
                && els.len() > 0 && c.contains((to, els)),
        forall|i: int|
            0 <= i < deliveries(c).len() ==> (#[trigger] deliveries(c)[i]).1 == Packet::Elements(
                under(c, deliveries(c)[i].0),
                None,
            ) && has_key(c, deliveries(c)[i].0),
        forall|i: int, j: int|
            0 <= i < j < deliveries(c).len() ==> (#[trigger] deliveries(c)[i]).0 != (
            #[trigger] deliveries(c)[j]).0,
    decreases c.len(),
{
    let d = deliveries(c);
    if c.len() == 0 {
        assert(d =~= Seq::empty());
    } else {
        let rest = c.drop_last();
        let n = rest.len() as int;
        let before = deliveries(rest);
        assert forall|i: int, j: int| 0 <= i < j < rest.len() implies (#[trigger] rest[i]).0 != (
        #[trigger] rest[j]).0 by {
            assert(rest[i] == c[i] && rest[j] == c[j]);
        }
        lemma_deliveries_exactly(rest);
        assert forall|key: usize| #[trigger] has_key(rest, key) implies has_key(c, key) && under(
            c,
            key,
        ) == under(rest, key) && key != c.last().0 by {
            let i = choose|i: int| 0 <= i < rest.len() && (#[trigger] rest[i]).0 == key;
            assert(c[i] == rest[i]);
            lemma_under_at(c, i);
            lemma_under_at(rest, i);
            assert(c[i].0 != c[n].0);
        }
        lemma_under_at(c, n);
        let goes = c.last().0 != OWN_KEY && c.last().1.len() > 0;
        if goes {
            assert(d == before.push((c.last().0, Packet::Elements(c.last().1, None))));
        } else {
            assert(d == before);
        }
        assert forall|i: int| 0 <= i < d.len() implies (#[trigger] d[i]).1 == Packet::Elements(
            under(c, d[i].0),
            None,
        ) && has_key(c, d[i].0) by {
            if i < before.len() {
                assert(d[i] == before[i]);
                assert(has_key(rest, before[i].0));
            }
        }
        assert forall|i: int, j: int| 0 <= i < j < d.len() implies (#[trigger] d[i]).0 != (
        #[trigger] d[j]).0 by {
            assert(d[i] == before[i]);
            assert(has_key(rest, before[i].0));
            if j < before.len() {
                assert(d[j] == before[j]);
            }
        }
        assert forall|to: usize, els: Seq<Element>| #[trigger]
            d.contains((to, Packet::Elements(els, None))) <==> to != usize::MAX && els.len() > 0
                && c.contains((to, els)) by {
            let m = (to, Packet::Elements(els, None));
            if d.contains(m) {
                let i = choose|i: int| 0 <= i < d.len() && d[i] == m;
                if i < before.len() {
                    assert(before[i] == m);
                    assert(before.contains(m));
                    let k = choose|k: int| 0 <= k < rest.len() && rest[k] == (to, els);
                    assert(c[k] == (to, els));
                } else {
                    assert(c[n] == (to, els));
                }
            }
            if to != usize::MAX && els.len() > 0 && c.contains((to, els)) {
                let k = choose|k: int| 0 <= k < c.len() && c[k] == (to, els);
                if k < n {
                    assert(rest[k] == (to, els));
                    assert(before.contains(m));
                    let i = choose|i: int| 0 <= i < before.len() && before[i] == m;
                    assert(d[i] == m);
                } else {
                    assert(d[before.len() as int] == m);
                }
            }
        }
    }
}

/// Nothing is kept more often than it was listed.
pub(crate) proof fn lemma_kept_once(s: Seq<Element>, keep: spec_fn(Element) -> bool)
    requires
        s.no_duplicates(),
    ensures
        s.filter(keep).no_duplicates(),
    decreases s.len(),
{
    reveal(Seq::filter);
    if s.len() > 0 {
        let rest = s.drop_last();
        lemma_kept_once(rest, keep);
        lemma_kept(rest, keep, s.last());
        let kept = rest.filter(keep);
        if rest.contains(s.last()) {
            let i = choose|i: int| 0 <= i < rest.len() && rest[i] == s.last();
            assert(s[i] == s[s.len() - 1]);
        }
        let out = s.filter(keep);
        assert forall|i: int, j: int| 0 <= i < out.len() && 0 <= j < out.len() && i != j implies
            out[i] != out[j] by {
            if i < kept.len() && j < kept.len() {
                assert(kept[i] != kept[j]);
            } else if i < kept.len() {
                assert(kept.contains(kept[i]));
            } else if j < kept.len() {
                assert(kept.contains(kept[j]));
            }
        }
    }
}

/// What one side lacks is listed once.
pub proof fn lemma_lacking_once(set: Set<Element>, other: Set<Element>)
    requires
        set.finite(),
    ensures
        lacking_elements(set, other).no_duplicates(),
{
    replica::lemma_has_listing(set);
    lemma_kept_once(
        replica::listing(set),
        |e: Element| !replica::digests_of(other).contains(e.digest),
    );
}

/// Times add up message by message: a message whose filter is in use adds the filter's times,
/// and one whose code is in use adds the code's.
pub proof fn lemma_totals_add(
    uses: Seq<(bool, bool)>,
    stamps: Seq<Stamps>,
    used: (bool, bool),
    stamp: Stamps,
)
    requires
        uses.len() == stamps.len(),
    ensures
        ({
            let n = uses.len();
            let (u, s) = (uses.push(used), stamps.push(stamp));
            let (filter, code) = (
                if used.0 {
                    1int
                } else {
                    0
                },
                if used.1 {
                    1int
                } else {
                    0
                },
            );
            &&& encode_total(u, s, 0) == 0
            &&& decode_total(u, s, 0) == 0
            &&& encode_total(u, s, n + 1) == encode_total(uses, stamps, n) + filter
                * stamp.filter_encode + code * stamp.code_encode
            &&& decode_total(u, s, n + 1) == decode_total(uses, stamps, n) + filter
                * stamp.filter_decode + code * stamp.code_decode
        }),
{
    lemma_totals_prefix(uses, stamps, used, stamp, uses.len());
}

proof fn lemma_totals_prefix(
    uses: Seq<(bool, bool)>,
    stamps: Seq<Stamps>,
    used: (bool, bool),
    stamp: Stamps,
    n: nat,
)
    requires
        uses.len() == stamps.len(),
        n <= uses.len(),
    ensures
        encode_total(uses.push(used), stamps.push(stamp), n) == encode_total(uses, stamps, n),
        decode_total(uses.push(used), stamps.push(stamp), n) == decode_total(uses, stamps, n),
    decreases n,
{
    if n > 0 {
        lemma_totals_prefix(uses, stamps, used, stamp, (n - 1) as nat);
        assert(uses.push(used)[n - 1] == uses[n - 1]);
        assert(stamps.push(stamp)[n - 1] == stamps[n - 1]);
    }
}

/// The element is pending for the node.
pub open spec fn pends(c: Carry, to: usize, e: Element) -> bool {
    has_key(c, to) && under(c, to).contains(e)
}

/// Queueing makes the queued elements pending, and leaves pending what was.
pub(crate) proof fn lemma_queued_pends(
    c: Carry,
    from: usize,
    back: Seq<Element>,
    to: usize,
    e: Element,
)
    requires
        keys_distinct(c),
    ensures
        keys_distinct(queued(c, from, back)),
        keys_distinct(joined(c, from, back)),
        pends(queued(c, from, back), to, e) <==> pends(c, to, e) || (to == from && back.contains(
            e,
        )),
        pends(joined(c, from, back), to, e) <==> pends(c, to, e) || (to == from && back.contains(
            e,
        )),
{
    lemma_carry_keeps(c, from, back, to);
    lemma_joined_distinct(c, from, back);
    if to == from && has_key(c, from) {
        let had = under(c, from);
        let all = had + back;
        if had.contains(e) {
            let i = choose|i: int| 0 <= i < had.len() && had[i] == e;
            assert(all[i] == e);
        }
        if back.contains(e) {
            let i = choose|i: int| 0 <= i < back.len() && back[i] == e;
            assert(all[had.len() + i] == e);
        }
        if all.contains(e) {
            let i = choose|i: int| 0 <= i < all.len() && all[i] == e;
            if i < had.len() {
                assert(had[i] == e);
            } else {
                assert(back[i - had.len()] == e);
            }
        }
    }
}

/// The elements of a finite set with listed digests.
pub(crate) proof fn lemma_with_digests(set: Set<Element>, digests: Seq<u64>, e: Element)
    requires
        set.finite(),
    ensures
        with_digests(replica::listing(set), digests).contains(e) <==> set.contains(e)
            && digests.contains(e.digest),
        set.contains(e) ==> replica::digests_of(set).contains(e.digest),
{
    let l = replica::listing(set);
    replica::lemma_has_listing(set);
    assert(l.to_set().contains(e) == l.contains(e));
    lemma_kept(l, |x: Element| digests.contains(x.digest), e);
    if set.contains(e) {
        let i = choose|i: int| 0 <= i < l.len() && l[i] == e;
        assert(replica::digests_of(set)[i] == e.digest);
    }
}

/// The filter of a list of digests has each of them, and is made for as many as there are.
pub proof fn lemma_filter_made_for(digests: Seq<u64>, neg_ln: Binary64)
    ensures
        ({
            let f = filter_of(digests, neg_ln);
            &&& digests.len() > 0 ==> f.bits.len() == bloom::bits_at(neg_ln, digests.len()) as nat
            &&& digests.len() == 0 ==> f.bits.len() == bloom::bits_at(neg_ln, 1) as nat
            &&& f.hashes == bloom::hashes_at(neg_ln) as u64
            &&& f.hashers == bloom::slice_hashers(0)
            &&& forall|d: u64| #[trigger] digests.contains(d) ==> f.has(d.hash_writes())
        }),
{
    let f = filter_of(digests, neg_ln);
    let capacity: nat = if digests.len() < 1 {
        1
    } else {
        digests.len()
    };
    bloom::lemma_with_all_shape(
        Filter::empty(
            bloom::bits_at(neg_ln, capacity) as nat,
            bloom::slice_hashers(0),
            bloom::hashes_at(neg_ln) as u64,
        ),
        digests,
    );
    assert forall|d: u64| #[trigger] digests.contains(d) implies f.has(d.hash_writes()) by {
        let i = choose|i: int| 0 <= i < digests.len() && digests[i] == d;
        lemma_filter_finds(digests, neg_ln, i);
    }
}

} // verus!
