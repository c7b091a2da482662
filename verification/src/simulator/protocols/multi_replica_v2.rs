//! One sketch, then eager forwarding.
//!
//! In its first round every replica ships a growing filter and a coded list of its digests to
//! its neighbours. Receivers queue what the sender lacks. From then on every element that is
//! new to a replica is forwarded to all neighbours but the one it came from. A log of the
//! digests committed to each neighbour keeps elements from being sent twice.

use crate::simulator::algorithms::bits::MAX_BITS;
use crate::simulator::algorithms::rateless_bloom::expected_cost::{
    ExpectedCost, ExpectedCostFactory,
};
use crate::simulator::algorithms::rateless_bloom::{RatelessBF, Slices, StoppingStrategyFactory};
use crate::simulator::algorithms::riblt::{Coded, RatelessIBLT};
use crate::simulator::binary64::Binary64;
use crate::simulator::network;
use crate::simulator::network::{Outbox, Packet, ProtocolMsg};
use crate::simulator::protocols;
use crate::simulator::protocols::hybrid_rbf_riblt::bloom_bits;
use crate::simulator::protocols::{bf_iblt, full_state_transfer, hybrid_rbf_riblt};
use crate::simulator::protocols::{
    deliver_pending, queue, Carry, LocalMetrics, PendingElements, ProtocolStepResult, Site,
};
use crate::simulator::replica;
use crate::simulator::replica::{Element, ElementSet, ReplicaView};
use crate::simulator::topology;
use crate::simulator::topology::Topology;
use std::collections::HashSet;
use vstd::prelude::*;
use vstd::std_specs::hash::*;

verus! {

/// Digests committed to each neighbour.
pub type Log = Map<usize, Set<u64>>;

/// The digests committed to a neighbour.
pub open spec fn committed(log: Log, to: usize) -> Set<u64> {
    if log.dom().contains(to) {
        log[to]
    } else {
        Set::empty()
    }
}

/// The log with one more digest.
pub open spec fn commit(log: Log, to: usize, d: u64) -> Log {
    log.insert(to, committed(log, to).insert(d))
}

/// What a replica remembers from round to round.
#[verifier::ext_equal]
pub struct Ledger {
    pub pending: Carry,
    pub log: Log,
    pub sketched: bool,
}

impl Ledger {
    pub open spec fn fresh() -> Ledger {
        Ledger { pending: Seq::empty(), log: Map::empty(), sketched: false }
    }

    /// Commits an element to a neighbour and queues it, unless its digest was committed before.
    pub open spec fn forwarded(self, to: usize, e: Element) -> Ledger {
        if committed(self.log, to).contains(e.digest) {
            self
        } else {
            Ledger {
                pending: protocols::joined(self.pending, to, seq![e]),
                log: commit(self.log, to, e.digest),
                ..self
            }
        }
    }

    /// Forwards an element to each of the neighbours but the one it came from.
    pub open spec fn spread(self, e: Element, from: usize, neighbors: Seq<usize>) -> Ledger
        decreases neighbors.len(),
    {
        if neighbors.len() == 0 {
            self
        } else {
            let before = self.spread(e, from, neighbors.drop_last());
            if neighbors.last() == from {
                before
            } else {
                before.forwarded(neighbors.last(), e)
            }
        }
    }

    /// Forwards each new element.
    pub open spec fn spread_all(self, new: Seq<(Element, usize)>, neighbors: Seq<usize>) -> Ledger
        decreases new.len(),
    {
        if new.len() == 0 {
            self
        } else {
            self.spread_all(new.drop_last(), neighbors).spread(
                new.last().0,
                new.last().1,
                neighbors,
            )
        }
    }
}

/// The elements whose digests are listed and not yet committed, committing them one by one.
pub open spec fn uncommitted(log: Log, to: usize, elements: Seq<Element>, digests: Seq<u64>) -> (
    Seq<Element>,
    Log,
)
    decreases elements.len(),
{
    if elements.len() == 0 {
        (Seq::empty(), log)
    } else {
        let (out, before) = uncommitted(log, to, elements.drop_last(), digests);
        let e = elements.last();
        if digests.contains(e.digest) && !committed(before, to).contains(e.digest) {
            (out.push(e), commit(before, to, e.digest))
        } else {
            (out, before)
        }
    }
}

/// A set after elements were added one by one, and those of them that were new.
pub open spec fn taken(set: Set<Element>, new: Seq<(Element, usize)>, els: Seq<Element>, from: usize) -> (
    Set<Element>,
    Seq<(Element, usize)>,
)
    decreases els.len(),
{
    if els.len() == 0 {
        (set, new)
    } else {
        let (s, n) = taken(set, new, els.drop_last(), from);
        let e = els.last();
        (
            s.insert(e),
            if s.contains(e) {
                n
            } else {
                n.push((e, from))
            },
        )
    }
}

/// A set after the elements of the first `n` messages were added, and those that were new.
pub open spec fn taken_all(set: Set<Element>, inbox: Seq<(usize, Packet)>, n: nat) -> (
    Set<Element>,
    Seq<(Element, usize)>,
)
    decreases n,
{
    if n == 0 {
        (set, Seq::empty())
    } else {
        let (s, new) = taken_all(set, inbox, (n - 1) as nat);
        match inbox[n - 1].1 {
            Packet::Elements(els, _) => taken(s, new, els, inbox[n - 1].0),
            _ => (s, new),
        }
    }
}

/// A ledger and the messages as they were left, after the sketches among the first `n`
/// messages were decoded by a replica that holds `set`.
pub open spec fn decoded(l: Ledger, set: Set<Element>, inbox: Seq<(usize, Packet)>, n: nat) -> (
    Ledger,
    Seq<(usize, Packet)>,
)
    decreases n,
{
    if n == 0 {
        (l, Seq::empty())
    } else {
        let (before, left) = decoded(l, set, inbox, (n - 1) as nat);
        let from = inbox[n - 1].0;
        match inbox[n - 1].1 {
            Packet::RatelessBloomRiblt { slices, riblt } => {
                let (grown, (common, missing)) = hybrid_rbf_riblt::sifted(
                    slices,
                    replica::digests_of(set),
                );
                let (out, log) = uncommitted(
                    before.log,
                    from,
                    replica::listing(set),
                    missing + bf_iblt::exposed(riblt, common),
                );
                (
                    Ledger {
                        pending: protocols::queued(before.pending, from, out),
                        log,
                        ..before
                    },
                    left.push(
                        (
                            from,
                            Packet::RatelessBloomRiblt {
                                slices: grown,
                                riblt: bf_iblt::checked(riblt, common),
                            },
                        ),
                    ),
                )
            },
            other => (before, left.push((from, full_state_transfer::emptied(other)))),
        }
    }
}

/// What a replica makes of its messages: its set, its ledger and the messages as it left them.
pub open spec fn settled(l: Ledger, site: Site, inbox: Seq<(usize, Packet)>) -> (
    Set<Element>,
    Ledger,
    Seq<(usize, Packet)>,
) {
    let (set, new) = taken_all(site.set, inbox, inbox.len());
    let (mid, left) = decoded(l, set, inbox, inbox.len());
    (set, mid.spread_all(new, site.neighbors()), left)
}

/// One sketch for each neighbour.
pub open spec fn sketches(ratio: Binary64, site: Site) -> Seq<(usize, Packet)> {
    let digests = replica::digests_of(site.set);
    full_state_transfer::to_all(
        site.neighbors(),
        Packet::RatelessBloomRiblt {
            slices: Slices::start(digests, hybrid_rbf_riblt::slice_bits(ratio, digests.len())),
            riblt: Coded::of(digests),
        },
    )
}

/// The messages that a replica with the given ledger sends: its sketch the first time, and
/// what is pending.
pub open spec fn outgoing(l: Ledger, ratio: Binary64, site: Site) -> Seq<(usize, Packet)> {
    (if l.sketched {
        Seq::empty()
    } else {
        sketches(ratio, site)
    }) + protocols::deliveries(l.pending)
}

/// Digests committed to each neighbour.
#[derive(Debug)]
struct SentLog {
    entries: Vec<(usize, HashSet<u64>)>,
}

impl SentLog {
    spec fn has(self, to: usize) -> bool {
        exists|i: int| 0 <= i < self.entries@.len() && (#[trigger] self.entries@[i]).0 == to
    }

    spec fn at(self, to: usize) -> int {
        choose|i: int| 0 <= i < self.entries@.len() && (#[trigger] self.entries@[i]).0 == to
    }

    spec fn log(self) -> Log {
        Map::new(|to: usize| self.has(to), |to: usize| self.entries@[self.at(to)].1@)
    }

    spec fn wf(self) -> bool {
        forall|i: int, j: int|
            0 <= i < j < self.entries@.len() ==> (#[trigger] self.entries@[i]).0 != (
            #[trigger] self.entries@[j]).0
    }

    fn new() -> (l: Self)
        ensures
            l.wf(),
            l.log() == Map::<usize, Set<u64>>::empty(),
    {
        let l = SentLog { entries: Vec::new() };
        assert(l.log() =~= Map::<usize, Set<u64>>::empty());
        l
    }

    /// Commits a digest to a neighbour; whether it was not committed before.
    fn insert(&mut self, to: usize, d: u64) -> (new: bool)
        requires
            old(self).wf(),
        ensures
            final(self).wf(),
            new == !committed(old(self).log(), to).contains(d),
            new ==> final(self).log() == commit(old(self).log(), to, d),
            !new ==> final(self).log() == old(self).log(),
    {
        broadcast use vstd::std_specs::hash::group_hash_axioms;

        let ghost before = self.log();
        let ghost start = self.entries@;
        let mut i: usize = 0;
        while i < self.entries.len()
            invariant
                i <= self.entries@.len(),
                self.entries@ == start,
                *self == *old(self),
                old(self).wf(),
                before == old(self).log(),
                forall|j: int| 0 <= j < i ==> (#[trigger] start[j]).0 != to,
            decreases self.entries@.len() - i,
        {
            if self.entries[i].0 == to {
                assert(old(self).has(to));
                assert(old(self).at(to) == i);
                let present: bool = self.entries[i].1.contains(&d);
                if present {
                    return false;
                }
                let mut slot: (usize, HashSet<u64>) = (to, HashSet::new());
                std::mem::swap(&mut slot, &mut self.entries[i]);
                slot.1.insert(d);
                self.entries.set(i, slot);
                proof {
                    let after = self.entries@;
                    assert(after.len() == start.len());
                    assert forall|j: int| 0 <= j < after.len() implies (#[trigger] after[j]).0
                        == start[j].0 && (j != i ==> after[j] == start[j]) by {}
                    let goal = commit(before, to, d);
                    assert forall|k: usize| #[trigger] self.has(k) <==> goal.dom().contains(k) by {
                        if self.has(k) {
                            let j = self.at(k);
                            assert(start[j].0 == k);
                            assert(old(self).has(k));
                        }
                        if old(self).has(k) {
                            let j = old(self).at(k);
                            assert(after[j].0 == k);
                        }
                    }
                    assert forall|k: usize| self.has(k) implies #[trigger] self.log()[k]
                        == goal[k] by {
                        let j = self.at(k);
                        assert(start[j].0 == k);
                        assert(old(self).has(k));
                        let l = old(self).at(k);
                        assert(start[l].0 == k);
                        assert(l == j);
                    }
                    assert(self.log() =~= goal);
                }
                return true;
            }
            i = i + 1;
        }
        assert(!old(self).has(to));
        let mut set: HashSet<u64> = HashSet::new();
        set.insert(d);
        self.entries.push((to, set));
        proof {
            let after = self.entries@;
            assert(after[start.len() as int] == (to, set));
            let goal = commit(before, to, d);
            assert forall|k: usize| #[trigger] self.has(k) <==> goal.dom().contains(k) by {
                if self.has(k) {
                    let j = self.at(k);
                    if j < start.len() {
                        assert(start[j].0 == k);
                        assert(old(self).has(k));
                    }
                }
                if old(self).has(k) {
                    let j = old(self).at(k);
                    assert(after[j].0 == k);
                }
                if k == to {
                    assert(after[start.len() as int].0 == k);
                }
            }
            assert forall|k: usize| self.has(k) implies #[trigger] self.log()[k] == goal[k] by {
                let j = self.at(k);
                if j < start.len() {
                    assert(start[j].0 == k);
                    assert(old(self).has(k));
                    let l = old(self).at(k);
                    assert(start[l].0 == k);
                    assert(l == j);
                    assert(k != to);
                }
            }
            assert(self.log() =~= goal);
        }
        true
    }
}

#[derive(Debug)]
struct ReplicaState {
    /// Elements queued for each neighbour.
    pending: PendingElements,
    /// Digests already committed to each neighbour.
    sent_to: SentLog,
    /// Whether the sketch has been sent.
    sketch_sent: bool,
}

impl ReplicaState {
    spec fn ledger(self) -> Ledger {
        Ledger { pending: self.pending@, log: self.sent_to.log(), sketched: self.sketch_sent }
    }

    spec fn wf(self) -> bool {
        protocols::keys_distinct(self.pending@) && self.sent_to.wf()
    }

    fn new() -> (s: Self)
        ensures
            s.wf(),
            s.ledger() == Ledger::fresh(),
    {
        ReplicaState {
            pending: PendingElements::new(),
            sent_to: SentLog::new(),
            sketch_sent: false,
        }
    }

    /// Commits an element to a neighbour and queues it, unless its digest was committed before.
    fn forward(&mut self, to: usize, e: Element, links: Ghost<Seq<Seq<usize>>>, id: Ghost<int>)
        requires
            old(self).wf(),
            protocols::keys_reachable(old(self).pending@, links@, id@),
            links@[id@].contains(to),
        ensures
            final(self).wf(),
            final(self).ledger() == old(self).ledger().forwarded(to, e),
            protocols::keys_reachable(final(self).pending@, links@, id@),
    {
        let ghost before = self.pending@;
        if self.sent_to.insert(to, e.digest) {
            let mut one: Vec<Element> = Vec::new();
            one.push(e);
            assert(one@ =~= seq![e]);
            self.pending.extend(to, one);
            assert forall|i: int| 0 <= i < self.pending@.len() implies ((
            #[trigger] self.pending@[i]).0 == protocols::OWN_KEY || links@[id@].contains(
                self.pending@[i].0,
            )) by {
                if i < before.len() {
                    assert(self.pending@[i].0 == before[i].0);
                }
            }
        }
    }

    /// The elements of a set whose digests are listed and not yet committed to a neighbour.
    fn select(&mut self, to: usize, set: &ElementSet, digests: &Vec<u64>) -> (r: Vec<Element>)
        requires
            old(self).wf(),
        ensures
            final(self).wf(),
            final(self).pending == old(self).pending,
            final(self).sketch_sent == old(self).sketch_sent,
            (r@, final(self).sent_to.log()) == uncommitted(
                old(self).sent_to.log(),
                to,
                replica::listing(set@),
                digests@,
            ),
    {
        broadcast use vstd::std_specs::hash::group_hash_axioms;

        let wanted = protocols::digest_set(digests);
        let elements = set.elements();
        let ghost start = self.sent_to.log();
        let mut r: Vec<Element> = Vec::new();
        let mut i: usize = 0;
        assert(elements@.take(0) =~= Seq::<Element>::empty());
        while i < elements.len()
            invariant
                i <= elements@.len(),
                self.wf(),
                self.pending == old(self).pending,
                self.sketch_sent == old(self).sketch_sent,
                forall|d: u64| #[trigger] wanted@.contains(d) <==> digests@.contains(d),
                (r@, self.sent_to.log()) == uncommitted(
                    start,
                    to,
                    elements@.take(i as int),
                    digests@,
                ),
            decreases elements@.len() - i,
        {
            let e: Element = elements[i];
            assert(elements@.take(i + 1).drop_last() =~= elements@.take(i as int));
            if wanted.contains(&e.digest) {
                if self.sent_to.insert(to, e.digest) {
                    r.push(e);
                }
            }
            i = i + 1;
        }
        assert(elements@.take(i as int) =~= elements@);
        r
    }
}

/// The protocol with the state of all its replicas.
pub struct MultiReplicaV2Protocol {
    m_ratio: Binary64,
    state: Vec<ReplicaState>,
}

impl MultiReplicaV2Protocol {
    /// What a replica remembers.
    pub closed spec fn ledger(self, id: usize) -> Ledger {
        if id < self.state@.len() {
            self.state@[id as int].ledger()
        } else {
            Ledger::fresh()
        }
    }

    /// Bits of a slice for each digest.
    pub closed spec fn ratio(self) -> Binary64 {
        self.m_ratio
    }

    pub closed spec fn wf(self) -> bool {
        &&& self.m_ratio.wf()
        &&& -1200 <= self.m_ratio.exp <= 1200
        &&& forall|i: int| 0 <= i < self.state@.len() ==> (#[trigger] self.state@[i]).wf()
    }

    /// Half a bit for each digest, and nothing remembered.
    pub fn new() -> (p: Self)
        ensures
            p.wf(),
            p.ratio().parts() == (0x10_0000_0000_0000int, -53int),
            forall|id: usize| #[trigger] p.ledger(id) == Ledger::fresh(),
    {
        MultiReplicaV2Protocol {
            m_ratio: Binary64 { mant: 0x10_0000_0000_0000, exp: -53 },
            state: Vec::new(),
        }
    }

    /// Makes sure that there is state for a replica.
    fn reserve(&mut self, id: usize)
        requires
            old(self).wf(),
            id < usize::MAX,
        ensures
            final(self).wf(),
            final(self).ratio() == old(self).ratio(),
            id < final(self).state@.len(),
            forall|i: usize| #[trigger] final(self).ledger(i) == old(self).ledger(i),
    {
        while self.state.len() <= id
            invariant
                self.wf(),
                id < usize::MAX,
                self.m_ratio == old(self).m_ratio,
                forall|i: usize| #[trigger] self.ledger(i) == old(self).ledger(i),
            decreases id + 1 - self.state@.len(),
        {
            let ghost before = *self;
            self.state.push(ReplicaState::new());
            assert forall|i: usize| #[trigger] self.ledger(i) == old(self).ledger(i) by {
                assert(before.ledger(i) == old(self).ledger(i));
            }
        }
    }

    /// The messages that a replica sends: its sketch the first time, and what is pending.
    pub open spec fn sends(self, site: Site) -> Seq<(usize, Packet)> {
        outgoing(self.ledger(site.id), self.ratio(), site)
    }

    /// Sends the sketch the first time, and what is pending.
    pub fn send_phase(&mut self, local: ReplicaView<'_>, topology: &Topology, outbox: &mut Outbox)
        requires
            old(self).wf(),
            old(outbox).wf(),
            old(outbox).sender() == local.id,
            old(outbox).traffic().links == topology.rows(),
            topology.wf(),
            protocols::keys_reachable(
                old(self).ledger(local.id).pending,
                topology.rows(),
                local.id as int,
            ),
        ensures
            final(self).wf(),
            final(self).ratio() == old(self).ratio(),
            final(self).ledger(local.id) == (Ledger {
                pending: Seq::empty(),
                sketched: true,
                ..old(self).ledger(local.id)
            }),
            forall|i: usize|
                i != local.id ==> #[trigger] final(self).ledger(i) == old(self).ledger(i),
            final(outbox).wf(),
            final(outbox).sender() == local.id,
            network::flow(final(outbox).traffic()) == protocols::delivered(
                network::flow(old(outbox).traffic()),
                local.id as int,
                old(self).sends(protocols::site_of(local, topology)),
            ),
    {
        let n: usize = topology.node_count();
        proof {
            topology::lemma_rows_len(topology.shape(), topology.size());
        }
        let id: usize = local.id;
        self.reserve(id);
        let ghost mid = *self;
        let ghost site = protocols::site_of(local, topology);
        let ghost start = network::flow(outbox.traffic());
        let ghost links = outbox.traffic().links;
        let ghost l = self.ledger(id);
        let ghost digests_spec = replica::digests_of(local.set@);
        let ghost packet = (Packet::RatelessBloomRiblt {
            slices: Slices::start(
                digests_spec,
                hybrid_rbf_riblt::slice_bits(self.ratio(), digests_spec.len()),
            ),
            riblt: Coded::of(digests_spec),
        });
        let neighbors = topology.neighbors(id);
        let ghost first = if l.sketched {
            Seq::<(usize, Packet)>::empty()
        } else {
            full_state_transfer::to_all(neighbors@, packet)
        };
        if !self.state[id].sketch_sent {
            let digests: Vec<u64> = local.set.digest_list();
            let bits: usize = bloom_bits(self.m_ratio, digests.len());
            let ghost goal = full_state_transfer::to_all(neighbors@, packet);
            let mut i: usize = 0;
            assert(goal.take(0) =~= Seq::<(usize, Packet)>::empty());
            while i < neighbors.len()
                invariant
                    i <= neighbors@.len(),
                    outbox.wf(),
                    outbox.sender() == local.id,
                    outbox.traffic().links == links,
                    links[local.id as int] == neighbors@,
                    *self == mid,
                    digests_spec == replica::digests_of(local.set@),
                    packet == (Packet::RatelessBloomRiblt {
                        slices: Slices::start(digests_spec, bits as nat),
                        riblt: Coded::of(digests_spec),
                    }),
                    goal == full_state_transfer::to_all(neighbors@, packet),
                    network::flow(outbox.traffic()) == protocols::delivered(
                        start,
                        local.id as int,
                        goal.take(i as int),
                    ),
                decreases neighbors@.len() - i,
            {
                let to: usize = neighbors[i];
                assert(neighbors@.contains(to));
                let bf: RatelessBF<u64> = RatelessBF::new(local.set.digest_list(), bits);
                outbox.send_rateless_bloom_riblt(
                    to,
                    bf,
                    RatelessIBLT::riblt_from(local.set.digest_list()),
                );
                proof {
                    assert(goal.take(i + 1).drop_last() =~= goal.take(i as int));
                    assert(goal.take(i + 1).last() == (to, packet));
                }
                i = i + 1;
            }
            assert(goal.take(i as int) =~= goal);
        }
        assert(network::flow(outbox.traffic()) == protocols::delivered(
            start,
            id as int,
            first,
        ));
        let mut slot = ReplicaState::new();
        std::mem::swap(&mut slot, &mut self.state[id]);
        assert(slot == mid.state@[id as int]);
        let ReplicaState { pending, sent_to, sketch_sent } = slot;
        proof {
            protocols::lemma_delivered_links(start, id as int, first);
        }
        deliver_pending(outbox, &pending);
        proof {
            protocols::lemma_delivered_both(
                start,
                id as int,
                first,
                protocols::deliveries(pending@),
            );
        }
        self.state.set(
            id,
            ReplicaState { pending: PendingElements::new(), sent_to, sketch_sent: true },
        );
        assert forall|i: usize| i != local.id implies #[trigger] self.ledger(i) == old(
            self,
        ).ledger(i) by {
            assert(mid.ledger(i) == old(self).ledger(i));
        }
        assert forall|i: int| 0 <= i < self.state@.len() implies (#[trigger] self.state@[i]).wf() by {
            assert(mid.state@[i].wf());
        }
    }

    /// Takes in the elements received, decodes the sketches received, and forwards what is new.
    pub fn recv_phase(
        &mut self,
        local: ReplicaView<'_>,
        topology: &Topology,
        inbox: &mut Vec<(usize, ProtocolMsg)>,
    ) -> (r: ProtocolStepResult)
        requires
            old(self).wf(),
            topology.wf(),
            local.id < topology.size(),
            network::inbox_wf(topology.rows(), local.id as int, old(inbox)@),
            protocols::keys_reachable(
                old(self).ledger(local.id).pending,
                topology.rows(),
                local.id as int,
            ),
        ensures
            final(self).wf(),
            final(self).ratio() == old(self).ratio(),
            forall|i: usize|
                i != local.id ==> #[trigger] final(self).ledger(i) == old(self).ledger(i),
            protocols::keys_reachable(
                final(self).ledger(local.id).pending,
                topology.rows(),
                local.id as int,
            ),
            (r.next_set@, final(self).ledger(local.id), network::packets(final(inbox)@))
                == settled(
                old(self).ledger(local.id),
                protocols::site_of(local, topology),
                network::packets(old(inbox)@),
            ),
            r.carry is None,
            r.metrics == (LocalMetrics { encode_time: 0, decode_time: 0, false_matches: 0 }),
            final(inbox)@.len() == old(inbox)@.len(),
    {
        let n: usize = topology.node_count();
        let id: usize = local.id;
        proof {
            topology::lemma_topology_is_graph(topology.shape(), topology.size());
        }
        self.reserve(id);
        let ghost mid = *self;
        let ghost site = protocols::site_of(local, topology);
        let ghost links = topology.rows();
        let ghost before = inbox@;
        let ghost start = network::packets(inbox@);
        let mut slot = ReplicaState::new();
        std::mem::swap(&mut slot, &mut self.state[id]);
        assert(slot == mid.state@[id as int]);
        assert(slot.ledger() == old(self).ledger(id)) by {
            assert(mid.ledger(id) == old(self).ledger(id));
        }
        let (next_set, newly): (ElementSet, Vec<(Element, usize)>) = take_in(local.set, inbox);
        decode_sketches(&mut slot, &next_set, inbox, Ghost(before), Ghost(links), Ghost(id as int));
        forward_all(
            &mut slot,
            &newly,
            topology.neighbors(id),
            Ghost(links),
            Ghost(id as int),
        );
        self.state.set(id, slot);
        assert forall|i: usize| i != local.id implies #[trigger] self.ledger(i) == old(
            self,
        ).ledger(i) by {
            assert(mid.ledger(i) == old(self).ledger(i));
        }
        assert forall|i: int| 0 <= i < self.state@.len() implies (#[trigger] self.state@[i]).wf() by {
            assert(mid.state@[i].wf());
        }
        ProtocolStepResult { next_set, metrics: LocalMetrics::default(), carry: None }
    }
}

/// Takes the elements out of the messages. The set with them, and those that were new.
fn take_in(set: &ElementSet, inbox: &mut Vec<(usize, ProtocolMsg)>) -> (r: (
    ElementSet,
    Vec<(Element, usize)>,
))
    ensures
        (r.0@, r.1@) == taken_all(
            set@,
            network::packets(old(inbox)@),
            network::packets(old(inbox)@).len(),
        ),
        final(inbox)@.len() == old(inbox)@.len(),
        forall|i: int|
            0 <= i < final(inbox)@.len() ==> {
                &&& (#[trigger] final(inbox)@[i]).0 == old(inbox)@[i].0
                &&& final(inbox)@[i].1@ == full_state_transfer::emptied(old(inbox)@[i].1@)
            },
{
    let ghost before = inbox@;
    let ghost start = network::packets(inbox@);
    let mut next: ElementSet = set.clone();
    let mut newly: Vec<(Element, usize)> = Vec::new();
    let mut i: usize = 0;
    while i < inbox.len()
        invariant
            i <= inbox@.len(),
            inbox@.len() == before.len(),
            start == network::packets(before),
            (next@, newly@) == taken_all(set@, start, i as nat),
            forall|j: int| 0 <= j < inbox@.len() ==> (#[trigger] inbox@[j]).0 == before[j].0,
            forall|j: int|
                0 <= j < i ==> (#[trigger] inbox@[j]).1@ == full_state_transfer::emptied(
                    before[j].1@,
                ),
            forall|j: int| i <= j < inbox@.len() ==> (#[trigger] inbox@[j]) == before[j],
        decreases inbox@.len() - i,
    {
        let from: usize = inbox[i].0;
        assert(inbox@[i as int] == before[i as int]);
        match inbox[i].1.take_elements() {
            Some(els) => {
                let ghost base = next@;
                let ghost had = newly@;
                let mut k: usize = 0;
                assert(els@.take(0) =~= Seq::<Element>::empty());
                while k < els.len()
                    invariant
                        k <= els@.len(),
                        (next@, newly@) == taken(base, had, els@.take(k as int), from),
                    decreases els@.len() - k,
                {
                    let e: Element = els[k];
                    assert(els@.take(k + 1).drop_last() =~= els@.take(k as int));
                    if next.insert(e) {
                        newly.push((e, from));
                    }
                    k = k + 1;
                }
                assert(els@.take(k as int) =~= els@);
            },
            None => {},
        }
        i = i + 1;
    }
    (next, newly)
}

/// Decodes the sketches among the messages and queues what their senders lack.
fn decode_sketches(
    state: &mut ReplicaState,
    set: &ElementSet,
    inbox: &mut Vec<(usize, ProtocolMsg)>,
    original: Ghost<Seq<(usize, ProtocolMsg)>>,
    links: Ghost<Seq<Seq<usize>>>,
    id: Ghost<int>,
)
    requires
        old(state).wf(),
        topology::is_graph(links@),
        links@.len() <= usize::MAX,
        0 <= id@ < links@.len(),
        network::inbox_wf(links@, id@, original@),
        protocols::keys_reachable(old(state).pending@, links@, id@),
        old(inbox)@.len() == original@.len(),
        forall|i: int|
            0 <= i < original@.len() ==> {
                &&& (#[trigger] old(inbox)@[i]).0 == original@[i].0
                &&& old(inbox)@[i].1@ == full_state_transfer::emptied(original@[i].1@)
            },
    ensures
        final(state).wf(),
        protocols::keys_reachable(final(state).pending@, links@, id@),
        (final(state).ledger(), network::packets(final(inbox)@)) == decoded(
            old(state).ledger(),
            set@,
            network::packets(original@),
            original@.len(),
        ),
        final(inbox)@.len() == original@.len(),
{
    let ghost begin = state.ledger();
    let ghost start = network::packets(original@);
    let ghost before = inbox@;
    let mut i: usize = 0;
    assert(network::packets(inbox@).take(0) =~= Seq::<(usize, Packet)>::empty());
    while i < inbox.len()
        invariant
            i <= inbox@.len(),
            inbox@.len() == original@.len(),
            before.len() == original@.len(),
            start == network::packets(original@),
            state.wf(),
            topology::is_graph(links@),
            links@.len() <= usize::MAX,
            0 <= id@ < links@.len(),
            network::inbox_wf(links@, id@, original@),
            protocols::keys_reachable(state.pending@, links@, id@),
            (state.ledger(), network::packets(inbox@).take(i as int)) == decoded(
                begin,
                set@,
                start,
                i as nat,
            ),
            forall|j: int|
                0 <= j < original@.len() ==> {
                    &&& (#[trigger] before[j]).0 == original@[j].0
                    &&& before[j].1@ == full_state_transfer::emptied(original@[j].1@)
                },
            forall|j: int| i <= j < inbox@.len() ==> (#[trigger] inbox@[j]) == before[j],
        decreases inbox@.len() - i,
    {
        let from: usize = inbox[i].0;
        assert(inbox@[i as int] == before[i as int]);
        assert(network::from_neighbor(links@, id@, original@[i as int].0));
        let ghost prior = network::packets(inbox@).take(i as int);
        match inbox[i].1.as_rateless_bloom_riblt() {
            Some((sender_filter, sender_riblt)) => {
                let sender_size: usize = sender_filter.source_size();
                let strategy: ExpectedCost = ExpectedCostFactory::new().create(
                    set.digest_list(),
                    sender_size,
                );
                let ghost coded = sender_riblt@;
                let (common, definitely_missing): (Vec<u64>, Vec<u64>) =
                    sender_filter.extend_until(strategy);
                let ghost found = common@;
                let ghost gone = definitely_missing@;
                let mut local_only: Vec<u64> = definitely_missing;
                if common.len() > 0 {
                    let mut common_riblt = RatelessIBLT::riblt_from(common);
                    sender_riblt.decode_against(&mut common_riblt);
                    let mut wrong: Vec<u64> = sender_riblt.remote_only();
                    local_only.append(&mut wrong);
                }
                assert(local_only@ =~= gone + bf_iblt::exposed(coded, found));
                let to_send: Vec<Element> = state.select(from, set, &local_only);
                queue(&mut state.pending, from, to_send, links, id);
            },
            None => {},
        }
        i = i + 1;
        proof {
            let now = network::packets(inbox@);
            assert(now.take(i as int) =~= prior.push(now[i - 1]));
            assert((state.ledger(), now.take(i as int)) == decoded(begin, set@, start, i as nat));
        }
    }
    assert(network::packets(inbox@).take(i as int) =~= network::packets(inbox@));
}

/// Forwards every new element to all neighbours but the one it came from.
fn forward_all(
    state: &mut ReplicaState,
    newly: &Vec<(Element, usize)>,
    neighbors: &Vec<usize>,
    links: Ghost<Seq<Seq<usize>>>,
    id: Ghost<int>,
)
    requires
        old(state).wf(),
        neighbors@ == links@[id@],
        protocols::keys_reachable(old(state).pending@, links@, id@),
    ensures
        final(state).wf(),
        protocols::keys_reachable(final(state).pending@, links@, id@),
        final(state).ledger() == old(state).ledger().spread_all(newly@, neighbors@),
{
    let ghost begin = state.ledger();
    let mut i: usize = 0;
    assert(newly@.take(0) =~= Seq::<(Element, usize)>::empty());
    while i < newly.len()
        invariant
            i <= newly@.len(),
            state.wf(),
            neighbors@ == links@[id@],
            protocols::keys_reachable(state.pending@, links@, id@),
            state.ledger() == begin.spread_all(newly@.take(i as int), neighbors@),
        decreases newly@.len() - i,
    {
        let (e, from): (Element, usize) = newly[i];
        let ghost base = state.ledger();
        let mut k: usize = 0;
        assert(neighbors@.take(0) =~= Seq::<usize>::empty());
        while k < neighbors.len()
            invariant
                k <= neighbors@.len(),
                state.wf(),
                neighbors@ == links@[id@],
                protocols::keys_reachable(state.pending@, links@, id@),
                state.ledger() == base.spread(e, from, neighbors@.take(k as int)),
            decreases neighbors@.len() - k,
        {
            let nb: usize = neighbors[k];
            assert(neighbors@.take(k + 1).drop_last() =~= neighbors@.take(k as int));
            assert(neighbors@.contains(nb));
            if nb != from {
                state.forward(nb, e, links, id);
            }
            k = k + 1;
        }
        assert(neighbors@.take(k as int) =~= neighbors@);
        assert(newly@.take(i + 1).drop_last() =~= newly@.take(i as int));
        i = i + 1;
    }
    assert(newly@.take(i as int) =~= newly@);
}

/// The elements have different digests, all of them in `now` and none of them in `before`.
pub open spec fn newly_committed(els: Seq<Element>, before: Set<u64>, now: Set<u64>) -> bool {
    &&& forall|i: int|
        0 <= i < els.len() ==> now.contains((#[trigger] els[i]).digest) && !before.contains(
            els[i].digest,
        )
    &&& forall|i: int, j: int|
        0 <= i < j < els.len() ==> (#[trigger] els[i]).digest != (#[trigger] els[j]).digest
}

/// Nothing was struck off the log.
pub open spec fn log_kept(before: Log, now: Log) -> bool {
    forall|to: usize| #[trigger] committed(before, to).subset_of(committed(now, to))
}

/// All that is pending was committed after `before` was written, once for each neighbour.
pub open spec fn pending_once(before: Log, l: Ledger) -> bool {
    &&& protocols::keys_distinct(l.pending)
    &&& forall|i: int|
        0 <= i < l.pending.len() ==> newly_committed(
            (#[trigger] l.pending[i]).1,
            committed(before, l.pending[i].0),
            committed(l.log, l.pending[i].0),
        )
}

proof fn lemma_queued_once(before: Log, l: Ledger, to: usize, els: Seq<Element>, log: Log)
    requires
        pending_once(before, l),
        log_kept(before, l.log),
        log_kept(l.log, log),
        newly_committed(els, committed(l.log, to), committed(log, to)),
    ensures
        pending_once(
            before,
            Ledger { pending: protocols::joined(l.pending, to, els), log, ..l },
        ),
        log_kept(before, log),
{
    let next = Ledger { pending: protocols::joined(l.pending, to, els), log, ..l };
    assert forall|k: usize| #[trigger] committed(before, k).subset_of(committed(log, k)) by {
        assert(committed(before, k).subset_of(committed(l.log, k)));
        assert(committed(l.log, k).subset_of(committed(log, k)));
    }
    assert(committed(before, to).subset_of(committed(l.log, to)));
    assert forall|i: int, j: int| 0 <= i < j < next.pending.len() implies (
    #[trigger] next.pending[i]).0 != (#[trigger] next.pending[j]).0 by {
        assert(next.pending[i].0 == l.pending[i].0);
        if j < l.pending.len() {
            assert(next.pending[j].0 == l.pending[j].0);
        }
    }
    assert forall|i: int| 0 <= i < next.pending.len() implies newly_committed(
        (#[trigger] next.pending[i]).1,
        committed(before, next.pending[i].0),
        committed(log, next.pending[i].0),
    ) by {
        if i < l.pending.len() {
            let (k, had) = l.pending[i];
            assert(newly_committed(l.pending[i].1, committed(before, k), committed(l.log, k)));
            assert(committed(l.log, k).subset_of(committed(log, k)));
            if k == to {
                let all = had + els;
                assert(next.pending[i].1 == all);
                assert forall|x: int| 0 <= x < all.len() implies committed(log, to).contains(
                    (#[trigger] all[x]).digest,
                ) && !committed(before, to).contains(all[x].digest) by {
                    if x < had.len() {
                        assert(all[x] == had[x]);
                    } else {
                        assert(all[x] == els[x - had.len()]);
                    }
                }
                assert forall|x: int, y: int| 0 <= x < y < all.len() implies (
                #[trigger] all[x]).digest != (#[trigger] all[y]).digest by {
                    if x < had.len() {
                        assert(all[x] == had[x]);
                        if y < had.len() {
                            assert(all[y] == had[y]);
                        } else {
                            assert(all[y] == els[y - had.len()]);
                        }
                    } else {
                        assert(all[x] == els[x - had.len()]);
                        assert(all[y] == els[y - had.len()]);
                    }
                }
            }
        } else {
            assert(next.pending[i] == (to, els));
        }
    }
}

proof fn lemma_commit_keeps(log: Log, to: usize, d: u64)
    ensures
        log_kept(log, commit(log, to, d)),
{
}

proof fn lemma_forwarded_once(before: Log, l: Ledger, to: usize, e: Element)
    requires
        pending_once(before, l),
        log_kept(before, l.log),
    ensures
        pending_once(before, l.forwarded(to, e)),
        log_kept(before, l.forwarded(to, e).log),
{
    if !committed(l.log, to).contains(e.digest) {
        lemma_commit_keeps(l.log, to, e.digest);
        lemma_queued_once(before, l, to, seq![e], commit(l.log, to, e.digest));
    }
}

proof fn lemma_spread_once(before: Log, l: Ledger, e: Element, from: usize, neighbors: Seq<usize>)
    requires
        pending_once(before, l),
        log_kept(before, l.log),
    ensures
        pending_once(before, l.spread(e, from, neighbors)),
        log_kept(before, l.spread(e, from, neighbors).log),
    decreases neighbors.len(),
{
    if neighbors.len() > 0 {
        let rest = neighbors.drop_last();
        lemma_spread_once(before, l, e, from, rest);
        if neighbors.last() != from {
            lemma_forwarded_once(before, l.spread(e, from, rest), neighbors.last(), e);
        }
    }
}

proof fn lemma_spread_all_once(
    before: Log,
    l: Ledger,
    new: Seq<(Element, usize)>,
    neighbors: Seq<usize>,
)
    requires
        pending_once(before, l),
        log_kept(before, l.log),
    ensures
        pending_once(before, l.spread_all(new, neighbors)),
        log_kept(before, l.spread_all(new, neighbors).log),
    decreases new.len(),
{
    if new.len() > 0 {
        lemma_spread_all_once(before, l, new.drop_last(), neighbors);
        lemma_spread_once(
            before,
            l.spread_all(new.drop_last(), neighbors),
            new.last().0,
            new.last().1,
            neighbors,
        );
    }
}

proof fn lemma_uncommitted_once(log: Log, to: usize, elements: Seq<Element>, digests: Seq<u64>)
    ensures
        ({
            let (out, now) = uncommitted(log, to, elements, digests);
            &&& log_kept(log, now)
            &&& newly_committed(out, committed(log, to), committed(now, to))
        }),
    decreases elements.len(),
{
    if elements.len() > 0 {
        let rest = elements.drop_last();
        lemma_uncommitted_once(log, to, rest, digests);
        let (out, mid) = uncommitted(log, to, rest, digests);
        let e = elements.last();
        if digests.contains(e.digest) && !committed(mid, to).contains(e.digest) {
            let now = commit(mid, to, e.digest);
            lemma_commit_keeps(mid, to, e.digest);
            assert forall|k: usize| #[trigger] committed(log, k).subset_of(committed(now, k)) by {
                assert(committed(log, k).subset_of(committed(mid, k)));
                assert(committed(mid, k).subset_of(committed(now, k)));
            }
            assert(committed(log, to).subset_of(committed(mid, to)));
            let more = out.push(e);
            assert forall|i: int| 0 <= i < more.len() implies committed(now, to).contains(
                (#[trigger] more[i]).digest,
            ) && !committed(log, to).contains(more[i].digest) by {
                if i < out.len() {
                    assert(more[i] == out[i]);
                }
            }
            assert forall|i: int, j: int| 0 <= i < j < more.len() implies (
            #[trigger] more[i]).digest != (#[trigger] more[j]).digest by {
                assert(more[i] == out[i]);
                if j < out.len() {
                    assert(more[j] == out[j]);
                }
            }
        }
    }
}

proof fn lemma_decoded_once(
    before: Log,
    l: Ledger,
    set: Set<Element>,
    inbox: Seq<(usize, Packet)>,
    n: nat,
)
    requires
        pending_once(before, l),
        log_kept(before, l.log),
        n <= inbox.len(),
    ensures
        pending_once(before, decoded(l, set, inbox, n).0),
        log_kept(before, decoded(l, set, inbox, n).0.log),
    decreases n,
{
    if n > 0 {
        lemma_decoded_once(before, l, set, inbox, (n - 1) as nat);
        let (mid, left) = decoded(l, set, inbox, (n - 1) as nat);
        let from = inbox[n - 1].0;
        match inbox[n - 1].1 {
            Packet::RatelessBloomRiblt { slices, riblt } => {
                let (grown, (common, missing)) = hybrid_rbf_riblt::sifted(
                    slices,
                    replica::digests_of(set),
                );
                let digests = missing + bf_iblt::exposed(riblt, common);
                lemma_uncommitted_once(mid.log, from, replica::listing(set), digests);
                let (out, log) = uncommitted(mid.log, from, replica::listing(set), digests);
                lemma_queued_once(before, mid, from, out, log);
                if out.len() == 0 {
                    let next = decoded(l, set, inbox, n).0;
                    assert(next.pending == mid.pending);
                    assert forall|i: int| 0 <= i < next.pending.len() implies newly_committed(
                        (#[trigger] next.pending[i]).1,
                        committed(before, next.pending[i].0),
                        committed(next.log, next.pending[i].0),
                    ) by {
                        let k = mid.pending[i].0;
                        assert(newly_committed(
                            mid.pending[i].1,
                            committed(before, k),
                            committed(mid.log, k),
                        ));
                        assert(committed(mid.log, k).subset_of(committed(log, k)));
                    }
                }
            },
            _ => {},
        }
    }
}

/// All that is pending is committed, and no digest is pending twice for a neighbour.
pub open spec fn sound(l: Ledger) -> bool {
    pending_once(Map::empty(), l)
}

/// Whether a digest is pending for a neighbour.
pub open spec fn awaits(c: Carry, to: usize, d: u64) -> bool {
    exists|i: int, j: int|
        0 <= i < c.len() && 0 <= j < c[i].1.len() && c[i].0 == to && #[trigger] c[i].1[j].digest
            == d
}

/// The digests that were committed to each neighbour and are no longer pending.
pub open spec fn gone_out(l: Ledger) -> Log {
    Map::new(
        |to: usize| l.log.dom().contains(to),
        |to: usize|
            Set::new(|d: u64| committed(l.log, to).contains(d) && !awaits(l.pending, to, d)),
    )
}

/// No digest is queued for the same neighbour twice, in whatever order a replica sends and
/// receives. Whatever its ledger holds, what is pending for a neighbour after a round has
/// different digests, all of them committed and none of them among those that went out to
/// that neighbour before; and no commitment is ever forgotten.
pub proof fn lemma_queued_once_for_each(l: Ledger, site: Site, inbox: Seq<(usize, Packet)>)
    requires
        sound(l),
    ensures
        sound(settled(l, site, inbox).1),
        pending_once(gone_out(l), settled(l, site, inbox).1),
        log_kept(l.log, settled(l, site, inbox).1.log),
        l.pending.len() == 0 ==> pending_once(l.log, settled(l, site, inbox).1),
{
    let before = gone_out(l);
    assert forall|to: usize| #[trigger] committed(before, to).subset_of(committed(l.log, to)) by {}
    assert forall|i: int| 0 <= i < l.pending.len() implies newly_committed(
        (#[trigger] l.pending[i]).1,
        committed(before, l.pending[i].0),
        committed(l.log, l.pending[i].0),
    ) by {
        let (to, els) = l.pending[i];
        let none = committed(Map::<usize, Set<u64>>::empty(), to);
        assert(newly_committed(l.pending[i].1, none, committed(l.log, to)));
        assert forall|j: int| 0 <= j < els.len() implies committed(l.log, to).contains(
            (#[trigger] els[j]).digest,
        ) && !committed(before, to).contains(els[j].digest) by {
            assert(l.pending[i].1[j].digest == els[j].digest);
            assert(awaits(l.pending, to, els[j].digest));
        }
    }
    lemma_settled_once(before, l, site, inbox);
    lemma_settled_once(Map::empty(), l, site, inbox);
    let empty = Ledger { pending: Seq::empty(), ..l };
    lemma_settled_once(l.log, empty, site, inbox);
    lemma_log_apart(l, site, inbox);
    if l.pending.len() == 0 {
        assert(l.pending =~= Seq::empty());
    }
}

proof fn lemma_settled_once(before: Log, l: Ledger, site: Site, inbox: Seq<(usize, Packet)>)
    requires
        pending_once(before, l),
        log_kept(before, l.log),
    ensures
        pending_once(before, settled(l, site, inbox).1),
        log_kept(before, settled(l, site, inbox).1.log),
{
    let (set, new) = taken_all(site.set, inbox, inbox.len());
    lemma_decoded_once(before, l, set, inbox, inbox.len());
    lemma_spread_all_once(
        before,
        decoded(l, set, inbox, inbox.len()).0,
        new,
        site.neighbors(),
    );
}

/// What is pending has no influence on what is committed.
proof fn lemma_log_apart(l: Ledger, site: Site, inbox: Seq<(usize, Packet)>)
    ensures
        settled(l, site, inbox).1.log == settled(
            Ledger { pending: Seq::empty(), ..l },
            site,
            inbox,
        ).1.log,
{
    let m = Ledger { pending: Seq::empty(), ..l };
    let (set, new) = taken_all(site.set, inbox, inbox.len());
    lemma_decoded_log(l, m, set, inbox, inbox.len());
    lemma_spread_all_log(
        decoded(l, set, inbox, inbox.len()).0,
        decoded(m, set, inbox, inbox.len()).0,
        new,
        site.neighbors(),
    );
}

proof fn lemma_decoded_log(
    l: Ledger,
    m: Ledger,
    set: Set<Element>,
    inbox: Seq<(usize, Packet)>,
    n: nat,
)
    requires
        l.log == m.log,
    ensures
        decoded(l, set, inbox, n).0.log == decoded(m, set, inbox, n).0.log,
    decreases n,
{
    if n > 0 {
        lemma_decoded_log(l, m, set, inbox, (n - 1) as nat);
    }
}

proof fn lemma_spread_log(l: Ledger, m: Ledger, e: Element, from: usize, neighbors: Seq<usize>)
    requires
        l.log == m.log,
    ensures
        l.spread(e, from, neighbors).log == m.spread(e, from, neighbors).log,
    decreases neighbors.len(),
{
    if neighbors.len() > 0 {
        lemma_spread_log(l, m, e, from, neighbors.drop_last());
    }
}

proof fn lemma_spread_all_log(
    l: Ledger,
    m: Ledger,
    new: Seq<(Element, usize)>,
    neighbors: Seq<usize>,
)
    requires
        l.log == m.log,
    ensures
        l.spread_all(new, neighbors).log == m.spread_all(new, neighbors).log,
    decreases new.len(),
{
    if new.len() > 0 {
        let rest = new.drop_last();
        lemma_spread_all_log(l, m, rest, neighbors);
        lemma_spread_log(
            l.spread_all(rest, neighbors),
            m.spread_all(rest, neighbors),
            new.last().0,
            new.last().1,
            neighbors,
        );
    }
}

/// Ledgers start sound, and sending keeps them so.
pub proof fn lemma_sending_keeps_sound(l: Ledger)
    requires
        sound(l),
    ensures
        sound(Ledger::fresh()),
        sound(Ledger { pending: Seq::empty(), sketched: true, ..l }),
{
}

proof fn lemma_taken_set(set: Set<Element>, new: Seq<(Element, usize)>, els: Seq<Element>, from: usize)
    ensures
        taken(set, new, els, from).0 == set.union(els.to_set()),
    decreases els.len(),
{
    if els.len() > 0 {
        let rest = els.drop_last();
        lemma_taken_set(set, new, rest, from);
        replica::lemma_seq_push_to_set(rest, els.last());
        assert(els =~= rest.push(els.last()));
        assert(taken(set, new, els, from).0 =~= set.union(els.to_set()));
    } else {
        assert(set.union(els.to_set()) =~= set);
    }
}

proof fn lemma_taken_all_set(set: Set<Element>, inbox: Seq<(usize, Packet)>, n: nat)
    requires
        n <= inbox.len(),
    ensures
        taken_all(set, inbox, n).0 == full_state_transfer::merged(set, inbox, n),
    decreases n,
{
    if n > 0 {
        lemma_taken_all_set(set, inbox, (n - 1) as nat);
        match inbox[n - 1].1 {
            Packet::Elements(els, _) => {
                let (s, new) = taken_all(set, inbox, (n - 1) as nat);
                lemma_taken_set(s, new, els, inbox[n - 1].0);
            },
            _ => {},
        }
    }
}

/// A replica's new set is its old set and all elements that it was sent.
pub proof fn lemma_settled_set(l: Ledger, site: Site, inbox: Seq<(usize, Packet)>)
    ensures
        settled(l, site, inbox).0 == full_state_transfer::merged(site.set, inbox, inbox.len()),
{
    lemma_taken_all_set(site.set, inbox, inbox.len());
}

/// What a replica does: it sends, or it receives messages.
pub enum Phase {
    Send(Site),
    Receive(Site, Seq<(usize, Packet)>),
}

/// The ledger of a replica after a run of phases, and all messages that it sent in them.
pub open spec fn run(ratio: Binary64, phases: Seq<Phase>) -> (Ledger, Seq<(usize, Packet)>)
    decreases phases.len(),
{
    if phases.len() == 0 {
        (Ledger::fresh(), Seq::empty())
    } else {
        let (l, sent) = run(ratio, phases.drop_last());
        match phases.last() {
            Phase::Send(site) => (
                Ledger { pending: Seq::empty(), sketched: true, ..l },
                sent + outgoing(l, ratio, site),
            ),
            Phase::Receive(site, inbox) => (settled(l, site, inbox).1, sent),
        }
    }
}

/// The elements in messages to a node, in the order in which they were sent.
pub open spec fn shipped(messages: Seq<(usize, Packet)>, to: usize) -> Seq<Element>
    decreases messages.len(),
{
    if messages.len() == 0 {
        Seq::empty()
    } else {
        let before = shipped(messages.drop_last(), to);
        match messages.last().1 {
            Packet::Elements(els, _) => if messages.last().0 == to {
                before + els
            } else {
                before
            },
            _ => before,
        }
    }
}

/// The messages that are sketches.
pub open spec fn sketches_among(messages: Seq<(usize, Packet)>) -> Seq<(usize, Packet)> {
    messages.filter(|m: (usize, Packet)| m.1 is RatelessBloomRiblt)
}

/// What is pending for a node.
pub open spec fn pending_for(c: Carry, to: usize) -> Seq<Element>
    decreases c.len(),
{
    if c.len() == 0 {
        Seq::empty()
    } else if c.last().0 == to {
        pending_for(c.drop_last(), to) + c.last().1
    } else {
        pending_for(c.drop_last(), to)
    }
}

/// The sketches of the first phase of a run in which the replica sends; none where it only
/// receives.
pub open spec fn first_sketches(ratio: Binary64, phases: Seq<Phase>) -> Seq<(usize, Packet)>
    decreases phases.len(),
{
    if phases.len() == 0 {
        Seq::empty()
    } else {
        match phases[0] {
            Phase::Send(site) => sketches(ratio, site),
            Phase::Receive(_, _) => first_sketches(ratio, phases.drop_first()),
        }
    }
}

/// Whether the replica sends in some phase.
pub open spec fn has_sent(phases: Seq<Phase>) -> bool {
    exists|i: int| 0 <= i < phases.len() && (#[trigger] phases[i]) is Send
}

proof fn lemma_shipped_both(a: Seq<(usize, Packet)>, b: Seq<(usize, Packet)>, to: usize)
    ensures
        shipped(a + b, to) == shipped(a, to) + shipped(b, to),
    decreases b.len(),
{
    if b.len() == 0 {
        assert(a + b =~= a);
        assert(shipped(a, to) + shipped(b, to) =~= shipped(a, to));
    } else {
        assert((a + b).drop_last() =~= a + b.drop_last());
        lemma_shipped_both(a, b.drop_last(), to);
        match b.last().1 {
            Packet::Elements(els, _) => {
                assert(shipped(a, to) + (shipped(b.drop_last(), to) + els) =~= shipped(a, to)
                    + shipped(b.drop_last(), to) + els);
            },
            _ => {},
        }
    }
}

proof fn lemma_no_elements_shipped(messages: Seq<(usize, Packet)>, to: usize)
    requires
        forall|x: int| 0 <= x < messages.len() ==> !((#[trigger] messages[x]).1 is Elements),
    ensures
        shipped(messages, to) == Seq::<Element>::empty(),
    decreases messages.len(),
{
    if messages.len() > 0 {
        let rest = messages.drop_last();
        assert forall|x: int| 0 <= x < rest.len() implies !((#[trigger] rest[x]).1 is Elements) by {
            assert(rest[x] == messages[x]);
        }
        lemma_no_elements_shipped(rest, to);
        assert(!(messages[messages.len() - 1].1 is Elements));
    }
}

proof fn lemma_deliveries_shipped(c: Carry, to: usize)
    ensures
        shipped(protocols::deliveries(c), to) == if to == protocols::OWN_KEY {
            Seq::<Element>::empty()
        } else {
            pending_for(c, to)
        },
    decreases c.len(),
{
    if c.len() > 0 {
        let rest = protocols::deliveries(c.drop_last());
        let last = c.last();
        lemma_deliveries_shipped(c.drop_last(), to);
        if last.0 != protocols::OWN_KEY && last.1.len() > 0 {
            let m = (last.0, Packet::Elements(last.1, None));
            assert(rest.push(m).drop_last() =~= rest);
        } else {
            assert(pending_for(c.drop_last(), to) + last.1 =~= pending_for(c.drop_last(), to)
                || last.0 == protocols::OWN_KEY);
        }
    }
}

/// All that is pending goes out with the next send, in the order in which it was queued, and
/// nothing else does.
pub proof fn lemma_next_send_ships_pending(l: Ledger, ratio: Binary64, site: Site, to: usize)
    requires
        to != protocols::OWN_KEY,
    ensures
        shipped(outgoing(l, ratio, site), to) == pending_for(l.pending, to),
{
    lemma_outgoing_shipped(l, ratio, site, to);
}

proof fn lemma_outgoing_shipped(l: Ledger, ratio: Binary64, site: Site, to: usize)
    ensures
        shipped(outgoing(l, ratio, site), to) == if to == protocols::OWN_KEY {
            Seq::<Element>::empty()
        } else {
            pending_for(l.pending, to)
        },
{
    let first = if l.sketched {
        Seq::empty()
    } else {
        sketches(ratio, site)
    };
    lemma_no_elements_shipped(first, to);
    lemma_deliveries_shipped(l.pending, to);
    lemma_shipped_both(first, protocols::deliveries(l.pending), to);
    assert(Seq::<Element>::empty() + shipped(protocols::deliveries(l.pending), to)
        =~= shipped(protocols::deliveries(l.pending), to));
}

proof fn lemma_pending_for(c: Carry, to: usize)
    requires
        protocols::keys_distinct(c),
    ensures
        !protocols::has_key(c, to) ==> pending_for(c, to) == Seq::<Element>::empty(),
        forall|i: int| 0 <= i < c.len() && (#[trigger] c[i]).0 == to ==> pending_for(c, to) == c[i].1,
    decreases c.len(),
{
    if c.len() > 0 {
        let rest = c.drop_last();
        assert forall|i: int, j: int| 0 <= i < j < rest.len() implies (#[trigger] rest[i]).0 != (
        #[trigger] rest[j]).0 by {
            assert(rest[i] == c[i] && rest[j] == c[j]);
        }
        lemma_pending_for(rest, to);
        if protocols::has_key(rest, to) {
            let i = choose|i: int| 0 <= i < rest.len() && (#[trigger] rest[i]).0 == to;
            assert(c[i].0 == to);
            assert(c[c.len() - 1].0 != to);
        }
        if c.last().0 == to {
            assert(c[c.len() - 1].0 == to);
            assert(pending_for(c, to) =~= c.last().1);
        }
        assert forall|i: int| 0 <= i < c.len() && (#[trigger] c[i]).0 == to implies pending_for(
            c,
            to,
        ) == c[i].1 by {
            if i < rest.len() {
                assert(rest[i].0 == to);
            }
        }
    }
}

/// The digests that went out to each node.
pub open spec fn went(sent: Seq<(usize, Packet)>) -> Log {
    Map::new(
        |to: usize| true,
        |to: usize| Set::new(|d: u64| has_digest(shipped(sent, to), d)),
    )
}

/// Some element of the list has the digest.
pub open spec fn has_digest(els: Seq<Element>, d: u64) -> bool {
    exists|i: int| 0 <= i < els.len() && (#[trigger] els[i]).digest == d
}

/// No two elements of the list share a digest.
pub open spec fn digests_differ(els: Seq<Element>) -> bool {
    forall|i: int, j: int|
        0 <= i < j < els.len() ==> (#[trigger] els[i]).digest != (#[trigger] els[j]).digest
}

proof fn lemma_run_once(ratio: Binary64, phases: Seq<Phase>)
    ensures
        ({
            let (l, sent) = run(ratio, phases);
            &&& pending_once(went(sent), l)
            &&& log_kept(went(sent), l.log)
            &&& forall|to: usize| digests_differ(#[trigger] shipped(sent, to))
        }),
    decreases phases.len(),
{
    let (l, sent) = run(ratio, phases);
    if phases.len() == 0 {
        assert forall|to: usize| #[trigger] committed(went(sent), to).subset_of(
            committed(l.log, to),
        ) by {
            assert(shipped(sent, to).len() == 0);
        }
        assert forall|to: usize| digests_differ(#[trigger] shipped(sent, to)) by {
            assert(shipped(sent, to).len() == 0);
        }
    } else {
        let rest = phases.drop_last();
        lemma_run_once(ratio, rest);
        let (m, before) = run(ratio, rest);
        match phases.last() {
            Phase::Receive(site, inbox) => {
                lemma_settled_once(went(before), m, site, inbox);
            },
            Phase::Send(site) => {
                assert forall|to: usize| #[trigger] committed(went(sent), to).subset_of(
                    committed(l.log, to),
                ) by {
                    assert(digests_differ(shipped(before, to)));
                    lemma_sent_to(m, ratio, site, before, to);
                }
                assert forall|to: usize| digests_differ(#[trigger] shipped(sent, to)) by {
                    assert(digests_differ(shipped(before, to)));
                    lemma_sent_to(m, ratio, site, before, to);
                }
            },
        }
    }
}

proof fn lemma_sent_to(
    m: Ledger,
    ratio: Binary64,
    site: Site,
    before: Seq<(usize, Packet)>,
    to: usize,
)
    requires
        pending_once(went(before), m),
        log_kept(went(before), m.log),
        digests_differ(shipped(before, to)),
    ensures
        committed(went(before + outgoing(m, ratio, site)), to).subset_of(committed(m.log, to)),
        digests_differ(shipped(before + outgoing(m, ratio, site), to)),
{
    let out = outgoing(m, ratio, site);
    let sent = before + out;
    lemma_shipped_both(before, out, to);
    lemma_outgoing_shipped(m, ratio, site, to);
    lemma_pending_for(m.pending, to);
    let (had, more) = (shipped(before, to), shipped(out, to));
    let all = had + more;
    assert(shipped(sent, to) == all);
    assert(committed(went(before), to).subset_of(committed(m.log, to)));
    assert forall|j: int| 0 <= j < had.len() implies committed(went(before), to).contains(
        (#[trigger] had[j]).digest,
    ) by {
        assert(has_digest(had, had[j].digest));
    }
    if more.len() > 0 {
        let i = choose|i: int| 0 <= i < m.pending.len() && (#[trigger] m.pending[i]).0 == to;
        assert(more == m.pending[i].1);
        assert(newly_committed(
            m.pending[i].1,
            committed(went(before), to),
            committed(m.log, to),
        ));
    }
    assert forall|d: u64| committed(went(sent), to).contains(d) implies committed(
        m.log,
        to,
    ).contains(d) by {
        let x = choose|x: int| 0 <= x < all.len() && (#[trigger] all[x]).digest == d;
        if x < had.len() {
            assert(had[x].digest == d);
        } else {
            assert(more[x - had.len()].digest == d);
        }
    }
    assert forall|x: int, y: int| 0 <= x < y < all.len() implies (#[trigger] all[x]).digest != (
    #[trigger] all[y]).digest by {
        if y < had.len() {
            assert(had[x].digest != had[y].digest);
        } else if x < had.len() {
            assert(committed(went(before), to).contains(had[x].digest));
            assert(!committed(went(before), to).contains(more[y - had.len()].digest));
        } else {
            assert(more[x - had.len()].digest != more[y - had.len()].digest);
        }
    }
}

/// Over a whole run, in whatever order a replica sends and receives, it never sends the same
/// digest to a neighbour twice; and what still waits is none of what went out.
pub proof fn lemma_run_sends_once(ratio: Binary64, phases: Seq<Phase>, to: usize)
    ensures
        digests_differ(shipped(run(ratio, phases).1, to)),
        forall|d: u64| #[trigger]
            awaits(run(ratio, phases).0.pending, to, d) ==> !has_digest(
                shipped(run(ratio, phases).1, to),
                d,
            ),
{
    lemma_run_once(ratio, phases);
    let (l, sent) = run(ratio, phases);
    assert(digests_differ(shipped(sent, to)));
    assert forall|d: u64| #[trigger] awaits(l.pending, to, d) implies !has_digest(
        shipped(sent, to),
        d,
    ) by {
        let (i, j) = choose|i: int, j: int|
            0 <= i < l.pending.len() && 0 <= j < l.pending[i].1.len() && l.pending[i].0 == to
                && #[trigger] l.pending[i].1[j].digest == d;
        assert(newly_committed(
            l.pending[i].1,
            committed(went(sent), to),
            committed(l.log, to),
        ));
        assert(!committed(went(sent), to).contains(l.pending[i].1[j].digest));
    }
}

proof fn lemma_deliveries_full(c: Carry)
    ensures
        ({
            let messages = protocols::deliveries(c);
            forall|x: int|
                0 <= x < messages.len() ==> full((#[trigger] messages[x]).1)
        }),
    decreases c.len(),
{
    if c.len() > 0 {
        lemma_deliveries_full(c.drop_last());
        let (rest, messages) = (protocols::deliveries(c.drop_last()), protocols::deliveries(c));
        assert forall|x: int| 0 <= x < messages.len() implies full((#[trigger] messages[x]).1) by {
            if x < rest.len() {
                assert(messages[x] == rest[x]);
            }
        }
    }
}

/// A delivery of something, without a marker.
pub open spec fn full(p: Packet) -> bool {
    match p {
        Packet::Elements(els, marker) => els.len() > 0 && marker is None,
        _ => false,
    }
}

/// Over a whole run a replica sends nothing but sketches and deliveries of something.
pub proof fn lemma_run_sends_no_empty_delivery(ratio: Binary64, phases: Seq<Phase>)
    ensures
        ({
            let sent = run(ratio, phases).1;
            forall|x: int|
                0 <= x < sent.len() ==> full((#[trigger] sent[x]).1)
                    || sent[x].1 is RatelessBloomRiblt
        }),
    decreases phases.len(),
{
    if phases.len() > 0 {
        lemma_run_sends_no_empty_delivery(ratio, phases.drop_last());
        let (l, before) = run(ratio, phases.drop_last());
        let sent = run(ratio, phases).1;
        if let Phase::Send(site) = phases.last() {
            let out = outgoing(l, ratio, site);
            let rest = protocols::deliveries(l.pending);
            lemma_deliveries_full(l.pending);
            assert forall|x: int| 0 <= x < sent.len() implies full((#[trigger] sent[x]).1)
                || sent[x].1 is RatelessBloomRiblt by {
                if x < before.len() {
                    assert(sent[x] == before[x]);
                } else {
                    let first = out.len() - rest.len();
                    if x - before.len() >= first {
                        assert(sent[x] == rest[x - before.len() - first]);
                    } else {
                        assert(sent[x] == sketches(ratio, site)[x - before.len()]);
                    }
                }
            }
        }
    }
}

proof fn lemma_filtered(
    s: Seq<(usize, Packet)>,
    keep: spec_fn((usize, Packet)) -> bool,
    all: bool,
)
    requires
        forall|i: int| 0 <= i < s.len() ==> keep(#[trigger] s[i]) == all,
    ensures
        s.filter(keep) == if all {
            s
        } else {
            Seq::empty()
        },
    decreases s.len(),
{
    reveal(Seq::filter);
    if s.len() > 0 {
        let rest = s.drop_last();
        assert forall|i: int| 0 <= i < rest.len() implies keep(#[trigger] rest[i]) == all by {
            assert(rest[i] == s[i]);
        }
        lemma_filtered(rest, keep, all);
        assert(keep(s[s.len() - 1]) == all);
        assert(rest.push(s.last()) =~= s);
    } else {
        assert(s.filter(keep) =~= Seq::empty());
        assert(s =~= Seq::empty());
    }
}

proof fn lemma_first_sketches(ratio: Binary64, phases: Seq<Phase>, last: Phase)
    ensures
        first_sketches(ratio, phases.push(last)) == if has_sent(phases) {
            first_sketches(ratio, phases)
        } else {
            match last {
                Phase::Send(site) => sketches(ratio, site),
                Phase::Receive(_, _) => Seq::empty(),
            }
        },
        !has_sent(phases) ==> first_sketches(ratio, phases) == Seq::<(usize, Packet)>::empty(),
    decreases phases.len(),
{
    let all = phases.push(last);
    if phases.len() == 0 {
        assert(all.drop_first() =~= Seq::empty());
        assert(first_sketches(ratio, all.drop_first()) == Seq::<(usize, Packet)>::empty());
    } else {
        let rest = phases.drop_first();
        assert(all.drop_first() =~= rest.push(last));
        assert(all[0] == phases[0]);
        lemma_first_sketches(ratio, rest, last);
        if phases[0] is Receive {
            if has_sent(phases) {
                let i = choose|i: int| 0 <= i < phases.len() && (#[trigger] phases[i]) is Send;
                assert(rest[i - 1] is Send);
            }
            if has_sent(rest) {
                let i = choose|i: int| 0 <= i < rest.len() && (#[trigger] rest[i]) is Send;
                assert(phases[i + 1] is Send);
            }
        }
    }
}

/// Over a whole run a replica sketches once: the first time that it sends it ships one sketch
/// to each neighbour, and never again.
pub proof fn lemma_run_sketches_once(ratio: Binary64, phases: Seq<Phase>)
    ensures
        sketches_among(run(ratio, phases).1) == first_sketches(ratio, phases),
        run(ratio, phases).0.sketched == has_sent(phases),
    decreases phases.len(),
{
    let keep = |m: (usize, Packet)| m.1 is RatelessBloomRiblt;
    if phases.len() == 0 {
        lemma_filtered(Seq::empty(), keep, true);
        assert(sketches_among(run(ratio, phases).1) =~= first_sketches(ratio, phases));
    } else {
        let rest = phases.drop_last();
        assert(rest.push(phases.last()) =~= phases);
        lemma_run_sketches_once(ratio, rest);
        lemma_first_sketches(ratio, rest, phases.last());
        let (l, before) = run(ratio, rest);
        if has_sent(rest) {
            let i = choose|i: int| 0 <= i < rest.len() && (#[trigger] rest[i]) is Send;
            assert(phases[i] is Send);
        }
        match phases.last() {
            Phase::Send(site) => {
                assert(phases[phases.len() - 1] is Send);
                let first = if l.sketched {
                    Seq::empty()
                } else {
                    sketches(ratio, site)
                };
                let more = protocols::deliveries(l.pending);
                lemma_deliveries_full(l.pending);
                lemma_filtered(more, keep, false);
                lemma_filtered(first, keep, true);
                Seq::filter_distributes_over_add(first, more, keep);
                Seq::filter_distributes_over_add(before, first + more, keep);
                assert(first + Seq::<(usize, Packet)>::empty() =~= first);
                assert(before.filter(keep) == first_sketches(ratio, rest));
                assert(sketches_among(run(ratio, phases).1) =~= first_sketches(ratio, rest)
                    + first);
                assert(sketches_among(run(ratio, phases).1) =~= first_sketches(ratio, phases));
            },
            Phase::Receive(site, inbox) => {
                lemma_settled_sketched(l, site, inbox);
                if has_sent(phases) {
                    let i = choose|i: int| 0 <= i < phases.len() && (#[trigger] phases[i]) is Send;
                    assert(rest[i] is Send);
                }
            },
        }
    }
}

proof fn lemma_settled_sketched(l: Ledger, site: Site, inbox: Seq<(usize, Packet)>)
    ensures
        settled(l, site, inbox).1.sketched == l.sketched,
{
    let (set, new) = taken_all(site.set, inbox, inbox.len());
    lemma_decoded_sketched(l, set, inbox, inbox.len());
    lemma_spread_all_sketched(decoded(l, set, inbox, inbox.len()).0, new, site.neighbors());
}

proof fn lemma_decoded_sketched(
    l: Ledger,
    set: Set<Element>,
    inbox: Seq<(usize, Packet)>,
    n: nat,
)
    ensures
        decoded(l, set, inbox, n).0.sketched == l.sketched,
    decreases n,
{
    if n > 0 {
        lemma_decoded_sketched(l, set, inbox, (n - 1) as nat);
    }
}

proof fn lemma_spread_sketched(l: Ledger, e: Element, from: usize, neighbors: Seq<usize>)
    ensures
        l.spread(e, from, neighbors).sketched == l.sketched,
    decreases neighbors.len(),
{
    if neighbors.len() > 0 {
        lemma_spread_sketched(l, e, from, neighbors.drop_last());
    }
}

proof fn lemma_spread_all_sketched(
    l: Ledger,
    new: Seq<(Element, usize)>,
    neighbors: Seq<usize>,
)
    ensures
        l.spread_all(new, neighbors).sketched == l.sketched,
    decreases new.len(),
{
    if new.len() > 0 {
        lemma_spread_all_sketched(l, new.drop_last(), neighbors);
        lemma_spread_sketched(
            l.spread_all(new.drop_last(), neighbors),
            new.last().0,
            new.last().1,
            neighbors,
        );
    }
}

/// One of the elements has the digest.
pub open spec fn holds(els: Seq<Element>, d: u64) -> bool {
    exists|i: int| 0 <= i < els.len() && (#[trigger] els[i]).digest == d
}

/// Between two ledgers nothing was struck off or given up: a digest that was committed stays
/// so, one that was pending stays so, and one that was newly committed is pending.
pub open spec fn owed(before: Ledger, now: Ledger, to: usize, d: u64) -> bool {
    &&& committed(before.log, to).contains(d) ==> committed(now.log, to).contains(d)
    &&& awaits(before.pending, to, d) ==> awaits(now.pending, to, d)
    &&& committed(now.log, to).contains(d) && !committed(before.log, to).contains(d) ==> awaits(
        now.pending,
        to,
        d,
    )
}

proof fn lemma_awaits_joined(c: Carry, key: usize, els: Seq<Element>, to: usize, d: u64)
    ensures
        awaits(c, to, d) ==> awaits(protocols::joined(c, key, els), to, d),
        to == key && holds(els, d) ==> awaits(protocols::joined(c, key, els), to, d),
{
    let j = protocols::joined(c, key, els);
    if awaits(c, to, d) {
        let (x, y) = choose|x: int, y: int|
            0 <= x < c.len() && 0 <= y < c[x].1.len() && c[x].0 == to
                && #[trigger] c[x].1[y].digest == d;
        assert(j[x].0 == to);
        assert(j[x].1[y] == c[x].1[y]);
        assert(j[x].1[y].digest == d);
    }
    if to == key && holds(els, d) {
        let y = choose|y: int| 0 <= y < els.len() && (#[trigger] els[y]).digest == d;
        if protocols::has_key(c, key) {
            let x = choose|x: int| 0 <= x < c.len() && (#[trigger] c[x]).0 == key;
            assert(j[x].1[c[x].1.len() + y] == els[y]);
            assert(j[x].1[c[x].1.len() + y].digest == d);
        } else {
            assert(j[c.len() as int].1[y].digest == d);
        }
    }
}

proof fn lemma_forwarded_owed(l: Ledger, key: usize, e: Element, to: usize, d: u64)
    ensures
        owed(l, l.forwarded(key, e), to, d),
        committed(l.forwarded(key, e).log, to).contains(d) <==> committed(l.log, to).contains(d)
            || (to == key && d == e.digest),
{
    lemma_awaits_joined(l.pending, key, seq![e], to, d);
    assert(seq![e][0].digest == e.digest);
}

proof fn lemma_spread_owed(
    l: Ledger,
    e: Element,
    from: usize,
    neighbors: Seq<usize>,
    to: usize,
    d: u64,
)
    ensures
        owed(l, l.spread(e, from, neighbors), to, d),
        committed(l.spread(e, from, neighbors).log, to).contains(d) <==> committed(
            l.log,
            to,
        ).contains(d) || (d == e.digest && to != from && neighbors.contains(to)),
    decreases neighbors.len(),
{
    if neighbors.len() > 0 {
        let rest = neighbors.drop_last();
        lemma_spread_owed(l, e, from, rest, to, d);
        lemma_forwarded_owed(l.spread(e, from, rest), neighbors.last(), e, to, d);
        if rest.contains(to) {
            let i = choose|i: int| 0 <= i < rest.len() && rest[i] == to;
            assert(neighbors[i] == to);
        }
        if neighbors.contains(to) && neighbors.last() != to {
            let i = choose|i: int| 0 <= i < neighbors.len() && neighbors[i] == to;
            assert(rest[i] == to);
        }
        if neighbors.last() == to {
            assert(neighbors[neighbors.len() - 1] == to);
        }
    }
}

/// One of the new elements has the digest and did not come from the node.
spec fn brings(new: Seq<(Element, usize)>, to: usize, d: u64) -> bool {
    exists|i: int| 0 <= i < new.len() && (#[trigger] new[i]).0.digest == d && new[i].1 != to
}

proof fn lemma_spread_all_owed(
    l: Ledger,
    new: Seq<(Element, usize)>,
    neighbors: Seq<usize>,
    to: usize,
    d: u64,
)
    ensures
        owed(l, l.spread_all(new, neighbors), to, d),
        committed(l.spread_all(new, neighbors).log, to).contains(d) <==> committed(
            l.log,
            to,
        ).contains(d) || (neighbors.contains(to) && brings(new, to, d)),
    decreases new.len(),
{
    if new.len() > 0 {
        let rest = new.drop_last();
        lemma_spread_all_owed(l, rest, neighbors, to, d);
        lemma_spread_owed(
            l.spread_all(rest, neighbors),
            new.last().0,
            new.last().1,
            neighbors,
            to,
            d,
        );
        if brings(rest, to, d) {
            let i = choose|i: int|
                0 <= i < rest.len() && (#[trigger] rest[i]).0.digest == d && rest[i].1 != to;
            assert(new[i] == rest[i]);
            assert(new[i].0.digest == d);
        }
        if brings(new, to, d) {
            let i = choose|i: int|
                0 <= i < new.len() && (#[trigger] new[i]).0.digest == d && new[i].1 != to;
            if i < rest.len() {
                assert(rest[i] == new[i]);
                assert(rest[i].0.digest == d);
            }
        }
        if new.last().0.digest == d && new.last().1 != to {
            assert(new[new.len() - 1].0.digest == d);
        }
    }
}

proof fn lemma_uncommitted_owed(
    log: Log,
    key: usize,
    elements: Seq<Element>,
    digests: Seq<u64>,
    to: usize,
    d: u64,
)
    ensures
        ({
            let (out, now) = uncommitted(log, key, elements, digests);
            &&& committed(now, to).contains(d) <==> committed(log, to).contains(d) || (to == key
                && digests.contains(d) && holds(elements, d))
            &&& committed(now, key).contains(d) && !committed(log, key).contains(d) ==> holds(
                out,
                d,
            )
        }),
    decreases elements.len(),
{
    if elements.len() > 0 {
        let rest = elements.drop_last();
        lemma_uncommitted_owed(log, key, rest, digests, to, d);
        lemma_uncommitted_owed(log, key, rest, digests, key, d);
        let (before, mid) = uncommitted(log, key, rest, digests);
        let (out, now) = uncommitted(log, key, elements, digests);
        let e = elements.last();
        if holds(rest, d) {
            let i = choose|i: int| 0 <= i < rest.len() && (#[trigger] rest[i]).digest == d;
            assert(elements[i].digest == d);
        }
        if holds(elements, d) && e.digest != d {
            let i = choose|i: int| 0 <= i < elements.len() && (#[trigger] elements[i]).digest == d;
            assert(rest[i].digest == d);
        }
        if e.digest == d {
            assert(elements[elements.len() - 1].digest == d);
        }
        if holds(before, d) {
            let i = choose|i: int| 0 <= i < before.len() && (#[trigger] before[i]).digest == d;
            assert(out[i].digest == d);
        }
        if digests.contains(e.digest) && !committed(mid, key).contains(e.digest) {
            assert(out[before.len() as int] == e);
            assert(e.digest == d ==> holds(out, d));
        }
    } else {
        assert(!holds(elements, d));
    }
}

/// A message is a sketch of the node, and tells the holder of a set that the node lacks a
/// digest which the set has.
pub open spec fn asks_for(set: Set<Element>, m: (usize, Packet), to: usize, d: u64) -> bool {
    &&& m.0 == to
    &&& m.1 is RatelessBloomRiblt
    &&& holds(replica::listing(set), d)
    &&& ({
        let (grown, (common, missing)) = hybrid_rbf_riblt::sifted(
            m.1->RatelessBloomRiblt_slices,
            replica::digests_of(set),
        );
        (missing + bf_iblt::exposed(m.1->RatelessBloomRiblt_riblt, common)).contains(d)
    })
}

/// A sketch of a known set asks for exactly the digests that it lacks.
pub proof fn lemma_asks_for(
    set: Set<Element>,
    other: Set<Element>,
    bits: nat,
    to: usize,
    d: u64,
)
    ensures
        asks_for(
            set,
            (
                to,
                Packet::RatelessBloomRiblt {
                    slices: Slices::start(replica::digests_of(other), bits),
                    riblt: Coded::of(replica::digests_of(other)),
                },
            ),
            to,
            d,
        ) <==> replica::digests_of(set).contains(d) && !replica::digests_of(other).contains(d),
{
    let (l, ours) = (replica::listing(set), replica::digests_of(set));
    assert(holds(l, d) <==> ours.contains(d)) by {
        if holds(l, d) {
            let i = choose|i: int| 0 <= i < l.len() && (#[trigger] l[i]).digest == d;
            assert(ours[i] == d);
        }
        if ours.contains(d) {
            let i = choose|i: int| 0 <= i < ours.len() && ours[i] == d;
            assert(l[i].digest == d);
        }
    }
    if ours.contains(d) {
        hybrid_rbf_riblt::lemma_told_apart(ours, replica::digests_of(other), bits, d);
    }
}

/// One of the first `n` messages is a sketch of the node that asks for a digest.
pub open spec fn asked(
    set: Set<Element>,
    inbox: Seq<(usize, Packet)>,
    n: nat,
    to: usize,
    d: u64,
) -> bool {
    exists|k: int| 0 <= k < n && asks_for(set, #[trigger] inbox[k], to, d)
}

proof fn lemma_decoded_owed(
    l: Ledger,
    set: Set<Element>,
    inbox: Seq<(usize, Packet)>,
    n: nat,
    to: usize,
    d: u64,
)
    requires
        n <= inbox.len(),
    ensures
        owed(l, decoded(l, set, inbox, n).0, to, d),
        committed(decoded(l, set, inbox, n).0.log, to).contains(d) <==> committed(
            l.log,
            to,
        ).contains(d) || asked(set, inbox, n, to, d),
    decreases n,
{
    if n > 0 {
        lemma_decoded_owed(l, set, inbox, (n - 1) as nat, to, d);
        let (mid, left) = decoded(l, set, inbox, (n - 1) as nat);
        let now = decoded(l, set, inbox, n).0;
        let m = inbox[n - 1];
        let from = m.0;
        if asked(set, inbox, (n - 1) as nat, to, d) {
            let k = choose|k: int| 0 <= k < n - 1 && asks_for(set, #[trigger] inbox[k], to, d);
            assert(asks_for(set, inbox[k], to, d));
        }
        if asked(set, inbox, n, to, d) && !asks_for(set, m, to, d) {
            let k = choose|k: int| 0 <= k < n && asks_for(set, #[trigger] inbox[k], to, d);
            assert(k < n - 1);
            assert(asked(set, inbox, (n - 1) as nat, to, d));
        }
        match m.1 {
            Packet::RatelessBloomRiblt { slices, riblt } => {
                let (grown, (common, missing)) = hybrid_rbf_riblt::sifted(
                    slices,
                    replica::digests_of(set),
                );
                let digests = missing + bf_iblt::exposed(riblt, common);
                let (out, log) = uncommitted(mid.log, from, replica::listing(set), digests);
                lemma_uncommitted_owed(mid.log, from, replica::listing(set), digests, to, d);
                lemma_uncommitted_owed(mid.log, from, replica::listing(set), digests, from, d);
                lemma_awaits_joined(mid.pending, from, out, to, d);
                assert(holds(out, d) ==> out.len() > 0);
                assert(committed(now.log, to).contains(d) <==> committed(mid.log, to).contains(d)
                    || asks_for(set, m, to, d));
            },
            _ => {
                assert(now == mid);
            },
        }
    }
}

/// The element is in a message from the node, was not in the set, and is in no message before.
pub open spec fn came_first(
    set: Set<Element>,
    inbox: Seq<(usize, Packet)>,
    n: nat,
    e: Element,
    from: usize,
) -> bool {
    !set.contains(e) && exists|k: int|
        0 <= k < n && (#[trigger] inbox[k]).0 == from && carries(inbox[k].1, e) && !carried_before(
            inbox,
            k,
            e,
        )
}

/// The message is one of elements and has the element.
pub open spec fn carries(p: Packet, e: Element) -> bool {
    p is Elements && p->Elements_0.contains(e)
}

/// One of the first `n` messages has the element.
pub open spec fn carried_before(inbox: Seq<(usize, Packet)>, n: int, e: Element) -> bool {
    exists|k: int| 0 <= k < n && carries((#[trigger] inbox[k]).1, e)
}

proof fn lemma_taken(
    set: Set<Element>,
    new: Seq<(Element, usize)>,
    els: Seq<Element>,
    from: usize,
    e: Element,
    f: usize,
)
    ensures
        ({
            let (s, n) = taken(set, new, els, from);
            &&& s.contains(e) <==> set.contains(e) || els.contains(e)
            &&& n.contains((e, f)) <==> new.contains((e, f)) || (f == from && els.contains(e)
                && !set.contains(e))
        }),
    decreases els.len(),
{
    if els.len() > 0 {
        let rest = els.drop_last();
        lemma_taken(set, new, rest, from, e, f);
        let (s, n) = taken(set, new, rest, from);
        let last = els.last();
        lemma_pushed(n, (last, from), (e, f));
        lemma_pushed(rest, last, e);
        assert(rest.push(last) =~= els);
    }
}

proof fn lemma_pushed<T>(s: Seq<T>, a: T, x: T)
    ensures
        s.push(a).contains(x) <==> s.contains(x) || x == a,
{
    if s.contains(x) {
        let i = choose|i: int| 0 <= i < s.len() && s[i] == x;
        assert(s.push(a)[i] == x);
    }
    if s.push(a).contains(x) && x != a {
        let i = choose|i: int| 0 <= i < s.push(a).len() && s.push(a)[i] == x;
        assert(s[i] == x);
    }
    assert(s.push(a)[s.len() as int] == a);
}

proof fn lemma_taken_all(
    set: Set<Element>,
    inbox: Seq<(usize, Packet)>,
    n: nat,
    e: Element,
    f: usize,
)
    requires
        n <= inbox.len(),
    ensures
        ({
            let (s, new) = taken_all(set, inbox, n);
            &&& s.contains(e) <==> set.contains(e) || carried_before(inbox, n as int, e)
            &&& new.contains((e, f)) <==> came_first(set, inbox, n, e, f)
        }),
    decreases n,
{
    if n > 0 {
        let m = (n - 1) as nat;
        lemma_taken_all(set, inbox, m, e, f);
        let (s, new) = taken_all(set, inbox, m);
        let last = inbox[m as int];
        if carried_before(inbox, m as int, e) {
            let k = choose|k: int| 0 <= k < m && carries((#[trigger] inbox[k]).1, e);
            assert(carries(inbox[k].1, e));
        }
        if carried_before(inbox, n as int, e) && !carries(last.1, e) {
            let k = choose|k: int| 0 <= k < n && carries((#[trigger] inbox[k]).1, e);
            assert(k < m);
            assert(carried_before(inbox, m as int, e));
        }
        if came_first(set, inbox, m, e, f) {
            let k = choose|k: int|
                0 <= k < m && (#[trigger] inbox[k]).0 == f && carries(inbox[k].1, e)
                    && !carried_before(inbox, k, e);
            assert(inbox[k].0 == f);
            assert(came_first(set, inbox, n, e, f));
        }
        if came_first(set, inbox, n, e, f) {
            let k = choose|k: int|
                0 <= k < n && (#[trigger] inbox[k]).0 == f && carries(inbox[k].1, e)
                    && !carried_before(inbox, k, e);
            if k < m {
                assert(inbox[k].0 == f);
                assert(came_first(set, inbox, m, e, f));
            } else {
                assert(carries(last.1, e) && last.0 == f && !carried_before(inbox, m as int, e));
            }
        }
        if !set.contains(e) && last.0 == f && carries(last.1, e) && !carried_before(
            inbox,
            m as int,
            e,
        ) {
            assert(inbox[m as int].0 == f);
            assert(came_first(set, inbox, n, e, f));
        }
        match last.1 {
            Packet::Elements(els, _) => {
                lemma_taken(s, new, els, last.0, e, f);
            },
            _ => {},
        }
    } else {
        assert(!carried_before(inbox, 0, e));
        assert(!came_first(set, inbox, 0, e, f));
    }
}

/// An element with the digest is new, and the message that brought it did not come from the
/// node.
pub open spec fn is_news(set: Set<Element>, inbox: Seq<(usize, Packet)>, to: usize, d: u64) -> bool {
    exists|e: Element, from: usize| #[trigger]
        came_first(set, inbox, inbox.len(), e, from) && e.digest == d && from != to
}

/// A replica owes its neighbours all that they may lack, and nothing else. A digest becomes
/// committed to a neighbour exactly where a sketch of the neighbour asks for it, or where an
/// element that has it is new and did not come from the neighbour; what becomes committed
/// becomes pending, and what was pending remains so.
pub proof fn lemma_owed_exactly(
    l: Ledger,
    site: Site,
    inbox: Seq<(usize, Packet)>,
    to: usize,
    d: u64,
)
    ensures
        ({
            let (set, now, left) = settled(l, site, inbox);
            &&& owed(l, now, to, d)
            &&& committed(now.log, to).contains(d) <==> committed(l.log, to).contains(d) || asked(
                set,
                inbox,
                inbox.len(),
                to,
                d,
            ) || (site.neighbors().contains(to) && is_news(site.set, inbox, to, d))
        }),
{
    let (set, new) = taken_all(site.set, inbox, inbox.len());
    let mid = decoded(l, set, inbox, inbox.len()).0;
    lemma_decoded_owed(l, set, inbox, inbox.len(), to, d);
    lemma_spread_all_owed(mid, new, site.neighbors(), to, d);
    if brings(new, to, d) {
        let i = choose|i: int|
            0 <= i < new.len() && (#[trigger] new[i]).0.digest == d && new[i].1 != to;
        let (e, f) = new[i];
        assert(new.contains((e, f)));
        lemma_taken_all(site.set, inbox, inbox.len(), e, f);
        assert(came_first(site.set, inbox, inbox.len(), e, f));
    }
    if is_news(site.set, inbox, to, d) {
        let (e, f) = choose|e: Element, f: usize| #[trigger]
            came_first(site.set, inbox, inbox.len(), e, f) && e.digest == d && f != to;
        lemma_taken_all(site.set, inbox, inbox.len(), e, f);
        let i = choose|i: int| 0 <= i < new.len() && new[i] == (e, f);
        assert(new[i].0.digest == d);
    }
}

proof fn lemma_left_alike(
    l: Ledger,
    site: Site,
    inbox: Seq<(usize, Packet)>,
    n: nat,
)
    requires
        n <= inbox.len(),
    ensures
        decoded(l, site.set, inbox, n).1
            == hybrid_rbf_riblt::HybridRbfRibltProtocol::gathered(site, inbox, n).inbox,
    decreases n,
{
    if n > 0 {
        lemma_left_alike(l, site, inbox, (n - 1) as nat);
    }
}

/// A replica leaves its messages as one does that has taken in their elements first and then
/// reconciles pairwise: the filters grown and the codes decoded in the same way.
pub proof fn lemma_leaves(
    l: Ledger,
    site: Site,
    inbox: Seq<(usize, Packet)>,
    p: hybrid_rbf_riblt::HybridRbfRibltProtocol,
)
    ensures
        settled(l, site, inbox).2 == protocols::Protocol::receives(
            &p,
            Site { set: settled(l, site, inbox).0, ..site },
            inbox,
        ).inbox,
{
    let set = settled(l, site, inbox).0;
    lemma_left_alike(l, Site { set, ..site }, inbox, inbox.len());
}

/// The sketch that goes to each neighbour is of all digests of the replica: a filter without a
/// slice yet, of the size that the ratio asks for, and a fresh code.
pub proof fn lemma_sketches(ratio: Binary64, site: Site)
    ensures
        sketches(ratio, site).len() == site.neighbors().len(),
        forall|i: int|
            0 <= i < site.neighbors().len() ==> {
                let m = #[trigger] sketches(ratio, site)[i];
                let ours = replica::digests_of(site.set);
                let bits = hybrid_rbf_riblt::slice_bits(ratio, ours.len());
                &&& m.0 == site.neighbors()[i]
                &&& m.1 is RatelessBloomRiblt
                &&& m.1->RatelessBloomRiblt_riblt.symbols == ours
                &&& m.1->RatelessBloomRiblt_riblt.consumed == 0
                &&& m.1->RatelessBloomRiblt_slices.data == ours
                &&& m.1->RatelessBloomRiblt_slices.filters.len() == 0
                &&& bits <= MAX_BITS ==> m.1->RatelessBloomRiblt_slices.bits == bits
            },
{
}

} // verus!
