//! Two-round reconciliation by rateless coding.
//!
//! In the first round every replica ships a coded list of its digests to its neighbours.
//! Receivers decode it and queue the elements that the sender lacks. In the second round the
//! queued elements are delivered.

use crate::simulator::algorithms::riblt::{Coded, RatelessIBLT};
use crate::simulator::counter;
use crate::simulator::counter::add_u128;
use crate::simulator::network;
use crate::simulator::network::{Outbox, Packet, ProtocolMsg};
use crate::simulator::protocols;
use crate::simulator::protocols::full_state_transfer;
use crate::simulator::protocols::{
    deliver_pending, queue, select_by_digest, Carry, Gathered, LocalMetrics, PendingElements,
    Protocol, ProtocolKind, ProtocolStepResult, Received, Site,
};
use crate::simulator::replica;
use crate::simulator::replica::{Element, ElementSet, ReplicaView};
use crate::simulator::topology;
use crate::simulator::topology::Topology;
use vstd::prelude::*;

verus! {

#[derive(Clone, Copy, Debug, PartialEq, Eq, Structural)]
pub struct RibltProtocol;

impl RibltProtocol {
    pub fn new() -> (p: Self)
        ensures
            p.is_kind() == ProtocolKind::Riblt,
    {
        RibltProtocol
    }

    /// What one message adds.
    pub open spec fn absorbed(site: Site, acc: Gathered, from: usize, p: Packet) -> Gathered {
        match p {
            Packet::Elements(els, marker) => acc.with(
                from,
                els.to_set(),
                Seq::empty(),
                Packet::Elements(Seq::empty(), marker),
                0,
            ),
            Packet::Riblt(coded) => {
                let decoded = coded.against(replica::digests_of(site.set));
                acc.with(
                    from,
                    Set::empty(),
                    protocols::with_digests(replica::listing(site.set), decoded.remote_only),
                    Packet::Riblt(decoded),
                    0,
                )
            },
            other => acc.with(from, Set::empty(), Seq::empty(), other, 0),
        }
    }

    /// What the first `n` messages add up to.
    pub open spec fn gathered(site: Site, inbox: Seq<(usize, Packet)>, n: nat) -> Gathered
        decreases n,
    {
        if n == 0 {
            Gathered::start(site.set)
        } else {
            let m = inbox[n - 1];
            Self::absorbed(site, Self::gathered(site, inbox, (n - 1) as nat), m.0, m.1)
        }
    }
}

impl Protocol for RibltProtocol {
    open spec fn is_kind(&self) -> ProtocolKind {
        ProtocolKind::Riblt
    }

    open spec fn sends(&self, site: Site, carry: Option<Carry>) -> Seq<(usize, Packet)> {
        let pending = protocols::contents(carry);
        if pending.len() == 0 {
            full_state_transfer::to_all(
                site.neighbors(),
                Packet::Riblt(Coded::of(replica::digests_of(site.set))),
            )
        } else {
            protocols::deliveries(pending)
        }
    }

    open spec fn receives(&self, site: Site, inbox: Seq<(usize, Packet)>) -> Received {
        Self::gathered(site, inbox, inbox.len()).received()
    }

    open spec fn uses(&self, site: Site, p: Packet) -> (bool, bool) {
        (false, p is Riblt)
    }

    fn kind(&self) -> ProtocolKind {
        ProtocolKind::Riblt
    }

    fn send_phase(
        &self,
        local: ReplicaView<'_>,
        topology: &Topology,
        outbox: &mut Outbox,
        carry: Option<PendingElements>,
    ) {
        let pending = PendingElements::of(carry);
        if !pending.is_empty() {
            deliver_pending(outbox, &pending);
            return;
        }
        let neighbors = topology.neighbors(local.id);
        let ghost start = network::flow(outbox.traffic());
        let ghost links = outbox.traffic().links;
        let ghost packet = Packet::Riblt(Coded::of(replica::digests_of(local.set@)));
        let ghost goal = full_state_transfer::to_all(neighbors@, packet);
        let mut i: usize = 0;
        assert(goal.take(0) =~= Seq::<(usize, Packet)>::empty());
        while i < neighbors.len()
            invariant
                i <= neighbors@.len(),
                outbox.wf(),
                outbox.sender() == local.id,
                outbox.traffic().links == links,
                links[local.id as int] == neighbors@,
                packet == Packet::Riblt(Coded::of(replica::digests_of(local.set@))),
                goal == full_state_transfer::to_all(neighbors@, packet),
                network::flow(outbox.traffic()) == protocols::delivered(
                    start,
                    local.id as int,
                    goal.take(i as int),
                ),
            decreases neighbors@.len() - i,
        {
            let to: usize = neighbors[i];
            assert(neighbors@.contains(to));
            outbox.send_riblt(to, RatelessIBLT::riblt_from(local.set.digest_list()));
            proof {
                assert(goal.take(i + 1).drop_last() =~= goal.take(i as int));
                assert(goal.take(i + 1).last() == (to, packet));
            }
            i = i + 1;
        }
        assert(goal.take(i as int) =~= goal);
    }

    fn recv_phase(
        &self,
        local: ReplicaView<'_>,
        topology: &Topology,
        inbox: &mut Vec<(usize, ProtocolMsg)>,
    ) -> (r: ProtocolStepResult) {
        let ghost before = inbox@;
        let ghost start = network::packets(inbox@);
        let ghost site = protocols::site_of(local, topology);
        let ghost links = topology.rows();
        let size: usize = topology.node_count();
        proof {
            topology::lemma_topology_is_graph(topology.shape(), topology.size());
        }
        let mut next_set: ElementSet = local.snapshot_set();
        let ghost uses = Seq::new(start.len(), |i: int| self.uses(site, start[i].1));
        let mut encode_time: u128 = 0;
        let mut decode_time: u128 = 0;
        let mut pending = PendingElements::new();
        let mut i: usize = 0;
        while i < inbox.len()
            invariant
                i <= inbox@.len(),
                inbox@.len() == before.len(),
                start == network::packets(before),
                site == protocols::site_of(local, topology),
                links == topology.rows(),
                topology::is_graph(links),
                links.len() == size,
                local.id < size,
                network::inbox_wf(links, local.id as int, before),
                protocols::keys_distinct(pending@),
                protocols::keys_reachable(pending@, links, local.id as int),
                ({
                    let g = Self::gathered(site, start, i as nat);
                    &&& g.next == next_set@
                    &&& g.pending == pending@
                    &&& g.inbox == network::packets(inbox@).take(i as int)
                    &&& g.false_matches == 0
                }),
                uses == Seq::new(start.len(), |i: int| self.uses(site, start[i].1)),
                encode_time == counter::clamp_u128(
                    protocols::encode_total(uses, network::stamps_of(inbox@), i as nat) as int,
                ),
                decode_time == counter::clamp_u128(
                    protocols::decode_total(uses, network::stamps_of(inbox@), i as nat) as int,
                ),
                forall|j: int| 0 <= j < inbox@.len() ==> (#[trigger] inbox@[j]).0 == before[j].0,
                forall|j: int| i <= j < inbox@.len() ==> (#[trigger] inbox@[j]) == before[j],
            decreases inbox@.len() - i,
        {
            let from: usize = inbox[i].0;
            assert(inbox@[i as int] == before[i as int]);
            assert(network::from_neighbor(links, local.id as int, before[i as int].0));
            let ghost step = inbox@;
            match inbox[i].1.take_elements() {
                Some(els) => {
                    next_set.insert_all(&els);
                },
                None => {
                    match inbox[i].1.as_riblt() {
                        Some(riblt_msg) => {
                            let mut local_riblt = RatelessIBLT::riblt_from(
                                local.set.digest_list(),
                            );
                            riblt_msg.decode_against(&mut local_riblt);
                            encode_time = add_u128(encode_time, riblt_msg.t_enc());
                            decode_time = add_u128(decode_time, riblt_msg.t_dec());
                            let local_only: Vec<u64> = riblt_msg.remote_only();
                            let to_send: Vec<Element> = select_by_digest(local.set, &local_only);
                            queue(
                                &mut pending,
                                from,
                                to_send,
                                Ghost(links),
                                Ghost(local.id as int),
                            );
                        },
                        None => {},
                    }
                },
            }
            i = i + 1;
            proof {
                let g = Self::gathered(site, start, (i - 1) as nat);
                let h = Self::gathered(site, start, i as nat);
                let now = network::packets(inbox@);
                assert(now.take(i as int) =~= g.inbox.push(now[i - 1]));
                assert(g.next.union(Set::empty()) =~= g.next);
                assert(h.next =~= next_set@);
                protocols::lemma_totals_same(
                    uses,
                    network::stamps_of(step),
                    network::stamps_of(inbox@),
                    (i - 1) as nat,
                );
            }
        }
        let r = ProtocolStepResult {
            next_set,
            metrics: LocalMetrics { encode_time, decode_time, false_matches: 0 },
            carry: pending.into_carry(),
        };
        assert(network::packets(inbox@).take(i as int) =~= network::packets(inbox@));
        assert(r.received(network::packets(inbox@)) =~= self.receives(site, start));
        r
    }
}

/// What is queued for a neighbour after its code came are the elements that it lacks: those
/// whose digests it did not code.
pub proof fn lemma_answer(site: Site, acc: Gathered, from: usize, other: Set<Element>)
    ensures
        RibltProtocol::absorbed(
            site,
            acc,
            from,
            Packet::Riblt(Coded::of(replica::digests_of(other))),
        ).pending == protocols::queued(
            acc.pending,
            from,
            protocols::lacking_elements(site.set, other),
        ),
{
    let (ours, theirs) = (replica::digests_of(site.set), replica::digests_of(other));
    let listed = Coded::of(theirs).against(ours).remote_only;
    crate::simulator::algorithms::riblt::lemma_reported_is_the_difference(theirs, ours);
    assert forall|d: u64| #[trigger] ours.contains(d) implies (listed.contains(d)
        <==> !theirs.contains(d)) by {
        assert(listed.to_set().contains(d) == listed.contains(d));
        assert(ours.to_set().contains(d) == ours.contains(d));
        assert(theirs.to_set().contains(d) == theirs.contains(d));
    }
    protocols::lemma_lacking_elements(site.set, other, listed);
}

/// A replica that receives one sketch carries over for its sender exactly the elements
/// that the sender lacks.
pub proof fn lemma_one_sketch(p: RibltProtocol, site: Site, from: usize, other: Set<Element>)
    ensures
        ({
            let packet = Packet::Riblt(Coded::of(replica::digests_of(other)));
            p.receives(site, seq![(from, packet)]).carry == protocols::carried(
                protocols::queued(
                    Seq::empty(),
                    from,
                    protocols::lacking_elements(site.set, other),
                ),
            )
        }),
{
    let packet = Packet::Riblt(Coded::of(replica::digests_of(other)));
    let inbox = seq![(from, packet)];
    let start = Gathered::start(site.set);
    lemma_answer(site, start, from, other);
    assert(RibltProtocol::gathered(site, inbox, 0) == start);
    assert(RibltProtocol::gathered(site, inbox, 1) == RibltProtocol::absorbed(site, start, from, packet));
}

/// With nothing to deliver, a replica ships a fresh code of all its digests to every neighbour.
/// Otherwise it ships what is pending and no code.
pub proof fn lemma_ships(p: RibltProtocol, site: Site, carry: Option<Carry>)
    ensures
        protocols::contents(carry).len() == 0 ==> p.sends(site, carry).len()
            == site.neighbors().len(),
        protocols::contents(carry).len() == 0 ==> forall|i: int|
            0 <= i < site.neighbors().len() ==> {
                let m = #[trigger] p.sends(site, carry)[i];
                &&& m.0 == site.neighbors()[i]
                &&& m.1 is Riblt
                &&& m.1->Riblt_0.symbols == replica::digests_of(site.set)
                &&& m.1->Riblt_0.consumed == 0
            },
        protocols::contents(carry).len() > 0 ==> p.sends(site, carry) == protocols::deliveries(
            protocols::contents(carry),
        ),
{
}

proof fn lemma_left(site: Site, inbox: Seq<(usize, Packet)>, n: nat)
    requires
        n <= inbox.len(),
    ensures
        ({
            let g = RibltProtocol::gathered(site, inbox, n);
            &&& g.inbox.len() == n
            &&& g.false_matches == 0
            &&& forall|k: int|
                0 <= k < n ==> {
                    let left = #[trigger] g.inbox[k];
                    &&& left.0 == inbox[k].0
                    &&& inbox[k].1 is Elements ==> left.1 == Packet::Elements(
                        Seq::empty(),
                        inbox[k].1->Elements_1,
                    )
                    &&& inbox[k].1 is Riblt ==> left.1 == Packet::Riblt(
                        inbox[k].1->Riblt_0.against(replica::digests_of(site.set)),
                    )
                    &&& !(inbox[k].1 is Elements) && !(inbox[k].1 is Riblt) ==> left.1
                        == inbox[k].1
                }
        }),
    decreases n,
{
    if n > 0 {
        lemma_left(site, inbox, (n - 1) as nat);
        let g = RibltProtocol::gathered(site, inbox, (n - 1) as nat);
        let h = RibltProtocol::gathered(site, inbox, n);
        assert forall|k: int| 0 <= k < n - 1 implies h.inbox[k] == g.inbox[k] by {}
    }
}

/// A replica decodes every code against all its digests, empties messages of elements and
/// leaves all others as they came.
pub proof fn lemma_leaves(p: RibltProtocol, site: Site, inbox: Seq<(usize, Packet)>, k: int)
    requires
        0 <= k < inbox.len(),
    ensures
        ({
            let r = p.receives(site, inbox);
            let left = r.inbox[k];
            &&& r.inbox.len() == inbox.len()
            &&& r.false_matches == 0
            &&& left.0 == inbox[k].0
            &&& inbox[k].1 is Elements ==> left.1 == Packet::Elements(
                Seq::empty(),
                inbox[k].1->Elements_1,
            )
            &&& inbox[k].1 is Riblt ==> left.1 == Packet::Riblt(
                inbox[k].1->Riblt_0.against(replica::digests_of(site.set)),
            )
            &&& !(inbox[k].1 is Elements) && !(inbox[k].1 is Riblt) ==> left.1 == inbox[k].1
            &&& p.uses(site, inbox[k].1) == (false, inbox[k].1 is Riblt)
        }),
{
    lemma_left(site, inbox, inbox.len());
}

/// One of the first `n` messages is a code of the node that lacks the digest.
pub open spec fn lacks(inbox: Seq<(usize, Packet)>, n: nat, to: usize, d: u64) -> bool {
    exists|k: int|
        0 <= k < n && (#[trigger] inbox[k]).0 == to && inbox[k].1 is Riblt && !(
        inbox[k].1->Riblt_0).symbols.contains(d)
}

proof fn lemma_pending(site: Site, inbox: Seq<(usize, Packet)>, n: nat, to: usize, e: Element)
    requires
        site.set.finite(),
        n <= inbox.len(),
    ensures
        protocols::keys_distinct(RibltProtocol::gathered(site, inbox, n).pending),
        protocols::pends(RibltProtocol::gathered(site, inbox, n).pending, to, e)
            <==> site.set.contains(e) && lacks(inbox, n, to, e.digest),
    decreases n,
{
    if n > 0 {
        lemma_pending(site, inbox, (n - 1) as nat, to, e);
        let g = RibltProtocol::gathered(site, inbox, (n - 1) as nat);
        let m = inbox[n - 1];
        let d = e.digest;
        let ours = replica::digests_of(site.set);
        let back = match m.1 {
            Packet::Riblt(coded) => protocols::with_digests(
                replica::listing(site.set),
                coded.against(ours).remote_only,
            ),
            _ => Seq::empty(),
        };
        protocols::lemma_queued_pends(g.pending, m.0, back, to, e);
        assert(protocols::queued(g.pending, m.0, Seq::<Element>::empty()) == g.pending);
        if let Packet::Riblt(coded) = m.1 {
            let listed = coded.against(ours).remote_only;
            let theirs = coded.symbols;
            protocols::lemma_with_digests(site.set, listed, e);
            crate::simulator::algorithms::riblt::lemma_reported_is_the_difference(theirs, ours);
            assert(listed == Coded::of(theirs).against(ours).remote_only);
            assert(listed.to_set().contains(d) == listed.contains(d));
            assert(ours.to_set().contains(d) == ours.contains(d));
            assert(theirs.to_set().contains(d) == theirs.contains(d));
        }
        let here = m.0 == to && m.1 is Riblt && !(m.1->Riblt_0).symbols.contains(d);
        if lacks(inbox, (n - 1) as nat, to, d) {
            let k = choose|k: int|
                0 <= k < n - 1 && (#[trigger] inbox[k]).0 == to && inbox[k].1 is Riblt && !(
                inbox[k].1->Riblt_0).symbols.contains(d);
            assert(inbox[k].0 == to);
        }
        if lacks(inbox, n, to, d) && !here {
            let k = choose|k: int|
                0 <= k < n && (#[trigger] inbox[k]).0 == to && inbox[k].1 is Riblt && !(
                inbox[k].1->Riblt_0).symbols.contains(d);
            assert(k < n - 1);
            assert(inbox[k].0 == to);
            assert(lacks(inbox, (n - 1) as nat, to, d));
        }
        if here {
            assert(inbox[n - 1].0 == to);
            assert(lacks(inbox, n, to, d));
        }
    } else {
        assert(!lacks(inbox, 0, to, e.digest));
    }
}

/// Whatever came along with it, every code is answered: pending for a node afterwards are
/// exactly the elements of the replica whose digests a code of the node lacks.
pub proof fn lemma_codes_are_answered(
    p: RibltProtocol,
    site: Site,
    inbox: Seq<(usize, Packet)>,
    to: usize,
    e: Element,
)
    requires
        site.set.finite(),
    ensures
        protocols::pends(protocols::contents(p.receives(site, inbox).carry), to, e)
            <==> site.set.contains(e) && lacks(inbox, inbox.len(), to, e.digest),
{
    lemma_pending(site, inbox, inbox.len(), to, e);
}

} // verus!
