//! The naive baseline: every replica ships its entire set to every neighbour.

use crate::simulator::network;
use crate::simulator::network::{Outbox, Packet, ProtocolMsg};
use crate::simulator::protocols;
use crate::simulator::protocols::{
    Carry, LocalMetrics, PendingElements, Protocol, ProtocolKind, ProtocolStepResult, Received,
    Site,
};
use crate::simulator::replica;
use crate::simulator::replica::{Element, ElementSet, ReplicaView};
use crate::simulator::topology::Topology;
use vstd::prelude::*;

verus! {

#[derive(Clone, Copy, Debug, PartialEq, Eq, Structural)]
pub struct FullStateTransfer;

impl FullStateTransfer {
    pub fn new() -> (p: Self)
        ensures
            p.is_kind() == ProtocolKind::FullStateTransfer,
    {
        FullStateTransfer
    }
}

/// A message for each neighbour, all with the same contents.
pub open spec fn to_all(neighbors: Seq<usize>, packet: Packet) -> Seq<(usize, Packet)> {
    neighbors.map_values(|n: usize| (n, packet))
}

/// A message whose elements were taken out.
pub open spec fn emptied(p: Packet) -> Packet {
    match p {
        Packet::Elements(_, marker) => Packet::Elements(Seq::empty(), marker),
        other => other,
    }
}

/// A set and all elements in the first `n` messages.
pub open spec fn merged(set: Set<Element>, inbox: Seq<(usize, Packet)>, n: nat) -> Set<Element>
    decreases n,
{
    if n == 0 {
        set
    } else {
        match inbox[n - 1].1 {
            Packet::Elements(els, _) => merged(set, inbox, (n - 1) as nat).union(els.to_set()),
            _ => merged(set, inbox, (n - 1) as nat),
        }
    }
}

impl Protocol for FullStateTransfer {
    open spec fn is_kind(&self) -> ProtocolKind {
        ProtocolKind::FullStateTransfer
    }

    open spec fn sends(&self, site: Site, carry: Option<Carry>) -> Seq<(usize, Packet)> {
        to_all(site.neighbors(), Packet::Elements(replica::listing(site.set), None))
    }

    open spec fn receives(&self, site: Site, inbox: Seq<(usize, Packet)>) -> Received {
        Received {
            next: merged(site.set, inbox, inbox.len()),
            carry: None,
            inbox: inbox.map_values(|m: (usize, Packet)| (m.0, emptied(m.1))),
            false_matches: 0,
        }
    }

    open spec fn uses(&self, site: Site, p: Packet) -> (bool, bool) {
        (false, false)
    }

    fn kind(&self) -> ProtocolKind {
        ProtocolKind::FullStateTransfer
    }

    fn send_phase(
        &self,
        local: ReplicaView<'_>,
        topology: &Topology,
        outbox: &mut Outbox,
        carry: Option<PendingElements>,
    ) {
        let neighbors = topology.neighbors(local.id);
        let ghost start = network::flow(outbox.traffic());
        let ghost links = outbox.traffic().links;
        let ghost packet = Packet::Elements(replica::listing(local.set@), None);
        let ghost goal = to_all(neighbors@, packet);
        let mut i: usize = 0;
        assert(goal.take(0) =~= Seq::<(usize, Packet)>::empty());
        while i < neighbors.len()
            invariant
                i <= neighbors@.len(),
                outbox.wf(),
                outbox.sender() == local.id,
                outbox.traffic().links == links,
                links[local.id as int] == neighbors@,
                packet == Packet::Elements(replica::listing(local.set@), None),
                goal == to_all(neighbors@, packet),
                network::flow(outbox.traffic()) == protocols::delivered(
                    start,
                    local.id as int,
                    goal.take(i as int),
                ),
            decreases neighbors@.len() - i,
        {
            let to: usize = neighbors[i];
            assert(neighbors@.contains(to));
            let ghost before = network::flow(outbox.traffic());
            outbox.send_elements(to, local.set.to_list());
            proof {
                assert(goal.take(i + 1).drop_last() =~= goal.take(i as int));
                assert(goal.take(i + 1).last() == (to, packet));
                assert(network::flow(outbox.traffic()).links == before.links);
            }
            i = i + 1;
        }
        assert(goal.take(i as int) =~= goal);
    }

    fn recv_phase(
        &self,
        local: ReplicaView<'_>,
        topology: &Topology,
        inbox: &mut Vec<(usize, ProtocolMsg)>,
    ) -> (r: ProtocolStepResult) {
        let ghost start = network::packets(inbox@);
        let ghost froms = inbox@;
        let mut next_set: ElementSet = local.snapshot_set();
        let mut i: usize = 0;
        while i < inbox.len()
            invariant
                i <= inbox@.len(),
                inbox@.len() == froms.len(),
                start == network::packets(froms),
                next_set@ == merged(local.set@, start, i as nat),
                forall|j: int| 0 <= j < inbox@.len() ==> (#[trigger] inbox@[j]).0 == froms[j].0,
                forall|j: int| 0 <= j < i ==> (#[trigger] inbox@[j]).1@ == emptied(start[j].1),
                forall|j: int| i <= j < inbox@.len() ==> (#[trigger] inbox@[j]) == froms[j],
            decreases inbox@.len() - i,
        {
            match inbox[i].1.take_elements() {
                Some(els) => {
                    next_set.insert_all(&els);
                },
                None => {},
            }
            i = i + 1;
        }
        let r = ProtocolStepResult { next_set, metrics: LocalMetrics::default(), carry: None };
        assert(network::packets(inbox@) =~= start.map_values(
            |m: (usize, Packet)| (m.0, emptied(m.1)),
        ));
        assert(r.received(network::packets(inbox@)) =~= self.receives(
            protocols::site_of(local, topology),
            start,
        ));
        proof {
            let uses = Seq::new(
                start.len(),
                |j: int| self.uses(protocols::site_of(local, topology), start[j].1),
            );
            protocols::lemma_totals_zero(uses, network::stamps_of(inbox@), start.len());
        }
        r
    }
}

/// Every neighbour is sent the whole set, once, in one message with each element once.
pub proof fn lemma_sends_the_set(p: FullStateTransfer, site: Site, carry: Option<Carry>)
    requires
        site.set.finite(),
    ensures
        p.sends(site, carry).len() == site.neighbors().len(),
        forall|i: int|
            0 <= i < site.neighbors().len() ==> {
                let m = #[trigger] p.sends(site, carry)[i];
                &&& m.0 == site.neighbors()[i]
                &&& m.1 is Elements
                &&& m.1->Elements_0.to_set() == site.set
                &&& m.1->Elements_0.no_duplicates()
                &&& m.1->Elements_1 is None
            },
{
    replica::lemma_has_listing(site.set);
}

/// A replica leaves messages of elements empty and all others as they were, carries nothing
/// over and mistakes nothing.
pub proof fn lemma_leaves(p: FullStateTransfer, site: Site, inbox: Seq<(usize, Packet)>, k: int)
    requires
        0 <= k < inbox.len(),
    ensures
        p.receives(site, inbox).inbox.len() == inbox.len(),
        p.receives(site, inbox).inbox[k].0 == inbox[k].0,
        inbox[k].1 is Elements ==> p.receives(site, inbox).inbox[k].1 == Packet::Elements(
            Seq::empty(),
            inbox[k].1->Elements_1,
        ),
        !(inbox[k].1 is Elements) ==> p.receives(site, inbox).inbox[k].1 == inbox[k].1,
        p.receives(site, inbox).carry is None,
        p.receives(site, inbox).false_matches == 0,
{
}

} // verus!
