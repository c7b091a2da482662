//! The simulation loop.
//!
//! In one round every replica sends, then every replica receives. A run ends when every
//! replica holds the target union, or when the round cap is reached.

use crate::simulator::counter;
use crate::simulator::counter::word;
use crate::simulator::metrics;
use crate::simulator::metrics::MetricsSnapshot;
use crate::simulator::network;
use crate::simulator::network::{Network, Outbox, Packet, ProtocolMsg, Stamps, Traffic};
use crate::simulator::protocols;
use crate::simulator::protocols::bf_iblt::StaticBfIbltProtocol;
use crate::simulator::protocols::full_state_transfer::FullStateTransfer;
use crate::simulator::protocols::hybrid_rbf_riblt::HybridRbfRibltProtocol;
use crate::simulator::protocols::multi_replica::MultiReplicaProtocol;
use crate::simulator::protocols::riblt::RibltProtocol;
use crate::simulator::protocols::{
    Carry, PendingElements, Protocol, ProtocolKind, ProtocolStepResult, Received, Site,
};
use crate::simulator::replica::{Element, ElementSet, Replica, ReplicaPhase, ReplicaView};
use crate::simulator::rounds;
use crate::simulator::topology;
use crate::simulator::topology::{Topology, TopologyKind};
use crate::simulator::workload::{Workload, WorkloadConfig};
use vstd::prelude::*;

verus! {

#[derive(Clone, Copy, Debug)]
pub struct SimulationConfig {
    pub round_cap: usize,
    pub seed: u64,
    pub topology: TopologyKind,
    pub workload: WorkloadConfig,
    pub protocol: ProtocolKind,
}

#[derive(Clone, Copy, Debug, PartialEq, Eq, Structural)]
pub enum RunStatus {
    Converged,
    RoundCapReached,
}

#[derive(Clone, Copy, Debug, PartialEq, Eq, Structural)]
pub enum RoundOutcome {
    Continue,
    Converged,
    RoundCapReached,
}

#[derive(Debug)]
pub struct SimulationResult {
    pub status: RunStatus,
    pub rounds: usize,
    pub num_replicas: usize,
    pub topology: TopologyKind,
    pub protocol: ProtocolKind,
    pub converged: bool,
    pub metrics: MetricsSnapshot,
}

/// Any of the protocols.
pub enum AnyProtocol {
    FullStateTransfer(FullStateTransfer),
    Riblt(RibltProtocol),
    HybridRbfRiblt(HybridRbfRibltProtocol),
    StaticBfIblt(StaticBfIbltProtocol),
    MultiReplica(MultiReplicaProtocol),
}

impl AnyProtocol {
    /// The usual parameters: half a bit for each digest, and one false positive in a hundred.
    pub open spec fn usual(self) -> bool {
        match self {
            AnyProtocol::HybridRbfRiblt(h) => h.ratio().parts() == (
                0x10_0000_0000_0000int,
                -53int,
            ),
            AnyProtocol::StaticBfIblt(s) => s.rate().neg_ln().parts() == (
                0x12_6bb1_bbb5_5515int,
                -50int,
            ),
            _ => true,
        }
    }

    /// The protocol of the given kind, with its usual parameters.
    pub fn of_kind(kind: ProtocolKind) -> (p: Self)
        ensures
            p.is_kind() == kind,
            p.usual(),
    {
        match kind {
            ProtocolKind::FullStateTransfer => {
                AnyProtocol::FullStateTransfer(FullStateTransfer::new())
            },
            ProtocolKind::Riblt => AnyProtocol::Riblt(RibltProtocol::new()),
            ProtocolKind::HybridRbfRiblt => {
                AnyProtocol::HybridRbfRiblt(HybridRbfRibltProtocol::new())
            },
            ProtocolKind::StaticBfIblt => AnyProtocol::StaticBfIblt(StaticBfIbltProtocol::new()),
            ProtocolKind::MultiReplica => AnyProtocol::MultiReplica(MultiReplicaProtocol::new()),
        }
    }
}

impl Protocol for AnyProtocol {
    open spec fn is_kind(&self) -> ProtocolKind {
        match self {
            AnyProtocol::FullStateTransfer(p) => p.is_kind(),
            AnyProtocol::Riblt(p) => p.is_kind(),
            AnyProtocol::HybridRbfRiblt(p) => p.is_kind(),
            AnyProtocol::StaticBfIblt(p) => p.is_kind(),
            AnyProtocol::MultiReplica(p) => p.is_kind(),
        }
    }

    open spec fn sends(&self, site: Site, carry: Option<Carry>) -> Seq<(usize, Packet)> {
        match self {
            AnyProtocol::FullStateTransfer(p) => p.sends(site, carry),
            AnyProtocol::Riblt(p) => p.sends(site, carry),
            AnyProtocol::HybridRbfRiblt(p) => p.sends(site, carry),
            AnyProtocol::StaticBfIblt(p) => p.sends(site, carry),
            AnyProtocol::MultiReplica(p) => p.sends(site, carry),
        }
    }

    open spec fn receives(&self, site: Site, inbox: Seq<(usize, Packet)>) -> Received {
        match self {
            AnyProtocol::FullStateTransfer(p) => p.receives(site, inbox),
            AnyProtocol::Riblt(p) => p.receives(site, inbox),
            AnyProtocol::HybridRbfRiblt(p) => p.receives(site, inbox),
            AnyProtocol::StaticBfIblt(p) => p.receives(site, inbox),
            AnyProtocol::MultiReplica(p) => p.receives(site, inbox),
        }
    }

    open spec fn uses(&self, site: Site, p: Packet) -> (bool, bool) {
        match self {
            AnyProtocol::FullStateTransfer(q) => q.uses(site, p),
            AnyProtocol::Riblt(q) => q.uses(site, p),
            AnyProtocol::HybridRbfRiblt(q) => q.uses(site, p),
            AnyProtocol::StaticBfIblt(q) => q.uses(site, p),
            AnyProtocol::MultiReplica(q) => q.uses(site, p),
        }
    }

    fn kind(&self) -> ProtocolKind {
        match self {
            AnyProtocol::FullStateTransfer(p) => p.kind(),
            AnyProtocol::Riblt(p) => p.kind(),
            AnyProtocol::HybridRbfRiblt(p) => p.kind(),
            AnyProtocol::StaticBfIblt(p) => p.kind(),
            AnyProtocol::MultiReplica(p) => p.kind(),
        }
    }

    fn send_phase(
        &self,
        local: ReplicaView<'_>,
        topology: &Topology,
        outbox: &mut Outbox,
        carry: Option<PendingElements>,
    ) {
        match self {
            AnyProtocol::FullStateTransfer(p) => p.send_phase(local, topology, outbox, carry),
            AnyProtocol::Riblt(p) => p.send_phase(local, topology, outbox, carry),
            AnyProtocol::HybridRbfRiblt(p) => p.send_phase(local, topology, outbox, carry),
            AnyProtocol::StaticBfIblt(p) => p.send_phase(local, topology, outbox, carry),
            AnyProtocol::MultiReplica(p) => p.send_phase(local, topology, outbox, carry),
        }
    }

    fn recv_phase(
        &self,
        local: ReplicaView<'_>,
        topology: &Topology,
        inbox: &mut Vec<(usize, ProtocolMsg)>,
    ) -> (r: ProtocolStepResult) {
        proof {
            let came = network::packets(inbox@);
            let site = protocols::site_of(local, topology);
            match self {
                AnyProtocol::FullStateTransfer(p) => {
                    assert(Seq::new(came.len(), |i: int| self.uses(site, came[i].1)) =~= Seq::new(
                        came.len(),
                        |i: int| p.uses(site, came[i].1),
                    ));
                },
                AnyProtocol::Riblt(p) => {
                    assert(Seq::new(came.len(), |i: int| self.uses(site, came[i].1)) =~= Seq::new(
                        came.len(),
                        |i: int| p.uses(site, came[i].1),
                    ));
                },
                AnyProtocol::HybridRbfRiblt(p) => {
                    assert(Seq::new(came.len(), |i: int| self.uses(site, came[i].1)) =~= Seq::new(
                        came.len(),
                        |i: int| p.uses(site, came[i].1),
                    ));
                },
                AnyProtocol::StaticBfIblt(p) => {
                    assert(Seq::new(came.len(), |i: int| self.uses(site, came[i].1)) =~= Seq::new(
                        came.len(),
                        |i: int| p.uses(site, came[i].1),
                    ));
                },
                AnyProtocol::MultiReplica(p) => {
                    assert(Seq::new(came.len(), |i: int| self.uses(site, came[i].1)) =~= Seq::new(
                        came.len(),
                        |i: int| p.uses(site, came[i].1),
                    ));
                },
            }
        }
        match self {
            AnyProtocol::FullStateTransfer(p) => p.recv_phase(local, topology, inbox),
            AnyProtocol::Riblt(p) => p.recv_phase(local, topology, inbox),
            AnyProtocol::HybridRbfRiblt(p) => p.recv_phase(local, topology, inbox),
            AnyProtocol::StaticBfIblt(p) => p.recv_phase(local, topology, inbox),
            AnyProtocol::MultiReplica(p) => p.recv_phase(local, topology, inbox),
        }
    }
}

/// A replica as the simulation sees it, without the times it took.
#[verifier::ext_equal]
pub struct Member {
    pub set: Set<Element>,
    pub phase: ReplicaPhase,
    pub state_sent: usize,
    pub metadata_sent: usize,
    pub added: usize,
    pub carry: Option<Carry>,
}

/// What does not change during a run.
pub struct Setting<P> {
    pub protocol: P,
    pub kind: TopologyKind,
    pub nodes: nat,
}

impl<P: Protocol> Setting<P> {
    /// What replica `i` knows.
    pub open spec fn site(self, members: Seq<Member>, i: int) -> Site {
        Site { id: i as usize, set: members[i].set, kind: self.kind, nodes: self.nodes }
    }

    /// The traffic after the first `k` replicas have sent.
    pub open spec fn sent(self, members: Seq<Member>, k: nat) -> Traffic<Packet>
        decreases k,
    {
        if k == 0 {
            Traffic::quiet(topology::rows_of(self.kind, self.nodes))
        } else {
            protocols::delivered(
                self.sent(members, (k - 1) as nat),
                k - 1,
                self.protocol.sends(self.site(members, k - 1), members[k - 1].carry),
            )
        }
    }

    /// What replica `i` makes of the messages of this round.
    pub open spec fn received(self, members: Seq<Member>, i: int) -> Received {
        self.protocol.receives(
            self.site(members, i),
            self.sent(members, self.nodes).inboxes[i],
        )
    }

    /// The bills after the first `k` replicas have received.
    pub open spec fn billed(self, members: Seq<Member>, k: nat) -> Traffic<Packet>
        decreases k,
    {
        if k == 0 {
            self.sent(members, self.nodes)
        } else {
            self.billed(members, (k - 1) as nat).with_bills(
                packet_bills(self.received(members, k - 1).inbox),
            )
        }
    }

    /// Replica `i` after the round.
    pub open spec fn updated(self, members: Seq<Member>, i: int) -> Member {
        let m = members[i];
        let r = self.received(members, i);
        let bills = self.billed(members, self.nodes);
        Member {
            set: r.next,
            phase: ReplicaPhase::Active,
            state_sent: counter::wrap_usize(
                m.state_sent + counter::wrap_usize(bills.node_state[i] as int),
            ),
            metadata_sent: counter::wrap_usize(
                m.metadata_sent + counter::wrap_usize(bills.node_metadata[i] as int),
            ),
            added: counter::wrap_usize(m.added + r.next.difference(m.set).len()),
            carry: r.carry,
        }
    }

    /// What replica `i` measures, encoding and decoding, given the times stamped on its
    /// messages.
    pub open spec fn timed(self, members: Seq<Member>, i: int, stamps: Seq<Stamps>) -> (
        u128,
        u128,
    ) {
        let came = self.sent(members, self.nodes).inboxes[i];
        let uses = Seq::new(
            came.len(),
            |k: int| self.protocol.uses(self.site(members, i), came[k].1),
        );
        (
            counter::clamp_u128(protocols::encode_total(uses, stamps, came.len()) as int),
            counter::clamp_u128(protocols::decode_total(uses, stamps, came.len()) as int),
        )
    }

    /// The times are those stamped on the messages of replica `i`, added up. The clock decides
    /// what the stamps say.
    pub open spec fn took(self, members: Seq<Member>, i: int, times: (u128, u128)) -> bool {
        exists|stamps: Seq<Stamps>|
            stamps.len() == self.sent(members, self.nodes).inboxes[i].len()
                && #[trigger] self.timed(members, i, stamps) == times
    }

    /// The round has added the times that replica `i` took to those on record.
    pub open spec fn clocked(
        self,
        members: Seq<Member>,
        i: int,
        before: metrics::NodeMetrics,
        after: metrics::NodeMetrics,
    ) -> bool {
        exists|times: (u128, u128)|
            self.took(members, i, times) && #[trigger] recorded(before, after, times)
    }

    /// All replicas after the round.
    pub open spec fn round(self, members: Seq<Member>) -> Seq<Member> {
        Seq::new(members.len(), |i: int| self.updated(members, i))
    }

    /// The replicas after as many rounds as it takes to converge, but no more than the cap
    /// allows, and the number of rounds by then.
    pub open spec fn finished(
        self,
        members: Seq<Member>,
        target: Set<Element>,
        rounds: nat,
        cap: nat,
    ) -> (Seq<Member>, nat)
        decreases cap - rounds,
    {
        if all_hold(members, target) || rounds >= cap {
            (members, rounds)
        } else {
            self.finished(self.round(members), target, rounds + 1, cap)
        }
    }
}

/// A round has added the times it took to those on record.
pub open spec fn recorded(
    before: metrics::NodeMetrics,
    after: metrics::NodeMetrics,
    times: (u128, u128),
) -> bool {
    &&& after.encode_time == counter::clamp_u128(before.encode_time + times.0)
    &&& after.decode_time == counter::clamp_u128(before.decode_time + times.1)
}

/// No replica has less time on record than before.
pub open spec fn times_kept(
    before: Seq<metrics::NodeMetrics>,
    after: Seq<metrics::NodeMetrics>,
) -> bool {
    before.len() == after.len() && forall|i: int|
        0 <= i < after.len() ==> {
            &&& (#[trigger] after[i]).encode_time >= before[i].encode_time
            &&& after[i].decode_time >= before[i].decode_time
        }
}

/// The metadata bills for a list of messages.
pub open spec fn packet_bills(inbox: Seq<(usize, Packet)>) -> Seq<(usize, u64)> {
    Seq::new(inbox.len(), |i: int| (inbox[i].0, inbox[i].1.metadata_cost()))
}

/// Every replica holds exactly the target.
pub open spec fn all_hold(members: Seq<Member>, target: Set<Element>) -> bool {
    forall|i: int| 0 <= i < members.len() ==> (#[trigger] members[i]).set == target
}

/// The replicas with another phase.
pub open spec fn in_phase(members: Seq<Member>, phase: ReplicaPhase) -> Seq<Member> {
    Seq::new(members.len(), |i: int| Member { phase, ..members[i] })
}

/// The counters of the replicas: each under its number, with what the members say.
pub open spec fn counted(nodes: Seq<metrics::NodeMetrics>, members: Seq<Member>) -> bool {
    &&& nodes.len() == members.len()
    &&& forall|i: int|
        0 <= i < nodes.len() ==> {
            let n = #[trigger] nodes[i];
            &&& n.replica_id == i
            &&& n.state_bytes_sent == members[i].state_sent
            &&& n.metadata_bytes_sent == members[i].metadata_sent
            &&& n.elements_added == members[i].added
        }
}

/// A running simulation.
pub struct Simulation {
    config: SimulationConfig,
    replicas: Vec<Replica>,
    topology: Topology,
    protocol: AnyProtocol,
    carries: Vec<Option<PendingElements>>,
    target_union: ElementSet,
    current_round: usize,
}

/// The replicas and what they carry, without the times they took.
pub open spec fn members_of(replicas: Seq<Replica>, carries: Seq<Option<PendingElements>>) -> Seq<
    Member,
> {
    Seq::new(
        replicas.len(),
        |i: int|
            Member {
                set: replicas[i].set@,
                phase: replicas[i].phase,
                state_sent: replicas[i].stats.state_bytes_sent,
                metadata_sent: replicas[i].stats.metadata_bytes_sent,
                added: replicas[i].stats.elements_added,
                carry: protocols::carry_view(carries[i]),
            },
    )
}

/// There is a replica for each node, known by its number, and what it carries can be
/// delivered.
pub open spec fn crew_wf(
    replicas: Seq<Replica>,
    carries: Seq<Option<PendingElements>>,
    topology: Topology,
) -> bool {
    &&& topology.wf()
    &&& replicas.len() == topology.size()
    &&& carries.len() == replicas.len()
    &&& forall|i: int| 0 <= i < replicas.len() ==> (#[trigger] replicas[i]).id == i
    &&& forall|i: int|
        0 <= i < carries.len() ==> protocols::carry_wf(
            protocols::carry_view(#[trigger] carries[i]),
            topology.rows(),
            i,
        )
}

/// Protocol and topology.
pub open spec fn setting_of<P>(protocol: P, topology: Topology) -> Setting<P> {
    Setting { protocol, kind: topology.shape(), nodes: topology.size() }
}

/// The sending half of a round: every replica in turn sends through an outbox of its own.
fn send_all<P: Protocol>(
    protocol: &P,
    topology: &Topology,
    replicas: &Vec<Replica>,
    carries: Vec<Option<PendingElements>>,
) -> (net: Network<ProtocolMsg>)
    requires
        crew_wf(replicas@, carries@, *topology),
    ensures
        net@.wf(),
        net@.links == topology.rows(),
        network::flow(net@) == setting_of(*protocol, *topology).sent(
            members_of(replicas@, carries@),
            topology.size(),
        ),
{
    let ghost members = members_of(replicas@, carries@);
    let ghost setting = setting_of(*protocol, *topology);
    let ghost given = carries@;
    let mut left = carries;
    let mut net: Network<ProtocolMsg> = Network::from_topology(topology);
    proof {
        let quiet = Traffic::<Packet>::quiet(topology.rows());
        let now = network::flow(net@);
        assert forall|i: int| 0 <= i < now.inboxes.len() implies now.inboxes[i]
            == quiet.inboxes[i] by {
            assert(now.inboxes[i] =~= quiet.inboxes[i]);
        }
        assert(now.inboxes =~= quiet.inboxes);
        assert(now =~= quiet);
        topology::lemma_rows_len(topology.shape(), topology.size());
    }
    let mut id: usize = 0;
    while id < replicas.len()
        invariant
            id <= replicas@.len(),
            crew_wf(replicas@, given, *topology),
            topology.rows().len() == topology.size(),
            members == members_of(replicas@, given),
            setting == setting_of(*protocol, *topology),
            left@.len() == given.len(),
            forall|i: int| id <= i < given.len() ==> (#[trigger] left@[i]) == given[i],
            net@.wf(),
            net@.links == topology.rows(),
            network::flow(net@) == setting.sent(members, id as nat),
        decreases replicas@.len() - id,
    {
        let mut carry: Option<PendingElements> = None;
        assert(left@[id as int] == given[id as int]);
        assert(replicas@[id as int].id == id);
        assert(protocols::carry_wf(
            protocols::carry_view(given[id as int]),
            topology.rows(),
            id as int,
        ));
        std::mem::swap(&mut carry, &mut left[id]);
        let mut outbox = Outbox::for_replica(net, id);
        let ghost before = network::flow(outbox.traffic());
        let view = replicas[id].view();
        protocol.send_phase(view, topology, &mut outbox, carry);
        proof {
            protocols::lemma_delivered_links(
                before,
                id as int,
                protocol.sends(
                    setting.site(members, id as int),
                    members[id as int].carry,
                ),
            );
        }
        net = outbox.into_network();
        id = id + 1;
    }
    net
}

/// The receiving half of a round: every replica in turn takes its messages, and what it leaves
/// of them is billed to their senders.
fn receive_all<P: Protocol>(
    protocol: &P,
    topology: &Topology,
    replicas: &Vec<Replica>,
    network: Network<ProtocolMsg>,
    given: Ghost<Seq<Option<PendingElements>>>,
) -> (r: (Vec<ProtocolStepResult>, Network<ProtocolMsg>))
    requires
        crew_wf(replicas@, given@, *topology),
        network@.wf(),
        network@.links == topology.rows(),
        network::flow(network@) == setting_of(*protocol, *topology).sent(
            members_of(replicas@, given@),
            topology.size(),
        ),
    ensures
        ({
            let members = members_of(replicas@, given@);
            let setting = setting_of(*protocol, *topology);
            let bills = setting.billed(members, topology.size());
            &&& r.0@.len() == replicas@.len()
            &&& forall|i: int|
                0 <= i < r.0@.len() ==> {
                    let step = #[trigger] r.0@[i];
                    &&& step.next_set@ == setting.received(members, i).next
                    &&& protocols::carry_view(step.carry) == setting.received(members, i).carry
                    &&& setting.took(
                        members,
                        i,
                        (step.metrics.encode_time, step.metrics.decode_time),
                    )
                    &&& protocols::carry_wf(
                        protocols::carry_view(step.carry),
                        topology.rows(),
                        i,
                    )
                }
            &&& r.1@.node_state == bills.node_state
            &&& r.1@.node_metadata == bills.node_metadata
            &&& r.1@.wf()
            &&& r.1@.links == topology.rows()
        }),
{
    let ghost members = members_of(replicas@, given@);
    let ghost setting = setting_of(*protocol, *topology);
    let ghost sent = setting.sent(members, topology.size());
    proof {
        topology::lemma_rows_len(topology.shape(), topology.size());
    }
    let mut net = network;
    let mut results: Vec<ProtocolStepResult> = Vec::new();
    let mut id: usize = 0;
    while id < replicas.len()
        invariant
            id <= replicas@.len(),
            crew_wf(replicas@, given@, *topology),
            topology.rows().len() == topology.size(),
            members == members_of(replicas@, given@),
            setting == setting_of(*protocol, *topology),
            sent == setting.sent(members, topology.size()),
            results@.len() == id,
            net@.wf(),
            net@.links == topology.rows(),
            forall|i: int|
                id <= i < replicas@.len() ==> #[trigger] network::packets(net@.inboxes[i])
                    == sent.inboxes[i],
            net@.node_state == setting.billed(members, id as nat).node_state,
            net@.node_metadata == setting.billed(members, id as nat).node_metadata,
            forall|i: int|
                0 <= i < id ==> {
                    let step = #[trigger] results@[i];
                    &&& step.next_set@ == setting.received(members, i).next
                    &&& protocols::carry_view(step.carry) == setting.received(members, i).carry
                    &&& setting.took(
                        members,
                        i,
                        (step.metrics.encode_time, step.metrics.decode_time),
                    )
                    &&& protocols::carry_wf(
                        protocols::carry_view(step.carry),
                        topology.rows(),
                        i,
                    )
                },
        decreases replicas@.len() - id,
    {
        let ghost before = net@;
        assert(network::packets(net@.inboxes[id as int]) == sent.inboxes[id as int]);
        assert(replicas@[id as int].id == id);
        let mut inbox: Vec<(usize, ProtocolMsg)> = net.drain_inbox(id);
        let ghost drained = net@;
        let ghost taken = inbox@;
        let view = replicas[id].view();
        let step = protocol.recv_phase(view, topology, &mut inbox);
        proof {
            assert forall|i: int| 0 <= i < inbox@.len() implies (#[trigger] inbox@[i]).0
                < drained.links.len() by {
                assert(network::from_neighbor(topology.rows(), id as int, taken[i].0));
            }
            assert(network::metadata_bills(inbox@) =~= packet_bills(
                network::packets(inbox@),
            ));
            assert(step.received(network::packets(inbox@)) == setting.received(
                members,
                id as int,
            ));
            let stamps = network::stamps_of(inbox@);
            let site = setting.site(members, id as int);
            let came = sent.inboxes[id as int];
            assert(network::packets(taken) == came);
            assert(setting.timed(members, id as int, stamps) == (
                step.metrics.encode_time,
                step.metrics.decode_time,
            ));
        }
        net.bill_metadata_post_recv(&inbox);
        results.push(step);
        proof {
            assert forall|i: int| id < i < replicas@.len() implies #[trigger] network::packets(
                net@.inboxes[i],
            ) == sent.inboxes[i] by {
                assert(net@.inboxes[i] == before.inboxes[i]);
                assert(network::packets(before.inboxes[i]) == sent.inboxes[i]);
            }
        }
        id = id + 1;
    }
    (results, net)
}

impl Simulation {
    /// The replicas, without the times they took.
    pub closed spec fn members(self) -> Seq<Member> {
        members_of(self.replicas@, self.carries@)
    }

    /// Protocol and topology.
    pub closed spec fn setting(self) -> Setting<AnyProtocol> {
        setting_of(self.protocol, self.topology)
    }

    /// The set that every replica is to hold.
    pub closed spec fn target(self) -> Set<Element> {
        self.target_union@
    }

    /// The rounds so far.
    pub closed spec fn round_count(self) -> usize {
        self.current_round
    }

    /// The number of rounds at which a run is given up.
    pub open spec fn cap(self) -> usize {
        self.configuration().round_cap
    }

    /// The configuration.
    pub closed spec fn configuration(self) -> SimulationConfig {
        self.config
    }

    /// The counters of the replicas.
    pub closed spec fn counters(self) -> Seq<metrics::NodeMetrics> {
        metrics::nodes_of(self.replicas@)
    }

    /// There is a replica for each node, known by its number, and what it carries can be
    /// delivered.
    pub closed spec fn wf(self) -> bool {
        crew_wf(self.replicas@, self.carries@, self.topology)
    }

    /// The replicas of a simulation form a crew for its topology.
    pub proof fn lemma_crew(self)
        requires
            self.wf(),
        ensures
            rounds::crew(self.setting().kind, self.setting().nodes, self.members()),
    {
        let members = self.members();
        assert(self.replicas.len() == members.len());
        assert forall|i: int| 0 <= i < members.len() implies (#[trigger] members[i]).set.finite()
            && protocols::carry_wf(
            members[i].carry,
            topology::rows_of(self.setting().kind, self.setting().nodes),
            i,
        ) by {
            vstd::seq_lib::seq_to_set_is_finite(self.replicas@[i].set.listed());
            assert(protocols::carry_wf(
                protocols::carry_view(self.carries@[i]),
                self.topology.rows(),
                i,
            ));
        }
    }

    /// A simulation of the configured protocol over the configured topology, with the sets of
    /// a workload.
    pub fn new(config: SimulationConfig, workload: Workload) -> (s: Self)
        ensures
            s.wf(),
            s.configuration() == config,
            s.setting().kind == config.topology,
            s.setting().nodes == workload.replica_sets@.len(),
            s.setting().protocol.is_kind() == config.protocol,
            s.setting().protocol.usual(),
            s.target() == workload.target_union@,
            s.round_count() == 0,
            s.cap() == config.round_cap,
            forall|i: int|
                0 <= i < s.counters().len() ==> (#[trigger] s.counters()[i]).encode_time == 0
                    && s.counters()[i].decode_time == 0,
            s.members() == Seq::new(
                workload.replica_sets@.len(),
                |i: int|
                    Member {
                        set: workload.replica_sets@[i]@,
                        phase: ReplicaPhase::Idle,
                        state_sent: 0,
                        metadata_sent: 0,
                        added: 0,
                        carry: None,
                    },
            ),
    {
        let n: usize = workload.replica_sets.len();
        let mut replicas: Vec<Replica> = Vec::new();
        let mut carries: Vec<Option<PendingElements>> = Vec::new();
        let mut id: usize = 0;
        while id < n
            invariant
                id <= n == workload.replica_sets@.len(),
                replicas@.len() == id,
                carries@.len() == id,
                forall|i: int|
                    0 <= i < id ==> {
                        let r = #[trigger] replicas@[i];
                        &&& r.id == i
                        &&& r.set@ == workload.replica_sets@[i]@
                        &&& r.phase == ReplicaPhase::Idle
                        &&& r.stats.state_bytes_sent == 0
                        &&& r.stats.metadata_bytes_sent == 0
                        &&& r.stats.elements_added == 0
                        &&& r.stats.encode_time == 0
                        &&& r.stats.decode_time == 0
                    },
                forall|i: int| 0 <= i < id ==> (#[trigger] carries@[i]) is None,
            decreases n - id,
        {
            replicas.push(Replica::new(id, workload.replica_sets[id].clone()));
            carries.push(None);
            id = id + 1;
        }
        let topology = Topology::build(config.topology, n);
        let protocol = AnyProtocol::of_kind(config.protocol);
        let s = Simulation {
            config,
            replicas,
            topology,
            protocol,
            carries,
            target_union: workload.target_union,
            current_round: 0,
        };
        assert(s.members() =~= Seq::new(
            workload.replica_sets@.len(),
            |i: int|
                Member {
                    set: workload.replica_sets@[i]@,
                    phase: ReplicaPhase::Idle,
                    state_sent: 0,
                    metadata_sent: 0,
                    added: 0,
                    carry: None,
                },
        ));
        s
    }

    /// Runs until every replica holds the target union or the round cap is reached.
    pub fn run(&mut self) -> (r: SimulationResult)
        requires
            old(self).wf(),
        ensures
            final(self).wf(),
            final(self).setting() == old(self).setting(),
            final(self).target() == old(self).target(),
            final(self).configuration() == old(self).configuration(),
            ({
                let (end, rounds) = old(self).setting().finished(
                    old(self).members(),
                    old(self).target(),
                    old(self).round_count() as nat,
                    old(self).cap() as nat,
                );
                let converged = all_hold(end, old(self).target());
                &&& final(self).round_count() == rounds
                &&& final(self).members() == if converged {
                    in_phase(end, ReplicaPhase::Converged)
                } else {
                    end
                }
                &&& r.converged == converged
                &&& r.status == if converged {
                    RunStatus::Converged
                } else {
                    RunStatus::RoundCapReached
                }
                &&& r.rounds == rounds
            }),
            r.converged <==> r.status == RunStatus::Converged,
            r.converged ==> forall|i: int|
                0 <= i < final(self).members().len() ==> (
                #[trigger] final(self).members()[i]).set == old(self).target()
                    && final(self).members()[i].phase == ReplicaPhase::Converged,
            !r.converged ==> final(self).round_count() >= old(self).cap() && !all_hold(
                final(self).members(),
                old(self).target(),
            ),
            final(self).members().len() == old(self).members().len(),
            r.num_replicas == old(self).members().len(),
            r.topology == old(self).configuration().topology,
            r.protocol == old(self).configuration().protocol,
            counted(final(self).counters(), final(self).members()),
            times_kept(old(self).counters(), final(self).counters()),
            r.metrics.sums_up(final(self).counters(), final(self).round_count()),
    {
        let mut converged: bool = self.has_converged();
        let mut capped: bool = false;
        let ghost goal = self.setting().finished(
            self.members(),
            self.target(),
            self.current_round as nat,
            self.config.round_cap as nat,
        );
        while !converged && !capped
            invariant
                self.wf(),
                self.setting() == old(self).setting(),
                self.target() == old(self).target(),
                self.configuration() == old(self).configuration(),
                self.members().len() == old(self).members().len(),
                times_kept(old(self).counters(), self.counters()),
                converged == all_hold(self.members(), self.target()),
                capped ==> !converged && self.current_round >= self.config.round_cap,
                self.setting().finished(
                    self.members(),
                    self.target(),
                    self.current_round as nat,
                    self.config.round_cap as nat,
                ) == goal,
            decreases
                if self.current_round < self.config.round_cap {
                    self.config.round_cap - self.current_round
                } else {
                    0
                },
                if capped {
                    0int
                } else {
                    1
                },
        {
            match self.step() {
                RoundOutcome::Continue => {},
                RoundOutcome::Converged => {
                    converged = true;
                },
                RoundOutcome::RoundCapReached => {
                    capped = true;
                },
            }
        }
        if converged {
            self.mark_phase(ReplicaPhase::Converged);
        }
        let metrics = MetricsSnapshot::from_replicas(&self.replicas, self.current_round);
        SimulationResult {
            status: if converged {
                RunStatus::Converged
            } else {
                RunStatus::RoundCapReached
            },
            rounds: self.current_round,
            num_replicas: self.replicas.len(),
            topology: self.config.topology,
            protocol: self.config.protocol,
            converged,
            metrics,
        }
    }

    /// Runs one round, unless the round cap is reached.
    pub fn step(&mut self) -> (r: RoundOutcome)
        requires
            old(self).wf(),
        ensures
            final(self).wf(),
            final(self).setting() == old(self).setting(),
            final(self).target() == old(self).target(),
            final(self).configuration() == old(self).configuration(),
            times_kept(old(self).counters(), final(self).counters()),
            old(self).round_count() >= old(self).cap() ==> r == RoundOutcome::RoundCapReached
                && *final(self) == *old(self),
            old(self).round_count() < old(self).cap() ==> {
                &&& final(self).round_count() == old(self).round_count() + 1
                &&& final(self).members() == old(self).setting().round(old(self).members())
                &&& final(self).counters().len() == old(self).counters().len()
                &&& forall|i: int|
                    0 <= i < final(self).counters().len() ==> old(self).setting().clocked(
                        old(self).members(),
                        i,
                        old(self).counters()[i],
                        (#[trigger] final(self).counters()[i]),
                    )
                &&& r == if all_hold(final(self).members(), final(self).target()) {
                    RoundOutcome::Converged
                } else if final(self).round_count() >= final(self).cap() {
                    RoundOutcome::RoundCapReached
                } else {
                    RoundOutcome::Continue
                }
            },
    {
        if self.current_round >= self.config.round_cap {
            return RoundOutcome::RoundCapReached;
        }
        self.current_round = self.current_round + 1;
        let ghost members = self.members();
        let ghost setting = self.setting();
        let ghost given = self.carries@;
        let ghost on_record = self.counters();
        let mut carries: Vec<Option<PendingElements>> = Vec::new();
        std::mem::swap(&mut carries, &mut self.carries);
        let network = send_all(&self.protocol, &self.topology, &self.replicas, carries);
        let (results, billed): (Vec<ProtocolStepResult>, Network<ProtocolMsg>) = receive_all(
            &self.protocol,
            &self.topology,
            &self.replicas,
            network,
            Ghost(given),
        );
        let ghost all = results@;
        self.apply(results, billed, Ghost(given));
        proof {
            let now = self.counters();
            assert forall|i: int| 0 <= i < now.len() implies setting.clocked(
                members,
                i,
                on_record[i],
                (#[trigger] now[i]),
            ) by {
                let step = all[i];
                assert(setting.took(
                    members,
                    i,
                    (step.metrics.encode_time, step.metrics.decode_time),
                ));
                assert(recorded(
                    on_record[i],
                    now[i],
                    (step.metrics.encode_time, step.metrics.decode_time),
                ));
            }
            assert forall|i: int| 0 <= i < now.len() implies (#[trigger] now[i]).encode_time
                >= on_record[i].encode_time && now[i].decode_time >= on_record[i].decode_time by {
                let step = all[i];
                assert(recorded(
                    on_record[i],
                    now[i],
                    (step.metrics.encode_time, step.metrics.decode_time),
                ));
            }
        }
        if self.has_converged() {
            RoundOutcome::Converged
        } else if self.current_round >= self.config.round_cap {
            RoundOutcome::RoundCapReached
        } else {
            RoundOutcome::Continue
        }
    }

    /// The end of a round: bills the replicas for what they sent, and gives them their new
    /// sets.
    fn apply(
        &mut self,
        results: Vec<ProtocolStepResult>,
        billed: Network<ProtocolMsg>,
        given: Ghost<Seq<Option<PendingElements>>>,
    )
        requires
            crew_wf(old(self).replicas@, given@, old(self).topology),
            ({
                let members = members_of(old(self).replicas@, given@);
                let setting = old(self).setting();
                let bills = setting.billed(members, setting.nodes);
                &&& results@.len() == old(self).replicas@.len()
                &&& forall|i: int|
                    0 <= i < results@.len() ==> {
                        let step = #[trigger] results@[i];
                        &&& step.next_set@ == setting.received(members, i).next
                        &&& protocols::carry_view(step.carry) == setting.received(members, i).carry
                    &&& setting.took(
                        members,
                        i,
                        (step.metrics.encode_time, step.metrics.decode_time),
                    )
                        &&& protocols::carry_wf(
                            protocols::carry_view(step.carry),
                            old(self).topology.rows(),
                            i,
                        )
                    }
                &&& billed@.node_state == bills.node_state
                &&& billed@.node_metadata == bills.node_metadata
                &&& billed@.wf()
                &&& billed@.links == old(self).topology.rows()
            }),
        ensures
            final(self).wf(),
            final(self).setting() == old(self).setting(),
            final(self).target() == old(self).target(),
            final(self).configuration() == old(self).configuration(),
            final(self).round_count() == old(self).round_count(),
            final(self).members() == old(self).setting().round(
                members_of(old(self).replicas@, given@),
            ),
            final(self).counters().len() == old(self).counters().len(),
            forall|i: int|
                0 <= i < results@.len() ==> recorded(
                    old(self).counters()[i],
                    (#[trigger] final(self).counters()[i]),
                    (results@[i].metrics.encode_time, results@[i].metrics.decode_time),
                ),
    {
        let ghost start = self.replicas@;
        let ghost members = members_of(start, given@);
        let ghost setting = self.setting();
        let ghost goal = setting.round(members);
        let ghost all = results@;
        proof {
            topology::lemma_rows_len(self.topology.shape(), self.topology.size());
        }
        let stats = billed.stats();
        let mut left = results;
        let mut carries: Vec<Option<PendingElements>> = Vec::new();
        let mut i: usize = 0;
        while i < left.len()
            invariant
                i <= left@.len(),
                carries@.len() == i,
            decreases left@.len() - i,
        {
            carries.push(None);
            i = i + 1;
        }
        let mut id: usize = self.replicas.len();
        while id > 0
            invariant
                id <= start.len(),
                self.replicas@.len() == start.len(),
                carries@.len() == start.len(),
                left@ == all.take(id as int),
                all.len() == start.len(),
                members == members_of(start, given@),
                goal == setting.round(members),
                self.topology == old(self).topology,
                self.protocol == old(self).protocol,
                self.config == old(self).config,
                self.target_union == old(self).target_union,
                self.current_round == old(self).current_round,
                setting == setting_of(self.protocol, self.topology),
                setting.nodes == start.len(),
                crew_wf(start, given@, self.topology),
                stats.per_node_state@ == setting.billed(members, setting.nodes).node_state,
                stats.per_node_metadata@ == setting.billed(members, setting.nodes).node_metadata,
                stats.per_node_state@.len() == start.len(),
                stats.per_node_metadata@.len() == start.len(),
                forall|j: int|
                    0 <= j < all.len() ==> {
                        let step = #[trigger] all[j];
                        &&& step.next_set@ == setting.received(members, j).next
                        &&& protocols::carry_view(step.carry) == setting.received(members, j).carry
                        &&& protocols::carry_wf(
                            protocols::carry_view(step.carry),
                            self.topology.rows(),
                            j,
                        )
                    },
                forall|j: int| 0 <= j < id ==> (#[trigger] self.replicas@[j]) == start[j],
                forall|j: int|
                    0 <= j < start.len() ==> (#[trigger] self.replicas@[j]).id == j,
                forall|j: int|
                    id <= j < start.len() ==> {
                        let r = #[trigger] self.replicas@[j];
                        &&& r.set@ == goal[j].set
                        &&& r.phase == goal[j].phase
                        &&& r.stats.state_bytes_sent == goal[j].state_sent
                        &&& r.stats.metadata_bytes_sent == goal[j].metadata_sent
                        &&& r.stats.elements_added == goal[j].added
                        &&& r.stats.encode_time == counter::clamp_u128(
                            start[j].stats.encode_time + all[j].metrics.encode_time,
                        )
                        &&& r.stats.decode_time == counter::clamp_u128(
                            start[j].stats.decode_time + all[j].metrics.decode_time,
                        )
                    },
                forall|j: int|
                    id <= j < start.len() ==> {
                        &&& protocols::carry_view(#[trigger] carries@[j]) == goal[j].carry
                        &&& protocols::carry_wf(
                            protocols::carry_view(carries@[j]),
                            self.topology.rows(),
                            j,
                        )
                    },
            decreases id,
        {
            id = id - 1;
            let step: ProtocolStepResult = left.pop().unwrap();
            assert(step == all[id as int]);
            assert(left@ =~= all.take(id as int));
            assert(self.replicas@[id as int] == start[id as int]);
            let sent_state: usize = word(stats.per_node_state[id]);
            let sent_meta: usize = word(stats.per_node_metadata[id]);
            let added: usize = step.next_set.count_missing_from(&self.replicas[id].set);
            let mut account = self.replicas[id].stats;
            account.record_state_bytes_sent(sent_state);
            account.record_metadata_bytes_sent(sent_meta);
            account.record_encode_time(step.metrics.encode_time);
            account.record_decode_time(step.metrics.decode_time);
            account.record_elements_added(added);
            self.replicas.set(
                id,
                Replica {
                    id,
                    set: step.next_set,
                    phase: ReplicaPhase::Active,
                    stats: account,
                },
            );
            carries.set(id, step.carry);
        }
        self.carries = carries;
        assert(self.members() =~= goal);
    }

    /// Whether every replica holds the target union.
    pub fn has_converged(&self) -> (r: bool)
        ensures
            r == all_hold(self.members(), self.target()),
    {
        let mut i: usize = 0;
        while i < self.replicas.len()
            invariant
                i <= self.replicas@.len(),
                forall|j: int| 0 <= j < i ==> (#[trigger] self.members()[j]).set == self.target(),
            decreases self.replicas@.len() - i,
        {
            if !self.replicas[i].set.same_as(&self.target_union) {
                assert(self.members()[i as int].set != self.target());
                return false;
            }
            i = i + 1;
        }
        true
    }

    fn mark_phase(&mut self, phase: ReplicaPhase)
        requires
            old(self).wf(),
        ensures
            final(self).wf(),
            final(self).setting() == old(self).setting(),
            final(self).target() == old(self).target(),
            final(self).configuration() == old(self).configuration(),
            final(self).round_count() == old(self).round_count(),
            final(self).members() == in_phase(old(self).members(), phase),
            times_kept(old(self).counters(), final(self).counters()),
    {
        let ghost start = self.replicas@;
        let mut i: usize = 0;
        while i < self.replicas.len()
            invariant
                i <= start.len(),
                self.replicas@.len() == start.len(),
                self.carries == old(self).carries,
                self.topology == old(self).topology,
                self.protocol == old(self).protocol,
                self.config == old(self).config,
                self.target_union == old(self).target_union,
                self.current_round == old(self).current_round,
                forall|j: int|
                    0 <= j < start.len() ==> {
                        let r = #[trigger] self.replicas@[j];
                        &&& r.id == start[j].id
                        &&& r.set == start[j].set
                        &&& r.stats == start[j].stats
                        &&& r.phase == if j < i {
                            phase
                        } else {
                            start[j].phase
                        }
                    },
            decreases start.len() - i,
        {
            self.replicas[i].set_phase(phase);
            i = i + 1;
        }
        assert(self.members() =~= in_phase(old(self).members(), phase));
    }

    pub fn replicas(&self) -> (r: &Vec<Replica>)
        ensures
            r@.len() == self.members().len(),
            forall|i: int|
                0 <= i < r@.len() ==> {
                    let m = self.members()[i];
                    &&& (#[trigger] r@[i]).set@ == m.set
                    &&& self.wf() ==> r@[i].id == i
                    &&& r@[i].phase == m.phase
                    &&& r@[i].stats.state_bytes_sent == m.state_sent
                    &&& r@[i].stats.metadata_bytes_sent == m.metadata_sent
                    &&& r@[i].stats.elements_added == m.added
                },
    {
        &self.replicas
    }

    pub fn topology(&self) -> (r: &Topology)
        ensures
            r.shape() == self.setting().kind,
            r.size() == self.setting().nodes,
            self.wf() ==> r.wf(),
    {
        &self.topology
    }

    pub fn protocol(&self) -> (k: ProtocolKind)
        ensures
            k == self.setting().protocol.is_kind(),
    {
        self.protocol.kind()
    }

    pub fn current_round(&self) -> (n: usize)
        ensures
            n == self.round_count(),
    {
        self.current_round
    }

    pub fn target_union(&self) -> (r: &ElementSet)
        ensures
            r@ == self.target(),
    {
        &self.target_union
    }
}

/// What a round adds to the times on record of a replica is the time that its messages took:
/// for each of them the times of its filter and of its code, where those were in use, as long
/// as the counters hold them.
pub proof fn lemma_times_are_recorded<P: Protocol>(
    setting: Setting<P>,
    members: Seq<Member>,
    i: int,
    before: metrics::NodeMetrics,
    after: metrics::NodeMetrics,
)
    requires
        setting.clocked(members, i, before, after),
    ensures
        exists|stamps: Seq<Stamps>| #[trigger]
            times_follow(setting, members, i, before, after, stamps),
{
    let times = choose|times: (u128, u128)|
        setting.took(members, i, times) && #[trigger] recorded(before, after, times);
    let stamps = choose|stamps: Seq<Stamps>|
        stamps.len() == setting.sent(members, setting.nodes).inboxes[i].len()
            && #[trigger] setting.timed(members, i, stamps) == times;
    let came = setting.sent(members, setting.nodes).inboxes[i];
    let uses = Seq::new(
        came.len(),
        |k: int| setting.protocol.uses(setting.site(members, i), came[k].1),
    );
    counter::lemma_clamp_u128_add(
        protocols::encode_total(uses, stamps, came.len()) as int,
        before.encode_time as int,
    );
    counter::lemma_clamp_u128_add(
        protocols::decode_total(uses, stamps, came.len()) as int,
        before.decode_time as int,
    );
    assert(times_follow(setting, members, i, before, after, stamps));
}

/// The times on record grew by those stamped on the messages of replica `i`.
pub open spec fn times_follow<P: Protocol>(
    setting: Setting<P>,
    members: Seq<Member>,
    i: int,
    before: metrics::NodeMetrics,
    after: metrics::NodeMetrics,
    stamps: Seq<Stamps>,
) -> bool {
    let came = setting.sent(members, setting.nodes).inboxes[i];
    let uses = Seq::new(
        came.len(),
        |k: int| setting.protocol.uses(setting.site(members, i), came[k].1),
    );
    &&& stamps.len() == came.len()
    &&& after.encode_time == counter::clamp_u128(
        before.encode_time + protocols::encode_total(uses, stamps, came.len()),
    )
    &&& after.decode_time == counter::clamp_u128(
        before.decode_time + protocols::decode_total(uses, stamps, came.len()),
    )
}

} // verus!
