use reconciliation_simulator::simulator::algorithms::bloom::FalsePositiveRate;
use reconciliation_simulator::simulator::binary64::Binary64;
use reconciliation_simulator::simulator::network::{Network, Outbox, ProtocolMsg};
use reconciliation_simulator::simulator::protocols::bf_iblt::StaticBfIbltProtocol;
use reconciliation_simulator::simulator::protocols::full_state_transfer::FullStateTransfer;
use reconciliation_simulator::simulator::protocols::hybrid_rbf_riblt::HybridRbfRibltProtocol;
use reconciliation_simulator::simulator::protocols::multi_replica::MultiReplicaProtocol;
use reconciliation_simulator::simulator::protocols::multi_replica_v2::MultiReplicaV2Protocol;
use reconciliation_simulator::simulator::protocols::riblt::RibltProtocol;
use reconciliation_simulator::simulator::protocols::{
    select_by_digest, PendingElements, Protocol, ProtocolKind, OWN_KEY,
};
use reconciliation_simulator::simulator::replica::{Element, ElementSet, Replica};
use reconciliation_simulator::simulator::topology::{Topology, TopologyKind};
use std::collections::HashSet;

fn make_element(digest: u64, payload_len: usize) -> Element {
    Element::new(digest, payload_len)
}

fn make_replica(id: usize, digests: &[u64]) -> Replica {
    let elements: Vec<Element> = digests.iter().map(|&d| make_element(d, 4)).collect();
    Replica::new(id, ElementSet::from_elements(&elements))
}

fn replica_of(id: usize, elements: Vec<Element>) -> Replica {
    Replica::new(id, ElementSet::from_elements(&elements))
}

fn digests(set: &ElementSet) -> HashSet<u64> {
    set.elements().iter().map(|e| e.digest).collect()
}

fn send_all<P: Protocol>(
    protocol: &P,
    replicas: &[Replica],
    topology: &Topology,
    network: Network<ProtocolMsg>,
    carries: &mut [Option<PendingElements>],
) -> Network<ProtocolMsg> {
    let mut network = network;
    for id in 0..replicas.len() {
        let carry = carries[id].take();
        let mut outbox = Outbox::for_replica(network, id);
        protocol.send_phase(replicas[id].view(), topology, &mut outbox, carry);
        network = outbox.into_network();
    }
    network
}

fn receive_all<P: Protocol>(
    protocol: &P,
    replicas: &mut [Replica],
    topology: &Topology,
    network: &mut Network<ProtocolMsg>,
    carries: &mut [Option<PendingElements>],
) {
    let mut inboxes: Vec<Vec<(usize, ProtocolMsg)>> =
        (0..replicas.len()).map(|id| network.drain_inbox(id)).collect();
    let results: Vec<_> = inboxes
        .iter_mut()
        .enumerate()
        .map(|(id, inbox)| protocol.recv_phase(replicas[id].view(), topology, inbox))
        .collect();
    for inbox in &inboxes {
        network.bill_metadata_post_recv(inbox);
    }
    for (id, (replica, result)) in replicas.iter_mut().zip(results).enumerate() {
        replica.set = result.next_set;
        carries[id] = result.carry;
    }
}

fn no_carries(n: usize) -> Vec<Option<PendingElements>> {
    (0..n).map(|_| None).collect()
}

fn converges_in_two_rounds<P: Protocol>(protocol: P) {
    let topology = Topology::star(2);
    let mut replicas = vec![make_replica(0, &[1, 2, 3]), make_replica(1, &[2, 3, 4])];
    let mut network: Network<ProtocolMsg> = Network::from_topology(&topology);
    let mut carries = no_carries(replicas.len());

    for _ in 0..2 {
        network = send_all(&protocol, &replicas, &topology, network, &mut carries);
        receive_all(&protocol, &mut replicas, &topology, &mut network, &mut carries);
    }

    let union0 = digests(&replicas[0].set);
    let union1 = digests(&replicas[1].set);
    assert!(union0.contains(&1));
    assert!(union0.contains(&2));
    assert!(union0.contains(&3));
    assert!(union0.contains(&4));
    assert_eq!(union0, union1);
    assert!(network.stats().bytes_metadata > 0);
}

fn identical_sets_carry_nothing<P: Protocol>(protocol: &P) -> Network<ProtocolMsg> {
    let topology = Topology::star(2);
    let mut replicas = vec![make_replica(0, &[5, 6, 7]), make_replica(1, &[5, 6, 7])];
    let mut network: Network<ProtocolMsg> = Network::from_topology(&topology);
    let mut carries = no_carries(replicas.len());
    network = send_all(protocol, &replicas, &topology, network, &mut carries);
    receive_all(protocol, &mut replicas, &topology, &mut network, &mut carries);

    assert!(carries.iter().all(|c| c.is_none()));

    network.reset();
    send_all(protocol, &replicas, &topology, network, &mut carries)
}

#[test]
fn riblt_converges_in_two_rounds() {
    converges_in_two_rounds(RibltProtocol::new());
}

#[test]
fn riblt_zero_diff_only_emits_sketches() {
    let mut network = identical_sets_carry_nothing(&RibltProtocol::new());
    for id in 0..2 {
        for (_from, mut msg) in network.drain_inbox(id) {
            assert!(msg.as_riblt().is_some());
        }
    }
}

#[test]
fn bf_iblt_converges_in_two_rounds() {
    converges_in_two_rounds(StaticBfIbltProtocol::new());
}

#[test]
fn bf_iblt_identical_sets_no_elements_sent() {
    let mut network = identical_sets_carry_nothing(&StaticBfIbltProtocol::new());
    for id in 0..2 {
        for (_from, mut msg) in network.drain_inbox(id) {
            assert!(msg.as_bloom_riblt().is_some());
        }
    }
}

#[test]
fn hybrid_converges_in_two_rounds() {
    converges_in_two_rounds(HybridRbfRibltProtocol::new());
}

#[test]
fn hybrid_identical_sets_no_elements_sent() {
    let mut network = identical_sets_carry_nothing(&HybridRbfRibltProtocol::new());
    for id in 0..2 {
        for (_from, mut msg) in network.drain_inbox(id) {
            assert!(msg.as_rateless_bloom_riblt().is_some());
        }
    }
}

#[test]
fn protocol2_full_state_transfer_bills_full_neighbour_set() {
    let protocol = FullStateTransfer::new();
    let topology = Topology::star(2);
    let replicas = vec![
        replica_of(0, vec![make_element(1, 4)]),
        replica_of(1, vec![make_element(1, 4), make_element(2, 10), make_element(3, 6)]),
    ];
    let network: Network<ProtocolMsg> = Network::from_topology(&topology);
    let network = send_all(&protocol, &replicas, &topology, network, &mut no_carries(2));

    let expected_node0 = (std::mem::size_of::<u64>() + 4) as u64;
    let expected_node1 = ((std::mem::size_of::<u64>() + 4)
        + (std::mem::size_of::<u64>() + 10)
        + (std::mem::size_of::<u64>() + 6)) as u64;

    let stats = network.stats();
    assert_eq!(stats.per_node_state[0], expected_node0);
    assert_eq!(stats.per_node_state[1], expected_node1);
    assert_eq!(stats.bytes_state, expected_node0 + expected_node1);
    assert_eq!(stats.bytes_metadata, 0);
}

#[test]
fn protocol2_full_state_transfer_recv_merges_neighbours() {
    let protocol = FullStateTransfer::new();
    let topology = Topology::star(2);
    let replicas = vec![
        replica_of(0, vec![make_element(1, 4), make_element(2, 4)]),
        replica_of(1, vec![make_element(2, 4), make_element(3, 4)]),
    ];
    let network: Network<ProtocolMsg> = Network::from_topology(&topology);
    let mut network = send_all(&protocol, &replicas, &topology, network, &mut no_carries(2));

    let mut inbox_0 = network.drain_inbox(0);
    let result_0 = protocol.recv_phase(replicas[0].view(), &topology, &mut inbox_0);

    let digests = digests(&result_0.next_set);
    assert!(digests.contains(&1));
    assert!(digests.contains(&2));
    assert!(digests.contains(&3));
    assert_eq!(digests.len(), 3);
    assert!(result_0.carry.is_none());
}

#[test]
fn kinds_and_names() {
    assert_eq!(FullStateTransfer::new().kind(), ProtocolKind::FullStateTransfer);
    assert_eq!(RibltProtocol::new().kind(), ProtocolKind::Riblt);
    assert_eq!(StaticBfIbltProtocol::default().kind(), ProtocolKind::StaticBfIblt);
    assert_eq!(HybridRbfRibltProtocol::default().kind(), ProtocolKind::HybridRbfRiblt);
    assert_eq!(MultiReplicaProtocol::new().kind(), ProtocolKind::MultiReplica);
    for kind in [
        ProtocolKind::FullStateTransfer,
        ProtocolKind::Riblt,
        ProtocolKind::StaticBfIblt,
        ProtocolKind::HybridRbfRiblt,
        ProtocolKind::MultiReplica,
    ] {
        assert_eq!(kind.name(), format!("{:?}", kind));
    }
}

#[test]
fn other_parameters_converge_too() {
    let coarse =
        FalsePositiveRate::from_neg_ln_bits((-(0.5f64).ln()).to_bits()).unwrap();
    converges_in_two_rounds(StaticBfIbltProtocol::with_false_positive_rate(coarse));
    let eight = Binary64::from_bits(8.0f64.to_bits()).unwrap();
    converges_in_two_rounds(HybridRbfRibltProtocol::with_m_ratio(eight));
}

#[test]
fn slice_bits_follow_the_ratio() {
    let half = HybridRbfRibltProtocol::new();
    assert_eq!(half.bloom_bits_for(0), 88);
    assert_eq!(half.bloom_bits_for(10), 88);
    assert_eq!(half.bloom_bits_for(1001), 501);
    let third = HybridRbfRibltProtocol::with_m_ratio(
        Binary64::from_bits((1.0f64 / 3.0).to_bits()).unwrap(),
    );
    for n in [300usize, 1_000, 12_345, 999_999] {
        assert_eq!(third.bloom_bits_for(n), (n as f64 * (1.0 / 3.0)).ceil() as usize);
    }
}

#[test]
fn false_matches_are_counted() {
    // Every digest passes a filter of nearly no bits, so each one that only the receiver
    // holds is a false match.
    let rate = FalsePositiveRate::from_neg_ln_bits((-(1.0 - f64::EPSILON / 2.0).ln()).to_bits())
        .unwrap();
    let protocol = StaticBfIbltProtocol::with_false_positive_rate(rate);
    let topology = Topology::star(2);
    let replicas = vec![make_replica(0, &[1]), make_replica(1, &[1, 2, 3])];
    let network: Network<ProtocolMsg> = Network::from_topology(&topology);
    let mut network = send_all(&protocol, &replicas, &topology, network, &mut no_carries(2));
    let mut inbox = network.drain_inbox(1);
    let r = protocol.recv_phase(replicas[1].view(), &topology, &mut inbox);
    assert_eq!(r.metrics.false_matches, 2);
    let carry = r.carry.unwrap();
    assert_eq!(carry.len(), 1);
    assert_eq!(carry.key(0), 0);
    assert_eq!(carry.elements(0), &vec![make_element(2, 4), make_element(3, 4)]);
}

#[test]
fn pending_elements_are_kept_by_neighbour() {
    let mut p = PendingElements::new();
    assert!(p.is_empty());
    p.extend(3, vec![make_element(1, 1)]);
    p.extend(5, vec![make_element(2, 1)]);
    p.extend(3, vec![make_element(4, 1)]);
    assert_eq!(p.len(), 2);
    assert_eq!(p.get(3), Some(&vec![make_element(1, 1), make_element(4, 1)]));
    p.insert(3, vec![]);
    assert_eq!(p.get(3), Some(&vec![]));
    assert_eq!(p.get(4), None);
    assert!(PendingElements::new().into_carry().is_none());
    assert!(p.into_carry().is_some());
    assert!(PendingElements::of(None).is_empty());
}

#[test]
fn selection_goes_by_digest() {
    let set = ElementSet::from_elements(&vec![
        make_element(4, 1),
        make_element(1, 1),
        make_element(4, 2),
        make_element(9, 1),
    ]);
    assert_eq!(
        select_by_digest(&set, &vec![9, 4, 77]),
        vec![make_element(4, 1), make_element(4, 2), make_element(9, 1)]
    );
}

#[test]
fn chord_powers_are_whole_logarithms() {
    assert_eq!(MultiReplicaProtocol::chord_powers(0), 1);
    assert_eq!(MultiReplicaProtocol::chord_powers(1), 1);
    for n in 2..5000usize {
        assert_eq!(
            MultiReplicaProtocol::chord_powers(n),
            ((n as f64).log2().floor() as usize).max(1)
        );
    }
}

#[test]
fn chord_distances_are_measured_both_ways() {
    for n in 2..40usize {
        for a in 0..n {
            for b in 0..n {
                let fwd = (b + n - a) % n;
                let bwd = (a + n - b) % n;
                let dist = fwd.min(bwd);
                let expected = if dist > 0 && dist.is_power_of_two() {
                    Some(dist.trailing_zeros() as usize)
                } else {
                    None
                };
                assert_eq!(MultiReplicaProtocol::chord_distance_power(n, a, b), expected);
            }
        }
    }
}

#[test]
fn multi_replica_converges_on_a_star() {
    let protocol = MultiReplicaProtocol::new();
    let topology = Topology::build(TopologyKind::Star, 7);
    let mut replicas: Vec<Replica> =
        (0..7).map(|i| make_replica(i, &[100, 200, i as u64, 50 + i as u64])).collect();
    let target: HashSet<u64> = replicas.iter().flat_map(|r| digests(&r.set)).collect();
    let mut carries = no_carries(replicas.len());
    for _ in 0..8 {
        let network: Network<ProtocolMsg> = Network::from_topology(&topology);
        let mut network = send_all(&protocol, &replicas, &topology, network, &mut carries);
        receive_all(&protocol, &mut replicas, &topology, &mut network, &mut carries);
    }
    for r in &replicas {
        assert_eq!(digests(&r.set), target);
    }
}

#[test]
fn chord_sketches_advance_after_deliveries() {
    let protocol = MultiReplicaProtocol::new();
    let topology = Topology::chord(8);
    let replica = make_replica(0, &[1]);

    let network: Network<ProtocolMsg> = Network::from_topology(&topology);
    let mut outbox = Outbox::for_replica(network, 0);
    let mut carry = PendingElements::new();
    carry.insert(OWN_KEY, vec![Element::new(2, 0)]);
    protocol.send_phase(replica.view(), &topology, &mut outbox, Some(carry));
    let mut network = outbox.into_network();
    for id in 0..8 {
        let expected = if id == 4 { 1 } else { 0 };
        assert_eq!(network.drain_inbox(id).len(), expected);
    }

    let mut outbox = Outbox::for_replica(network, 2);
    outbox.send_elements(0, vec![make_element(9, 4)]);
    let mut network = outbox.into_network();
    let mut inbox = network.drain_inbox(0);
    let r = protocol.recv_phase(replica.view(), &topology, &mut inbox);
    let carry = r.carry.unwrap();
    assert_eq!(carry.get(OWN_KEY), Some(&vec![Element::new(2, 0)]));

    let mut empty: Vec<(usize, ProtocolMsg)> = Vec::new();
    let r = protocol.recv_phase(replica.view(), &topology, &mut empty);
    assert_eq!(r.carry.unwrap().get(OWN_KEY), Some(&vec![Element::new(0, 0)]));
}

#[test]
fn eager_forwarding_converges_on_a_tree() {
    let topology = Topology::tree(7);
    let mut replicas: Vec<Replica> =
        (0..7).map(|i| make_replica(i, &[100, i as u64])).collect();
    let target: HashSet<u64> = replicas.iter().flat_map(|r| digests(&r.set)).collect();
    let mut protocol = MultiReplicaV2Protocol::new();
    let mut first_metadata = 0;
    for round in 0..8 {
        let mut network: Network<ProtocolMsg> = Network::from_topology(&topology);
        for id in 0..replicas.len() {
            let mut outbox = Outbox::for_replica(network, id);
            protocol.send_phase(replicas[id].view(), &topology, &mut outbox);
            network = outbox.into_network();
        }
        for id in 0..replicas.len() {
            let mut inbox = network.drain_inbox(id);
            let r = protocol.recv_phase(replicas[id].view(), &topology, &mut inbox);
            network.bill_metadata_post_recv(&inbox);
            replicas[id].set = r.next_set;
        }
        if round == 0 {
            first_metadata = network.stats().bytes_metadata;
        } else {
            assert_eq!(network.stats().bytes_metadata, 0);
        }
    }
    assert!(first_metadata > 0);
    for r in &replicas {
        assert_eq!(digests(&r.set), target);
    }
}

#[test]
fn eager_forwarding_sends_no_element_twice() {
    let topology = Topology::chord(9);
    let mut replicas: Vec<Replica> =
        (0..9).map(|i| make_replica(i, &[500, i as u64, 100 + i as u64 / 2])).collect();
    let mut protocol = MultiReplicaV2Protocol::new();
    let mut sent: HashSet<(usize, usize, u64)> = HashSet::new();
    for _ in 0..10 {
        let mut network: Network<ProtocolMsg> = Network::from_topology(&topology);
        for id in 0..replicas.len() {
            let mut outbox = Outbox::for_replica(network, id);
            protocol.send_phase(replicas[id].view(), &topology, &mut outbox);
            network = outbox.into_network();
        }
        for id in 0..replicas.len() {
            let mut inbox: Vec<(usize, ProtocolMsg)> = Vec::new();
            for (from, mut msg) in network.drain_inbox(id) {
                match msg.take_elements() {
                    Some(els) => {
                        for e in &els {
                            assert!(sent.insert((from, id, e.digest)), "{from} repeats itself");
                        }
                        let mut outbox =
                            Outbox::for_replica(Network::from_topology(&topology), from);
                        outbox.send_elements(id, els);
                        inbox.extend(outbox.into_network().drain_inbox(id));
                    }
                    None => inbox.push((from, msg)),
                }
            }
            let before = digests(&replicas[id].set);
            let r = protocol.recv_phase(replicas[id].view(), &topology, &mut inbox);
            assert!(before.is_subset(&digests(&r.next_set)));
            replicas[id].set = r.next_set;
        }
    }
    assert!(!sent.is_empty());
}

/// What each node gets when all send: the senders, and whether they sent sketches.
fn arrivals(network: &mut Network<ProtocolMsg>, nodes: usize) -> Vec<Vec<(usize, bool)>> {
    (0..nodes)
        .map(|id| {
            network
                .drain_inbox(id)
                .iter_mut()
                .map(|(from, msg)| (*from, msg.as_bloom().is_some()))
                .collect()
        })
        .collect()
}

#[test]
fn trees_sketch_one_neighbour_at_a_time() {
    let topology = Topology::tree(3);
    let protocol = MultiReplicaProtocol::new();
    let mut replicas =
        vec![make_replica(0, &[1, 2]), make_replica(1, &[1, 2]), make_replica(2, &[1, 2])];
    let mut carries = no_carries(3);
    let mut turns = Vec::new();
    let mut bytes = Vec::new();
    for _ in 0..6 {
        let network: Network<ProtocolMsg> = Network::from_topology(&topology);
        let mut network = send_all(&protocol, &replicas, &topology, network, &mut carries);
        let mut sketched = Vec::new();
        for id in 1..3 {
            let mut inbox = network.drain_inbox(id);
            for (from, msg) in inbox.iter_mut() {
                if msg.as_bloom().is_some() {
                    assert_eq!(*from, 0);
                    sketched.push(id);
                }
            }
            let r = protocol.recv_phase(replicas[id].view(), &topology, &mut inbox);
            replicas[id].set = r.next_set;
            carries[id] = r.carry;
        }
        let mut inbox = network.drain_inbox(0);
        let r = protocol.recv_phase(replicas[0].view(), &topology, &mut inbox);
        carries[0] = r.carry;
        assert!(sketched.len() <= 1);
        turns.extend(sketched);
        bytes.push(network.stats().bytes_state);
    }
    assert_eq!(turns, vec![1, 2, 1]);
    assert_eq!(bytes, vec![0, 24, 0, 24, 0, 24]);
}

#[test]
fn tree_sketches_are_always_answered() {
    let topology = Topology::tree(2);
    let protocol = MultiReplicaProtocol::new();
    let mut replicas = vec![make_replica(0, &[1, 2, 3]), make_replica(1, &[1, 2, 3])];
    let mut carries = no_carries(2);
    let mut network: Network<ProtocolMsg> = Network::from_topology(&topology);
    network = send_all(&protocol, &replicas, &topology, network, &mut carries);
    receive_all(&protocol, &mut replicas, &topology, &mut network, &mut carries);
    network = send_all(&protocol, &replicas, &topology, network, &mut carries);
    assert_eq!(network.stats().per_node_state, vec![8, 8]);
    let got = arrivals(&mut network, 2);
    assert_eq!(got, vec![vec![(1, false)], vec![(0, false)]]);
}

#[test]
fn trees_reconcile_edge_by_edge() {
    let topology = Topology::tree(7);
    let protocol = MultiReplicaProtocol::new();
    let mut replicas: Vec<Replica> =
        (0..7).map(|id| make_replica(id, &[100 + id as u64 * 1000])).collect();
    let mut carries = no_carries(7);
    let mut network: Network<ProtocolMsg> = Network::from_topology(&topology);
    let all: HashSet<u64> = (0..7).map(|id| 100 + id * 1000).collect();
    for _ in 0..200 {
        network = send_all(&protocol, &replicas, &topology, network, &mut carries);
        receive_all(&protocol, &mut replicas, &topology, &mut network, &mut carries);
    }
    for r in &replicas {
        assert!(digests(&r.set).is_subset(&all));
        assert!(r.set.len() > 1);
    }
}

#[test]
fn steps_take_as_long_as_their_messages() {
    let topology = Topology::star(2);
    let protocol = RibltProtocol::new();
    let replicas = vec![make_replica(0, &[1, 2, 3]), make_replica(1, &[2, 3, 4])];
    let network: Network<ProtocolMsg> = Network::from_topology(&topology);
    let mut network = send_all(&protocol, &replicas, &topology, network, &mut no_carries(2));
    let mut inbox = network.drain_inbox(1);
    let r = protocol.recv_phase(replicas[1].view(), &topology, &mut inbox);
    let coded = inbox[0].1.as_riblt().unwrap();
    assert_eq!(r.metrics.encode_time, coded.t_enc());
    assert_eq!(r.metrics.decode_time, coded.t_dec());
    let other = FullStateTransfer::new();
    let network: Network<ProtocolMsg> = Network::from_topology(&topology);
    let mut network = send_all(&other, &replicas, &topology, network, &mut no_carries(2));
    let r = other.recv_phase(replicas[1].view(), &topology, &mut network.drain_inbox(1));
    assert_eq!((r.metrics.encode_time, r.metrics.decode_time), (0, 0));
}

#[test]
fn tree_answers_name_the_next_turn() {
    let topology = Topology::tree(3);
    let protocol = MultiReplicaProtocol::new();
    let mut replicas = vec![make_replica(0, &[1]), make_replica(1, &[1, 2]), make_replica(2, &[1])];
    let mut carries = no_carries(3);
    let mut network: Network<ProtocolMsg> = Network::from_topology(&topology);
    network = send_all(&protocol, &replicas, &topology, network, &mut carries);
    receive_all(&protocol, &mut replicas, &topology, &mut network, &mut carries);
    network = send_all(&protocol, &replicas, &topology, network, &mut carries);
    let mut inbox = network.drain_inbox(0);
    assert_eq!(inbox.len(), 1);
    assert_eq!(inbox[0].0, 1);
    assert_eq!(inbox[0].1.marker(), Some(Element::new(0, 0)));
    let r = protocol.recv_phase(replicas[0].view(), &topology, &mut inbox);
    assert_eq!(r.carry.unwrap().get(OWN_KEY), Some(&vec![Element::new(1, 0)]));
    assert_eq!(digests(&r.next_set), HashSet::from([1, 2]));
    assert_eq!(network.stats().per_node_state, vec![16, 8 + 4 + 8, 0]);
}

fn answers_what_is_lacking<P: Protocol>(protocol: P) {
    let topology = Topology::star(2);
    let ours: Vec<u64> = (0..300).map(|i| i * 7 + 3).collect();
    let theirs: Vec<u64> = (40..380).map(|i| i * 7 + 3).collect();
    let replicas = vec![make_replica(0, &ours), make_replica(1, &theirs)];
    let network: Network<ProtocolMsg> = Network::from_topology(&topology);
    let mut network = send_all(&protocol, &replicas, &topology, network, &mut no_carries(2));
    let r = protocol.recv_phase(replicas[0].view(), &topology, &mut network.drain_inbox(0));
    let lacking: Vec<Element> = ours[..40].iter().map(|&d| make_element(d, 4)).collect();
    let carry = r.carry.unwrap();
    assert_eq!(carry.len(), 1);
    assert_eq!(carry.get(1), Some(&lacking));
    assert_eq!(r.next_set, replicas[0].set);
}

#[test]
fn sketches_are_answered_with_what_is_lacking() {
    answers_what_is_lacking(RibltProtocol::new());
    answers_what_is_lacking(StaticBfIbltProtocol::new());
    answers_what_is_lacking(HybridRbfRibltProtocol::new());
}

fn shares_among_neighbours<P: Protocol>(protocol: P) {
    let topology = Topology::star(4);
    let mut replicas: Vec<Replica> =
        (0..4).map(|id| make_replica(id, &[9, 10 + id as u64, 20 + id as u64])).collect();
    let start: Vec<HashSet<u64>> = replicas.iter().map(|r| digests(&r.set)).collect();
    let mut carries = no_carries(4);
    let mut network: Network<ProtocolMsg> = Network::from_topology(&topology);
    network = send_all(&protocol, &replicas, &topology, network, &mut carries);
    receive_all(&protocol, &mut replicas, &topology, &mut network, &mut carries);
    for id in 0..4 {
        assert_eq!(digests(&replicas[id].set), start[id]);
    }
    network = send_all(&protocol, &replicas, &topology, network, &mut carries);
    receive_all(&protocol, &mut replicas, &topology, &mut network, &mut carries);
    let hub: HashSet<u64> = start.iter().flatten().copied().collect();
    assert_eq!(digests(&replicas[0].set), hub);
    for id in 1..4 {
        let both: HashSet<u64> = start[0].union(&start[id]).copied().collect();
        assert_eq!(digests(&replicas[id].set), both);
    }
}

#[test]
fn two_rounds_share_among_neighbours() {
    shares_among_neighbours(RibltProtocol::new());
    shares_among_neighbours(StaticBfIbltProtocol::new());
    shares_among_neighbours(HybridRbfRibltProtocol::new());
}

#[test]
fn eager_forwarding_sketches_once_and_delivers_something() {
    let topology = Topology::tree(5);
    let mut replicas: Vec<Replica> =
        (0..5).map(|i| make_replica(i, &[7, 50 + i as u64])).collect();
    let mut protocol = MultiReplicaV2Protocol::new();
    let mut sketches: Vec<(usize, usize)> = Vec::new();
    for round in 0..6 {
        let mut network: Network<ProtocolMsg> = Network::from_topology(&topology);
        for id in 0..replicas.len() {
            let mut outbox = Outbox::for_replica(network, id);
            protocol.send_phase(replicas[id].view(), &topology, &mut outbox);
            network = outbox.into_network();
        }
        for id in 0..replicas.len() {
            let mut inbox = network.drain_inbox(id);
            for (from, msg) in inbox.iter_mut() {
                if msg.as_rateless_bloom_riblt().is_some() {
                    assert_eq!(round, 0);
                    sketches.push((*from, id));
                } else {
                    assert_eq!(msg.marker(), None);
                    let mut copy = Outbox::for_replica(Network::from_topology(&topology), *from);
                    let els = msg.take_elements().unwrap();
                    assert!(!els.is_empty());
                    copy.send_elements(id, els);
                    *msg = copy.into_network().drain_inbox(id).pop().unwrap().1;
                }
            }
            let r = protocol.recv_phase(replicas[id].view(), &topology, &mut inbox);
            assert_eq!((r.metrics.encode_time, r.metrics.decode_time), (0, 0));
            assert_eq!(r.metrics.false_matches, 0);
            replicas[id].set = r.next_set;
        }
    }
    sketches.sort_unstable();
    let mut edges: Vec<(usize, usize)> = Vec::new();
    for a in 0..5 {
        for &b in topology.neighbors(a) {
            edges.push((a, b));
        }
    }
    edges.sort_unstable();
    assert_eq!(sketches, edges);
}
