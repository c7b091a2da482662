use reconciliation_simulator::simulator::binary64::Double;
use reconciliation_simulator::simulator::algorithms::bloom::{BloomFilter, FalsePositiveRate};
use reconciliation_simulator::simulator::algorithms::rateless_bloom::RatelessBF;
use reconciliation_simulator::simulator::algorithms::riblt::RatelessIBLT;
use reconciliation_simulator::simulator::network::{Network, Outbox, ProtocolMsg, WireSized};
use reconciliation_simulator::simulator::protocols::messages;
use reconciliation_simulator::simulator::replica::Element;
use reconciliation_simulator::simulator::topology::Topology;

struct Dummy {
    s: u64,
    m: u64,
}

impl WireSized for Dummy {
    fn state_bytes(&self) -> u64 {
        self.s
    }

    fn metadata_bytes(&self) -> u64 {
        self.m
    }
}

#[test]
fn send_counts_state_bytes_only() {
    let topo = Topology::star(3);
    let mut net: Network<Dummy> = Network::from_topology(&topo);

    net.send(0, 1, Dummy { s: 100, m: 7 });
    net.send(0, 2, Dummy { s: 50, m: 3 });

    let st = net.stats();
    assert_eq!(st.bytes_state, 150);
    // Metadata is billed separately, post-recv.
    assert_eq!(st.bytes_metadata, 0);
    assert_eq!(st.per_node_state[0], 150);
}

#[test]
fn bill_metadata_post_recv_attributes_to_sender() {
    let topo = Topology::star(3);
    let mut net: Network<Dummy> = Network::from_topology(&topo);

    net.send(0, 1, Dummy { s: 0, m: 7 });
    net.send(0, 2, Dummy { s: 0, m: 3 });

    let inbox1 = net.drain_inbox(1);
    let inbox2 = net.drain_inbox(2);
    net.bill_metadata_post_recv(&inbox1);
    net.bill_metadata_post_recv(&inbox2);

    let st = net.stats();
    assert_eq!(st.bytes_metadata, 10);
    assert_eq!(st.per_node_metadata[0], 10);
}

#[test]
fn reset_clears_counters_and_inboxes() {
    let topo = Topology::star(2);
    let mut net: Network<Dummy> = Network::from_topology(&topo);
    net.send(0, 1, Dummy { s: 42, m: 9 });
    net.reset();
    let st = net.stats();
    assert_eq!(st.bytes_state, 0);
    assert_eq!(st.bytes_metadata, 0);
    assert_eq!(st.per_node_state[0], 0);
    assert!(net.drain_inbox(1).is_empty());
}

#[test]
fn only_neighbours_can_be_reached() {
    let net: Network<Dummy> = Network::from_topology(&Topology::tree(3));
    assert!(net.can_reach(0, 1));
    assert!(net.can_reach(2, 0));
    assert!(!net.can_reach(1, 2));
}

#[test]
fn inboxes_keep_the_order_of_arrival() {
    let topo = Topology::star(4);
    let mut net: Network<Dummy> = Network::from_topology(&topo);
    for (from, s) in [(2usize, 1u64), (1, 2), (3, 3)] {
        net.send(from, 0, Dummy { s, m: 0 });
    }
    let inbox = net.drain_inbox(0);
    let got: Vec<(usize, u64)> = inbox.iter().map(|(f, d)| (*f, d.s)).collect();
    assert_eq!(got, vec![(2, 1), (1, 2), (3, 3)]);
    assert!(net.drain_inbox(0).is_empty());
    let st = net.stats();
    assert_eq!(st.per_node_state, vec![0, 2, 1, 3]);
    assert_eq!(st.bytes_state, st.per_node_state.iter().sum::<u64>());
}

fn make_element(digest: u64, payload_len: usize) -> Element {
    Element::new(digest, payload_len)
}

#[test]
fn elements_variant_bills_only_state_bytes() {
    let msg = messages::ProtocolMsg::Elements(vec![make_element(1, 4), make_element(2, 10)]);
    let expected = (std::mem::size_of::<u64>() + 4 + std::mem::size_of::<u64>() + 10) as u64;
    assert_eq!(msg.state_bytes(), expected);
    assert_eq!(msg.metadata_bytes(), 0);
}

#[test]
fn riblt_sketch_bills_symbols_as_metadata() {
    let msg = messages::ProtocolMsg::RibltSketch {
        symbols: 12,
        digests: vec![],
        elements: vec![],
    };
    assert_eq!(msg.state_bytes(), 0);
    assert_eq!(msg.metadata_bytes(), 12 * std::mem::size_of::<u64>() as u64);
}

#[test]
fn bloom_filter_bills_bits_plus_header() {
    let msg = messages::ProtocolMsg::BloomFilter {
        bit_len: 128,
        digests: vec![],
        false_positive_rate: Double { bits: 0.01f64.to_bits() },
    };
    let expected_bytes = 16 + std::mem::size_of::<usize>() + std::mem::size_of::<u64>();
    assert_eq!(msg.metadata_bytes(), expected_bytes as u64);
    assert_eq!(msg.state_bytes(), 0);
}

#[test]
fn rateless_bloom_bills_byte_len_as_metadata() {
    let msg = messages::ProtocolMsg::RatelessBloom {
        byte_len: 77,
        digests: vec![],
        bloom_bits: 128,
    };
    assert_eq!(msg.metadata_bytes(), 77);
    assert_eq!(msg.state_bytes(), 0);
}

fn sent_by_node_0(send: fn(&mut Outbox)) -> (Network<ProtocolMsg>, ProtocolMsg) {
    let net: Network<ProtocolMsg> = Network::from_topology(&Topology::star(2));
    let mut outbox = Outbox::for_replica(net, 0);
    send(&mut outbox);
    let mut net = outbox.into_network();
    let mut inbox = net.drain_inbox(1);
    assert_eq!(inbox.len(), 1);
    let (from, msg) = inbox.pop().unwrap();
    assert_eq!(from, 0);
    (net, msg)
}

#[test]
fn element_messages_give_up_their_elements_once() {
    let (net, mut msg) =
        sent_by_node_0(|o| o.send_elements(1, vec![Element::new(3, 5), Element::new(4, 6)]));
    assert_eq!(net.stats().per_node_state, vec![8 + 5 + 8 + 6, 0]);
    assert!(msg.as_riblt().is_none());
    assert!(msg.as_bloom().is_none());
    assert_eq!(msg.take_elements(), Some(vec![Element::new(3, 5), Element::new(4, 6)]));
    assert_eq!(msg.take_elements(), Some(vec![]));
    assert_eq!(msg.metadata_bytes(), 0);
}

#[test]
fn coded_messages_cost_what_decoding_consumed() {
    let (net, mut msg) =
        sent_by_node_0(|o| o.send_riblt(1, RatelessIBLT::riblt_from(vec![1, 2, 3])));
    assert_eq!(net.stats().bytes_state, 0);
    assert_eq!(msg.metadata_bytes(), 0);
    assert!(msg.take_elements().is_none());
    let mut local = RatelessIBLT::riblt_from(vec![2, 3, 4]);
    let riblt = msg.as_riblt().unwrap();
    let n = riblt.decode_against(&mut local);
    assert_eq!(riblt.consumed_symbols(), n);
    assert_eq!(riblt.local_only(), vec![1]);
    assert_eq!(riblt.remote_only(), vec![4]);
    assert!(n > 0);
    assert_eq!(msg.metadata_bytes(), 8 * n as u64);
}

#[test]
fn filter_messages_cost_bits_and_header() {
    let (_, mut msg) = sent_by_node_0(|o| {
        let mut f: BloomFilter<u64> = BloomFilter::new(100, FalsePositiveRate::one_in_100());
        f.insert(&9);
        o.send_bloom(1, f)
    });
    let bloom = msg.as_bloom().unwrap();
    assert!(bloom.contains(&9));
    assert!(!bloom.contains(&10));
    // ceil(100 * 4.605 / 0.48045) = 959 bits
    assert_eq!(bloom.byte_len(), 120);
    assert_eq!(msg.metadata_bytes(), 120 + 8 + 8);
    assert!(msg.as_bloom_riblt().is_none());
}

#[test]
fn growing_messages_cost_their_slices() {
    let (_, mut msg) = sent_by_node_0(|o| o.send_rateless_bloom(1, RatelessBF::new(vec![1, 2], 80)));
    assert_eq!(msg.metadata_bytes(), 0);
    let r = msg.as_rateless_bloom().unwrap();
    assert_eq!(r.bits_per_filter(), 80);
    assert_eq!(r.source_size(), 2);
    assert!(msg.as_rateless_bloom_riblt().is_none());
}

#[test]
fn combined_messages_add_their_costs() {
    let (_, mut msg) = sent_by_node_0(|o| {
        let f: BloomFilter<u64> = BloomFilter::from_raw_parts(16, 1);
        o.send_bloom_riblt(1, f, RatelessIBLT::riblt_from(vec![1]))
    });
    assert_eq!(msg.metadata_bytes(), 2 + 8 + 8);
    {
        let (_, riblt) = msg.as_bloom_riblt().unwrap();
        let mut same = RatelessIBLT::riblt_from(vec![1]);
        assert_eq!(riblt.decode_against(&mut same), 1);
    }
    assert_eq!(msg.metadata_bytes(), 2 + 8 + 8 + 8);

    let (_, mut msg) = sent_by_node_0(|o| {
        o.send_rateless_bloom_riblt(1, RatelessBF::new(vec![1], 8), RatelessIBLT::riblt_from(vec![1]))
    });
    assert_eq!(msg.metadata_bytes(), 0);
    assert!(msg.as_rateless_bloom_riblt().is_some());
    assert!(msg.as_bloom_riblt().is_none());
}

#[test]
fn markers_are_billed_like_elements() {
    let (net, mut msg) =
        sent_by_node_0(|o| o.send_marked(1, vec![Element::new(3, 5)], Element::new(2, 0)));
    assert_eq!(net.stats().per_node_state, vec![8 + 5 + 8, 0]);
    assert_eq!(msg.marker(), Some(Element::new(2, 0)));
    assert_eq!(msg.metadata_bytes(), 0);
    assert_eq!(msg.take_elements(), Some(vec![Element::new(3, 5)]));
    assert_eq!(msg.marker(), Some(Element::new(2, 0)));
    let (net, msg) = sent_by_node_0(|o| o.send_marked(1, vec![], Element::new(0, 0)));
    assert_eq!(net.stats().bytes_state, 8);
    assert_eq!(msg.state_bytes(), 8);
    let (_, msg) = sent_by_node_0(|o| o.send_elements(1, vec![]));
    assert_eq!(msg.marker(), None);
    assert_eq!(msg.state_bytes(), 0);
}

#[test]
fn every_message_arrives_once() {
    let mut net: Network<Dummy> = Network::from_topology(&Topology::star(3));
    let taken = |net: &mut Network<Dummy>, node: usize| -> Vec<(usize, u64)> {
        net.drain_inbox(node).iter().map(|(f, d)| (*f, d.s)).collect()
    };
    net.send(1, 0, Dummy { s: 1, m: 0 });
    net.send(0, 2, Dummy { s: 2, m: 0 });
    net.send(2, 0, Dummy { s: 4, m: 0 });
    assert_eq!(taken(&mut net, 0), vec![(1, 1), (2, 4)]);
    assert_eq!(taken(&mut net, 0), vec![]);
    net.send(1, 0, Dummy { s: 8, m: 0 });
    net.send(1, 0, Dummy { s: 16, m: 0 });
    assert_eq!(taken(&mut net, 1), vec![]);
    assert_eq!(taken(&mut net, 0), vec![(1, 8), (1, 16)]);
    assert_eq!(taken(&mut net, 2), vec![(0, 2)]);
    let st = net.stats();
    assert_eq!(st.per_node_state, vec![2, 25, 4]);
    assert_eq!(st.bytes_state, 31);
    net.send(0, 1, Dummy { s: 32, m: 0 });
    net.reset();
    assert_eq!(taken(&mut net, 1), vec![]);
    net.send(2, 0, Dummy { s: 64, m: 5 });
    let inbox = net.drain_inbox(0);
    net.bill_metadata_post_recv(&inbox);
    net.bill_metadata_post_recv(&inbox);
    let st = net.stats();
    assert_eq!(st.per_node_state, vec![0, 0, 64]);
    assert_eq!(st.per_node_metadata, vec![0, 0, 10]);
    assert_eq!((st.bytes_state, st.bytes_metadata), (64, 10));
}
