use reconciliation_simulator::simulator::metrics::MetricsSnapshot;
use reconciliation_simulator::simulator::replica::{
    Element, ElementSet, Replica, ReplicaPhase, ReplicaStats,
};

#[test]
fn elements_cost_digest_and_payload() {
    assert_eq!(Element::new(5, 0).wire_size(), 8);
    assert_eq!(Element::new(5, 32).wire_size(), 40);
}

#[test]
fn sets_keep_elements_once_and_in_order() {
    let mut s = ElementSet::new();
    assert!(s.insert(Element::new(5, 1)));
    assert!(s.insert(Element::new(3, 9)));
    assert!(s.insert(Element::new(5, 0)));
    assert!(!s.insert(Element::new(5, 1)));
    assert_eq!(s.len(), 3);
    assert_eq!(
        s.elements(),
        &vec![Element::new(3, 9), Element::new(5, 0), Element::new(5, 1)]
    );
    assert!(s.contains(&Element::new(5, 0)));
    assert!(!s.contains(&Element::new(3, 0)));
    assert_eq!(s.digest_list(), vec![3, 5, 5]);
    assert_eq!(s.to_list(), s.elements().clone());
}

#[test]
fn sets_are_equal_by_contents() {
    let a = ElementSet::from_elements(&vec![Element::new(1, 1), Element::new(2, 1)]);
    let mut b = ElementSet::from_elements(&vec![Element::new(2, 1)]);
    assert_ne!(a, b);
    assert_eq!(a.count_missing_from(&b), 1);
    assert_eq!(b.count_missing_from(&a), 0);
    b.insert_all(&vec![Element::new(2, 1), Element::new(1, 1)]);
    assert_eq!(a, b);
    assert_eq!(a.clone(), b);
}

#[test]
fn replicas_start_idle() {
    let mut r = Replica::new(4, ElementSet::from_elements(&vec![Element::new(1, 1)]));
    assert_eq!(r.phase, ReplicaPhase::Idle);
    assert_eq!(ReplicaPhase::default(), ReplicaPhase::Idle);
    assert_eq!(r.stats, ReplicaStats::default());
    assert_eq!(r.len(), 1);
    assert_eq!(r.view().id, 4);
    assert_eq!(r.view().snapshot_set(), r.set);
    r.set_phase(ReplicaPhase::Active);
    assert_eq!(r.phase, ReplicaPhase::Active);
}

#[test]
fn statistics_accumulate() {
    let mut s = ReplicaStats::default();
    s.record_state_bytes_sent(5);
    s.record_state_bytes_sent(6);
    s.record_metadata_bytes_sent(7);
    s.record_encode_time(8);
    s.record_decode_time(9);
    s.record_elements_added(10);
    assert_eq!(
        s,
        ReplicaStats {
            state_bytes_sent: 11,
            metadata_bytes_sent: 7,
            encode_time: 8,
            decode_time: 9,
            elements_added: 10,
        }
    );
}

#[test]
fn snapshots_sort_by_id_and_add_up() {
    let mut replicas = Vec::new();
    for (id, bytes) in [(2usize, 5usize), (0, 7), (1, 11)] {
        let mut r = Replica::new(id, ElementSet::new());
        r.stats.record_state_bytes_sent(bytes);
        r.stats.record_metadata_bytes_sent(10 * bytes);
        r.stats.record_elements_added(1);
        r.stats.record_encode_time(bytes as u128);
        r.stats.record_decode_time(2);
        replicas.push(r);
    }
    let m = MetricsSnapshot::from_replicas(&replicas, 3);
    assert_eq!(m.rounds, 3);
    assert_eq!(m.total_state_bytes_sent, 23);
    assert_eq!(m.total_metadata_bytes_sent, 230);
    assert_eq!(m.total_bytes_sent(), 253);
    assert_eq!(m.total_elements_added, 3);
    assert_eq!(m.total_encode_time, 23);
    assert_eq!(m.total_decode_time, 6);
    let ids: Vec<usize> = m.per_node.iter().map(|n| n.replica_id).collect();
    assert_eq!(ids, vec![0, 1, 2]);
    let bytes: Vec<usize> = m.per_node.iter().map(|n| n.state_bytes_sent).collect();
    assert_eq!(bytes, vec![7, 11, 5]);
}
