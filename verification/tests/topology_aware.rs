use reconciliation_simulator::simulator::algorithms::multiparty_sketch::CELL_BYTES;
use reconciliation_simulator::simulator::protocols::topology_aware_cbf_riblt::{
    round_up_to_multiple, TopologyAwareCbfRibltProtocol,
};
use reconciliation_simulator::simulator::protocols::topology_aware_riblt::{
    recover_elements, run_riblt_loop, TopologyAwareRibltProtocol,
};
use reconciliation_simulator::simulator::replica::{Element, ElementSet, Replica};
use reconciliation_simulator::simulator::topology::Topology;
use std::collections::HashSet;

fn make_replica(id: usize, digests: &[u64]) -> Replica {
    let elements: Vec<Element> = digests.iter().map(|&d| Element::new(d, 4)).collect();
    Replica::new(id, ElementSet::from_elements(&elements))
}

fn digests_of(set: &ElementSet) -> HashSet<u64> {
    set.elements().iter().map(|e| e.digest).collect()
}

fn four_overlapping() -> Vec<Replica> {
    vec![
        make_replica(0, &[1, 2, 3]),
        make_replica(1, &[2, 3, 4]),
        make_replica(2, &[3, 4, 5]),
        make_replica(3, &[4, 5, 6]),
    ]
}

#[test]
fn star_converges_in_one_step() {
    let protocol = TopologyAwareCbfRibltProtocol::new();
    let topology = Topology::star(4);
    let replicas = four_overlapping();

    for replica_id in 0..4 {
        let result = protocol.step_replica(replica_id, &replicas, &topology);
        let digests = digests_of(&result.next_set);
        for d in 1u64..=6 {
            assert!(digests.contains(&d), "replica {replica_id} missing {d}");
        }
        assert_eq!(digests.len(), 6);
    }
}

#[test]
fn tree_converges_in_one_step() {
    let protocol = TopologyAwareCbfRibltProtocol::new();
    let topology = Topology::tree(4);

    let replicas = vec![
        make_replica(0, &[1, 2]),
        make_replica(1, &[2, 3]),
        make_replica(2, &[3, 4]),
        make_replica(3, &[4, 5]),
    ];

    for replica_id in 0..4 {
        let result = protocol.step_replica(replica_id, &replicas, &topology);
        let digests = digests_of(&result.next_set);
        for d in 1u64..=5 {
            assert!(digests.contains(&d), "replica {replica_id} missing {d}");
        }
    }
}

#[test]
fn chord_converges_in_one_step() {
    let protocol = TopologyAwareCbfRibltProtocol::new();
    let topology = Topology::chord(4);

    let replicas = vec![
        make_replica(0, &[10, 20]),
        make_replica(1, &[20, 30]),
        make_replica(2, &[30, 40]),
        make_replica(3, &[40, 10]),
    ];

    for replica_id in 0..4 {
        let result = protocol.step_replica(replica_id, &replicas, &topology);
        let digests = digests_of(&result.next_set);
        for d in [10u64, 20, 30, 40] {
            assert!(digests.contains(&d), "replica {replica_id} missing {d}");
        }
    }
}

#[test]
fn identical_replicas_unchanged() {
    let protocol = TopologyAwareCbfRibltProtocol::new();
    let topology = Topology::star(2);

    let replicas = vec![make_replica(0, &[1, 2, 3]), make_replica(1, &[1, 2, 3])];

    let before = replicas[0].view().snapshot_set();
    let after = protocol.step_replica(0, &replicas, &topology).next_set;
    assert_eq!(before, after);
}

#[test]
fn keeps_existing_local_elements() {
    let protocol = TopologyAwareCbfRibltProtocol::new();
    let topology = Topology::star(3);

    let replicas = vec![
        make_replica(0, &[1, 2]),
        make_replica(1, &[2, 3]),
        make_replica(2, &[3, 4]),
    ];

    let result = protocol.step_replica(0, &replicas, &topology);
    let digests = digests_of(&result.next_set);
    assert!(digests.contains(&1));
    assert!(digests.contains(&2));
    assert!(digests.contains(&3));
    assert!(digests.contains(&4));
}

#[test]
fn metadata_bytes_exceeds_pure_riblt() {
    let protocol = TopologyAwareCbfRibltProtocol::new();
    let topology = Topology::star(3);

    let replicas = vec![
        make_replica(0, &[1, 2, 3]),
        make_replica(1, &[2, 3, 4]),
        make_replica(2, &[3, 4, 5]),
    ];

    let result = protocol.step_replica(0, &replicas, &topology);
    let num_neighbors = topology.neighbors(0).len();
    // The minimum pure RIBLT cost would be num_neighbors * cells_per_increment * CELL_BYTES.
    // With CBF overhead, metadata_bytes must be strictly greater.
    let min_pure_riblt = num_neighbors * 1024 * CELL_BYTES;
    assert!(
        result.metrics.metadata_bytes > min_pure_riblt,
        "expected CBF overhead: metadata_bytes={} <= min_pure_riblt={}",
        result.metrics.metadata_bytes,
        min_pure_riblt
    );
    assert_eq!(result.metrics.metadata_bytes, 2 * (64 * 4 + 1024 * CELL_BYTES));
    assert_eq!(result.metrics.state_bytes, 0);
}

#[test]
fn topology_aware_star_converges_in_one_step() {
    let protocol = TopologyAwareRibltProtocol::new();
    let topology = Topology::star(4);
    let replicas = four_overlapping();

    for replica_id in 0..4 {
        let result = protocol.step_replica(replica_id, &replicas, &topology);
        let digests = digests_of(&result.next_set);
        for d in 1u64..=6 {
            assert!(digests.contains(&d), "replica {replica_id} missing {d}");
        }
        assert_eq!(digests.len(), 6);
    }
}

#[test]
fn topology_aware_tree_converges_in_one_step() {
    let protocol = TopologyAwareRibltProtocol::new();
    let topology = Topology::tree(4);

    let replicas = vec![
        make_replica(0, &[1, 2]),
        make_replica(1, &[2, 3]),
        make_replica(2, &[3, 4]),
        make_replica(3, &[4, 5]),
    ];

    for replica_id in 0..4 {
        let result = protocol.step_replica(replica_id, &replicas, &topology);
        let digests = digests_of(&result.next_set);
        for d in 1u64..=5 {
            assert!(digests.contains(&d), "replica {replica_id} missing {d}");
        }
    }
}

#[test]
fn topology_aware_chord_converges_in_one_step() {
    let protocol = TopologyAwareRibltProtocol::new();
    let topology = Topology::chord(4);

    let replicas = vec![
        make_replica(0, &[10, 20]),
        make_replica(1, &[20, 30]),
        make_replica(2, &[30, 40]),
        make_replica(3, &[40, 10]),
    ];

    for replica_id in 0..4 {
        let result = protocol.step_replica(replica_id, &replicas, &topology);
        let digests = digests_of(&result.next_set);
        for d in [10u64, 20, 30, 40] {
            assert!(digests.contains(&d), "replica {replica_id} missing {d}");
        }
    }
}

#[test]
fn topology_aware_identical_replicas_unchanged() {
    let protocol = TopologyAwareRibltProtocol::new();
    let topology = Topology::star(2);

    let replicas = vec![make_replica(0, &[1, 2, 3]), make_replica(1, &[1, 2, 3])];

    let before = replicas[0].view().snapshot_set();
    let after = protocol.step_replica(0, &replicas, &topology).next_set;
    assert_eq!(before, after);
}

#[test]
fn topology_aware_keeps_existing_local_elements() {
    let protocol = TopologyAwareRibltProtocol::new();
    let topology = Topology::star(3);

    let replicas = vec![
        make_replica(0, &[1, 2]),
        make_replica(1, &[2, 3]),
        make_replica(2, &[3, 4]),
    ];

    let result = protocol.step_replica(0, &replicas, &topology);
    let digests = digests_of(&result.next_set);
    assert!(digests.contains(&1));
    assert!(digests.contains(&2));
    assert!(digests.contains(&3));
    assert!(digests.contains(&4));
}

#[test]
fn topology_aware_reports_metadata_bytes() {
    let protocol = TopologyAwareRibltProtocol::new();
    let topology = Topology::star(3);

    let replicas = vec![
        make_replica(0, &[1, 2, 3]),
        make_replica(1, &[2, 3, 4]),
        make_replica(2, &[3, 4, 5]),
    ];

    let result = protocol.step_replica(0, &replicas, &topology);
    assert!(result.metrics.metadata_bytes > 0);
    assert_eq!(result.metrics.metadata_bytes, 2 * 1024 * CELL_BYTES);
}

#[test]
fn sketches_grow_by_increments_until_they_decode() {
    let replicas = vec![make_replica(0, &[1]), make_replica(1, &[2, 3, 4, 5, 6, 7, 8, 9])];
    let end = run_riblt_loop(&replicas, 0, 1, 1, 0);
    assert!(end.final_sketch_size > 1);
    let mut found = end.remote_only_f.clone();
    found.sort_unstable();
    assert_eq!(found, vec![2, 3, 4, 5, 6, 7, 8, 9]);
}

#[test]
fn growth_stops_at_the_limit() {
    let many: Vec<u64> = (2..400).collect();
    let replicas = vec![make_replica(0, &[1]), make_replica(1, &many)];
    let end = run_riblt_loop(&replicas, 0, 1, 1, 0);
    assert_eq!(end.final_sketch_size, 200);
    assert!(end.remote_only_f.is_empty());
    let end = run_riblt_loop(&replicas, 0, 7, 0, 0);
    assert_eq!(end.final_sketch_size, 7);
}

#[test]
fn recovery_takes_the_first_holder() {
    let replicas = vec![
        Replica::new(0, ElementSet::from_elements(&vec![Element::new(1, 4)])),
        Replica::new(1, ElementSet::from_elements(&vec![Element::new(5, 9)])),
        Replica::new(2, ElementSet::from_elements(&vec![Element::new(5, 3)])),
    ];
    let mut set = replicas[0].view().snapshot_set();
    recover_elements(&vec![5, 77], &replicas, &mut set);
    assert_eq!(set.elements(), &vec![Element::new(1, 4), Element::new(5, 9)]);
}

#[test]
fn rounding_up() {
    assert_eq!(round_up_to_multiple(0, 1024), 0);
    assert_eq!(round_up_to_multiple(1, 1024), 1024);
    assert_eq!(round_up_to_multiple(1024, 1024), 1024);
    assert_eq!(round_up_to_multiple(1025, 1024), 2048);
}

#[test]
fn both_ways_of_sizing_give_the_union() {
    let topology = Topology::tree(4);
    let replicas = four_overlapping();
    for id in 0..4 {
        let plain = TopologyAwareRibltProtocol::new().step_replica(id, &replicas, &topology);
        let sized = TopologyAwareCbfRibltProtocol::new().step_replica(id, &replicas, &topology);
        assert_eq!(plain.next_set, sized.next_set);
        assert_eq!(digests_of(&plain.next_set), (1..7).collect::<HashSet<u64>>());
    }
}

#[test]
fn time_spent_before_is_included() {
    let replicas = vec![make_replica(0, &[1]), make_replica(1, &[2])];
    let end = run_riblt_loop(&replicas, 0, 4, 4, 1_000_000_000_000);
    assert!(end.encode_time >= 1_000_000_000_000);
    let end = run_riblt_loop(&replicas, 0, 4, 4, u128::MAX);
    assert_eq!(end.encode_time, u128::MAX);
}
