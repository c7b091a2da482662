use reconciliation_simulator::simulator::binary64::Double;
use reconciliation_simulator::simulator::engine::{
    RoundOutcome, RunStatus, Simulation, SimulationConfig,
};
use reconciliation_simulator::simulator::evaluation::{
    build_cells, create_run_entry, parse_config_path, ConfigPath, EvalConfig, EvalWorkload,
};
use reconciliation_simulator::simulator::export::{topology_name, RunSummaryRow, HEADER};
use reconciliation_simulator::simulator::protocols::ProtocolKind;
use reconciliation_simulator::simulator::replica::{Element, ElementSet, ReplicaPhase};
use reconciliation_simulator::simulator::runner::{BatchRunSummary, BatchRunnerConfig};
use reconciliation_simulator::simulator::topology::TopologyKind;
use reconciliation_simulator::simulator::workload::{DivergencePattern, Workload, WorkloadConfig};

const KINDS: [ProtocolKind; 5] = [
    ProtocolKind::FullStateTransfer,
    ProtocolKind::Riblt,
    ProtocolKind::StaticBfIblt,
    ProtocolKind::HybridRbfRiblt,
    ProtocolKind::MultiReplica,
];

const TOPOLOGIES: [TopologyKind; 3] =
    [TopologyKind::Star, TopologyKind::Tree, TopologyKind::Chord];

fn double(x: f64) -> Double {
    Double { bits: x.to_bits() }
}

fn config(protocol: ProtocolKind, topology: TopologyKind) -> SimulationConfig {
    SimulationConfig {
        round_cap: 60,
        seed: 7,
        topology,
        protocol,
        workload: WorkloadConfig {
            num_replicas: 6,
            set_size: 20,
            payload_size: 32,
            digest_bits: 64,
            jaccard_similarity: double(0.5),
            pattern: DivergencePattern::Uniform,
            seed: 7,
            universe_size: 200,
            zipf_exponent: double(1.0),
            cluster_count: None,
            jaccard_inter: None,
            jaccard_intra: None,
        },
    }
}

fn workload(c: &SimulationConfig) -> Workload {
    let draws: Vec<usize> = (0..20_000usize).map(|i| (i * i + 7 * i + i / 13) % 199).collect();
    Workload::generate(&c.workload, &draws).unwrap()
}

#[test]
fn every_protocol_converges_on_every_topology() {
    for protocol in KINDS {
        for topology in TOPOLOGIES {
            if protocol == ProtocolKind::MultiReplica && topology != TopologyKind::Star {
                continue;
            }
            let c = config(protocol, topology);
            let mut sim = Simulation::new(c, workload(&c));
            assert_eq!(sim.protocol(), protocol);
            assert_eq!(sim.topology().kind(), topology);
            let result = sim.run();
            assert!(result.converged, "{protocol:?} on {topology:?}");
            assert_eq!(result.status, RunStatus::Converged);
            assert_eq!(result.rounds, sim.current_round());
            assert_eq!(result.num_replicas, 6);
            assert_eq!(result.protocol, protocol);
            assert_eq!(result.topology, topology);
            for r in sim.replicas() {
                assert_eq!(r.phase, ReplicaPhase::Converged);
                assert_eq!(&r.set, sim.target_union());
            }
            let m = &result.metrics;
            assert_eq!(m.rounds, result.rounds);
            assert_eq!(
                m.total_elements_added,
                6 * sim.target_union().len() - 6 * 20
            );
            let sent: usize = m.per_node.iter().map(|n| n.state_bytes_sent).sum();
            assert_eq!(sent, m.total_state_bytes_sent);
            if protocol == ProtocolKind::FullStateTransfer {
                assert_eq!(m.total_metadata_bytes_sent, 0);
            } else {
                assert!(m.total_metadata_bytes_sent > 0);
            }
        }
    }
}

#[test]
fn coarse_filters_may_hide_elements_for_good() {
    // The filter of an unchanged set hides the same elements in every round, so a run over
    // coarse filters can stand still. It never loses or invents an element.
    for topology in [TopologyKind::Tree, TopologyKind::Chord] {
        let c = config(ProtocolKind::MultiReplica, topology);
        let w = workload(&c);
        let initial = w.replica_sets.clone();
        let mut sim = Simulation::new(c, w);
        let result = sim.run();
        assert!(result.converged || result.rounds == 60);
        for (r, before) in sim.replicas().iter().zip(&initial) {
            assert!(r.set.len() > before.len());
            assert_eq!(before.count_missing_from(&r.set), 0);
            assert_eq!(r.set.count_missing_from(sim.target_union()), 0);
        }
    }
}

#[test]
fn full_transfer_on_a_star_takes_two_rounds() {
    let c = config(ProtocolKind::FullStateTransfer, TopologyKind::Star);
    let w = workload(&c);
    let mut sim = Simulation::new(c, w);
    assert_eq!(sim.step(), RoundOutcome::Continue);
    assert_eq!(&sim.replicas()[0].set, sim.target_union());
    assert!(!sim.has_converged());
    assert_eq!(sim.replicas()[0].phase, ReplicaPhase::Active);
    let leaf = sim.replicas()[3].set.len();
    assert_eq!(sim.step(), RoundOutcome::Converged);
    assert!(sim.has_converged());
    // The hub sends its set to five leaves, each leaf to the hub.
    let hub = &sim.replicas()[0].stats;
    let union = sim.target_union().len();
    assert_eq!(hub.state_bytes_sent, 5 * 20 * 40 + 5 * union * 40);
    assert_eq!(sim.replicas()[3].stats.state_bytes_sent, 20 * 40 + leaf * 40);
}

#[test]
fn converged_replicas_need_no_round() {
    let set = ElementSet::from_elements(&vec![Element::new(1, 1), Element::new(2, 1)]);
    let w = Workload {
        replica_sets: vec![set.clone(), set.clone(), set.clone()],
        target_union: set,
    };
    let mut sim = Simulation::new(config(ProtocolKind::Riblt, TopologyKind::Tree), w);
    let result = sim.run();
    assert!(result.converged);
    assert_eq!(result.rounds, 0);
    assert_eq!(result.metrics.total_bytes_sent(), 0);
}

#[test]
fn runs_are_given_up_at_the_cap() {
    let mut c = config(ProtocolKind::FullStateTransfer, TopologyKind::Tree);
    c.round_cap = 1;
    let mut sim = Simulation::new(c, workload(&c));
    let result = sim.run();
    assert!(!result.converged);
    assert_eq!(result.status, RunStatus::RoundCapReached);
    assert_eq!(result.rounds, 1);
    assert_eq!(sim.step(), RoundOutcome::RoundCapReached);
    assert_eq!(sim.current_round(), 1);

    c.round_cap = 0;
    let mut sim = Simulation::new(c, workload(&c));
    assert_eq!(sim.run().rounds, 0);
    assert_eq!(sim.replicas()[0].phase, ReplicaPhase::Idle);
}

#[test]
fn convergence_lasts() {
    for protocol in KINDS {
        let mut c = config(protocol, TopologyKind::Star);
        c.round_cap = 80;
        let mut sim = Simulation::new(c, workload(&c));
        let rounds = sim.run().rounds;
        for _ in 0..4 {
            assert_eq!(sim.step(), RoundOutcome::Converged);
            for r in sim.replicas() {
                assert_eq!(&r.set, sim.target_union());
            }
        }
        assert_eq!(sim.current_round(), rounds + 4);
        if protocol != ProtocolKind::FullStateTransfer {
            let before: Vec<usize> =
                sim.replicas().iter().map(|r| r.stats.state_bytes_sent).collect();
            assert_eq!(sim.step(), RoundOutcome::Converged);
            for (r, b) in sim.replicas().iter().zip(before) {
                assert_eq!(r.stats.state_bytes_sent, b);
            }
        }
    }
}

#[test]
fn full_transfer_converges_within_the_diameter() {
    for (topology, diameter) in
        [(TopologyKind::Star, 2), (TopologyKind::Tree, 4), (TopologyKind::Chord, 3)]
    {
        let c = config(ProtocolKind::FullStateTransfer, topology);
        let mut sim = Simulation::new(c, workload(&c));
        let result = sim.run();
        assert!(result.converged);
        assert!(result.rounds <= diameter);
    }
}

#[test]
fn runs_repeat_exactly() {
    for protocol in KINDS {
        let c = config(protocol, TopologyKind::Chord);
        let a = Simulation::new(c, workload(&c)).run();
        let b = Simulation::new(c, workload(&c)).run();
        assert_eq!(a.rounds, b.rounds);
        assert_eq!(a.metrics.total_bytes_sent(), b.metrics.total_bytes_sent());
    }
}

#[test]
fn rows_list_parameters_and_results() {
    let c = config(ProtocolKind::FullStateTransfer, TopologyKind::Star);
    let mut sim = Simulation::new(c, workload(&c));
    let result = sim.run();
    let union = sim.target_union().len();
    let row = RunSummaryRow::from_run(&c, &result, union, format!("{}", 0.5f64));
    let line = row.to_csv_row();
    let expected = format!(
        "FullStateTransfer,Star,6,20,32,64,0.5,Uniform,7,60,2,true,{},{},0,{},{},{}",
        union,
        result.metrics.total_state_bytes_sent,
        result.metrics.total_encode_time,
        result.metrics.total_decode_time,
        result.metrics.total_elements_added
    );
    assert_eq!(line, expected);
    assert_eq!(line.split(',').count(), HEADER.split(',').count());
    assert_eq!(RunSummaryRow::csv_header(), HEADER);
    assert_eq!(row.csv_lines(true), vec![HEADER.to_string(), line.clone()]);
    assert_eq!(row.csv_lines(false), vec![line]);
    for t in TOPOLOGIES {
        assert_eq!(topology_name(t), format!("{t:?}"));
    }
}

#[test]
fn batches_cover_every_combination_in_order() {
    let b = BatchRunnerConfig::baseline("out.csv".to_string());
    let plan = b.plan();
    assert_eq!(plan.len(), 2 * 3 * 5 * 10);
    let mut at = 0;
    for p in [ProtocolKind::FullStateTransfer, ProtocolKind::Riblt] {
        for t in TOPOLOGIES {
            for d in [0.001f64, 0.01, 0.05, 0.1, 0.2] {
                for seed in 0..10u64 {
                    let run = &plan[at];
                    assert_eq!(run.protocol, p);
                    assert_eq!(run.topology, t);
                    assert_eq!(run.workload.jaccard_similarity, double(d));
                    assert_eq!(run.seed, seed);
                    assert_eq!(run.workload.seed, seed);
                    assert_eq!(run.workload.set_size, 10_000);
                    at += 1;
                }
            }
        }
    }
    assert_eq!(b.output_path, "out.csv");
}

#[test]
fn batch_summaries_count_both_ways() {
    let mut s = BatchRunSummary::default();
    s.record(true);
    s.record(false);
    s.record(true);
    assert_eq!(
        s,
        BatchRunSummary { total_runs: 3, converged_runs: 2, non_converged_runs: 1 }
    );
}

fn args(list: &[&str]) -> Vec<String> {
    list.iter().map(|s| s.to_string()).collect()
}

#[test]
fn config_paths_follow_their_flag() {
    match parse_config_path(&args(&["eval", "x", "--config", "a.toml", "--config", "b"])) {
        ConfigPath::Path(p) => assert_eq!(p, "a.toml"),
        other => panic!("{other:?}"),
    }
    assert!(matches!(parse_config_path(&args(&["eval", "--config"])), ConfigPath::MissingPath));
    assert!(matches!(parse_config_path(&args(&["--config", "a"])), ConfigPath::Usage));
    assert!(matches!(parse_config_path(&args(&[])), ConfigPath::Usage));
}

fn eval_config() -> EvalConfig {
    EvalConfig {
        protocol: ProtocolKind::FullStateTransfer,
        topologies: vec![TopologyKind::Star, TopologyKind::Tree],
        seeds: vec![1, 2],
        jaccard_similarities: vec![double(0.25), double(0.75)],
        num_replicas: vec![3, 4],
        round_cap: 9,
        workload: EvalWorkload {
            set_size: 8,
            payload_size: 2,
            digest_bits: 64,
            pattern: DivergencePattern::Uniform,
            universe_size: 60,
            zipf_exponent: double(1.0),
            seed: 5,
            cluster_count: None,
            jaccard_inter: None,
            jaccard_intra: None,
        },
    }
}

#[test]
fn evaluations_group_runs_into_cells() {
    let e = eval_config();
    let plan = e.plan();
    assert_eq!(plan.len(), 16);
    assert_eq!(plan[0].config.workload.num_replicas, 3);
    assert_eq!(plan[8].config.workload.num_replicas, 4);
    assert_eq!(plan[4].config.topology, TopologyKind::Tree);
    assert_eq!(plan[2].similarity, 1);
    assert_eq!(plan[1].config.seed, 2);
    assert_eq!(plan[1].config.workload.seed, 5);
    let draws: Vec<usize> = (0..3000usize).map(|i| (i * i + i) % 59).collect();
    let runs: Vec<_> = plan
        .iter()
        .map(|p| {
            let w = Workload::generate(&p.config.workload, &draws).unwrap();
            let result = Simulation::new(p.config, w).run();
            let entry = create_run_entry(p, &result);
            assert_eq!(entry.total_bytes_sent, entry.state_bytes_sent + entry.metadata_bytes_sent);
            entry
        })
        .collect();
    let near = vec![vec![true, false], vec![false, true]];
    let cells = build_cells(&runs, &near, &e.topologies, 2, &e.num_replicas);
    for (t, kind) in e.topologies.iter().enumerate() {
        for j in 0..2 {
            for (n, size) in e.num_replicas.iter().enumerate() {
                let c = &cells[t][j][n];
                assert_eq!(c.topology, *kind);
                assert_eq!(c.similarity, j);
                assert_eq!(c.num_replicas, *size);
                assert_eq!(c.runs.len(), 2);
                assert!(c.all_converged);
                for &r in &c.runs {
                    assert_eq!(runs[r].topology, *kind);
                    assert_eq!(runs[r].num_replicas, *size);
                    assert_eq!(runs[r].similarity, j);
                }
            }
        }
    }
    let merged = build_cells(&runs, &vec![vec![true, true], vec![true, true]], &e.topologies, 1, &e.num_replicas);
    assert_eq!(merged[0][0][0].runs.len(), 4);
}

#[test]
fn pairwise_sketches_need_few_rounds() {
    for protocol in [ProtocolKind::Riblt, ProtocolKind::StaticBfIblt, ProtocolKind::HybridRbfRiblt] {
        for topology in TOPOLOGIES {
            let c = config(protocol, topology);
            let mut sim = Simulation::new(c, workload(&c));
            let lacking: usize =
                sim.replicas().iter().map(|r| sim.target_union().len() - r.set.len()).sum();
            let result = sim.run();
            assert!(result.converged);
            assert!(result.rounds <= 3 * lacking, "{protocol:?} on {topology:?}");
        }
    }
}
