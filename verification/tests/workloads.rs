use reconciliation_simulator::simulator::binary64::Double;
use reconciliation_simulator::simulator::replica::{Element, ElementSet};
use reconciliation_simulator::simulator::workload::{
    build_universe, deterministic_payload, jaccard_to_common_size, make_element, masked_digest,
    sample_unique_zipf, validate_config, ConfigError, DivergencePattern, Workload, WorkloadConfig,
    WorkloadError,
};
use rand::rngs::StdRng;
use rand::{Rng, SeedableRng};
use std::hash::{DefaultHasher, Hash, Hasher};

fn double(x: f64) -> Double {
    Double { bits: x.to_bits() }
}

fn config() -> WorkloadConfig {
    WorkloadConfig {
        num_replicas: 3,
        set_size: 10,
        payload_size: 32,
        digest_bits: 64,
        jaccard_similarity: double(0.5),
        pattern: DivergencePattern::Uniform,
        seed: 42,
        universe_size: 100,
        zipf_exponent: double(1.0),
        cluster_count: None,
        jaccard_inter: None,
        jaccard_intra: None,
    }
}

fn clustered() -> WorkloadConfig {
    WorkloadConfig {
        pattern: DivergencePattern::Clustered,
        num_replicas: 5,
        cluster_count: Some(2),
        jaccard_inter: Some(double(0.25)),
        jaccard_intra: Some(double(0.5)),
        ..config()
    }
}

#[test]
fn every_fault_has_its_error() {
    assert_eq!(validate_config(&config()), Ok(()));
    assert_eq!(validate_config(&clustered()), Ok(()));
    let faults = [
        (WorkloadConfig { num_replicas: 0, ..config() }, ConfigError::NoReplicas),
        (WorkloadConfig { set_size: 0, ..config() }, ConfigError::EmptySets),
        (WorkloadConfig { digest_bits: 0, ..config() }, ConfigError::DigestBits),
        (WorkloadConfig { digest_bits: 65, ..config() }, ConfigError::DigestBits),
        (WorkloadConfig { jaccard_similarity: double(1.5), ..config() }, ConfigError::JaccardSimilarity),
        (WorkloadConfig { jaccard_similarity: double(f64::NAN), ..config() }, ConfigError::JaccardSimilarity),
        (WorkloadConfig { universe_size: 9, ..config() }, ConfigError::SmallUniverse),
        (WorkloadConfig { zipf_exponent: double(0.0), ..config() }, ConfigError::ZipfExponent),
        (WorkloadConfig { cluster_count: None, ..clustered() }, ConfigError::MissingClusterCount),
        (WorkloadConfig { jaccard_inter: None, ..clustered() }, ConfigError::MissingJaccardInter),
        (WorkloadConfig { jaccard_intra: None, ..clustered() }, ConfigError::MissingJaccardIntra),
        (WorkloadConfig { cluster_count: Some(0), ..clustered() }, ConfigError::NoClusters),
        (WorkloadConfig { cluster_count: Some(6), ..clustered() }, ConfigError::TooManyClusters),
        (WorkloadConfig { jaccard_intra: Some(double(2.0)), ..clustered() }, ConfigError::JaccardIntra),
        (WorkloadConfig { jaccard_inter: Some(double(-1.0)), ..clustered() }, ConfigError::JaccardInter),
        (WorkloadConfig { jaccard_inter: Some(double(0.75)), ..clustered() }, ConfigError::IntraBelowInter),
    ];
    for (c, e) in faults {
        assert_eq!(validate_config(&c), Err(e));
        assert_eq!(Workload::generate(&c, &vec![]).err(), Some(WorkloadError::Config(e)));
    }
    assert_eq!(ConfigError::NoReplicas.message(), "num_replicas must be > 0");
    assert_eq!(ConfigError::JaccardInter.message(), "jaccard_inter must be in [0, 1]");
}

#[test]
fn common_sizes_follow_the_formula() {
    let similarities = [0.0f64, -0.0, 0.1, 0.25, 1.0 / 3.0, 0.5, 0.75, 0.999, 1.0, 1e-320];
    let others = [
        -0.5f64,
        -1.0,
        -1.0 - f64::EPSILON,
        -1.5,
        -3.0,
        -9007199254740991.0,
        -9007199254740992.0,
        -9007199254740994.0,
        -9007199254740996.0,
        -18014398509481984.0,
        -1e30,
        -1e300,
        -f64::MAX,
        2.0,
        1e30,
        1e300,
        f64::MAX,
        f64::INFINITY,
        -f64::INFINITY,
        f64::NAN,
    ];
    for &j in similarities.iter().chain(&others) {
        for &n in &[0usize, 1, 7, 100, 10_000, 1_000_003, 1 << 40, usize::MAX] {
            let expected = (2.0 * n as f64 * j / (1.0 + j)).round() as usize;
            assert_eq!(jaccard_to_common_size(double(j), n), expected, "{j} of {n}");
        }
    }
    assert_eq!(jaccard_to_common_size(double(0.5), 10_000), 6_667);
}

#[test]
fn digests_are_masked_hashes() {
    let mut h = DefaultHasher::new();
    17u64.hash(&mut h);
    let raw = h.finish();
    assert_eq!(masked_digest(17, 64), raw);
    assert_eq!(masked_digest(17, 63), raw & (u64::MAX >> 1));
    assert_eq!(masked_digest(17, 8), raw & 0xff);
    assert_eq!(masked_digest(17, 0), 0);
    assert_eq!(make_element(17, 5, 8), Element::new(raw & 0xff, 5));
}

#[test]
fn payloads_are_seeded_by_id_and_padding() {
    let mut h = DefaultHasher::new();
    9u64.hash(&mut h);
    "payloadPadding".hash(&mut h);
    let mut rng = StdRng::seed_from_u64(h.finish());
    let mut expected = vec![0u8; 37];
    rng.fill_bytes(&mut expected);
    assert_eq!(deterministic_payload(9, 37), expected);
}

#[test]
fn universes_list_all_ids() {
    let u = build_universe(&config());
    assert_eq!(u.len(), 100);
    for (id, e) in u.iter().enumerate() {
        assert_eq!(*e, make_element(id, 32, 64));
    }
}

#[test]
fn sampling_skips_repeats_and_excluded() {
    let u = build_universe(&config());
    let exclude = ElementSet::from_elements(&vec![u[1]]);
    let draws = vec![1, 0, 0, 1, 2, 3, 4];
    let (set, next) = sample_unique_zipf(&u, &draws, 0, 3, &exclude).unwrap();
    assert_eq!(set, ElementSet::from_elements(&vec![u[0], u[2], u[3]]));
    assert_eq!(next, 6);
    let (set, next) = sample_unique_zipf(&u, &draws, 5, 0, &exclude).unwrap();
    assert_eq!(set.len(), 0);
    assert_eq!(next, 5);
    assert_eq!(
        sample_unique_zipf(&u, &draws, 0, 5, &exclude).err(),
        Some(WorkloadError::DrawsExhausted)
    );
    assert_eq!(
        sample_unique_zipf(&u, &vec![100], 0, 1, &exclude).err(),
        Some(WorkloadError::DrawOutOfRange)
    );
    assert_eq!(
        sample_unique_zipf(&u, &draws, 0, 100, &exclude).err(),
        Some(WorkloadError::NotEnoughElements { wanted: 100, available: 99 })
    );
}

fn many_draws() -> Vec<usize> {
    (0..4000usize).map(|i| (i * i + 3 * i) % 97).collect()
}

#[test]
fn uniform_sets_share_the_common_part() {
    let w = Workload::generate(&config(), &many_draws()).unwrap();
    assert_eq!(w.replica_sets.len(), 3);
    let common = jaccard_to_common_size(double(0.5), 10);
    let mut shared = w.replica_sets[0].to_list();
    for set in &w.replica_sets {
        assert_eq!(set.len(), 10);
        shared.retain(|e| set.contains(e));
        for e in set.elements() {
            assert!(w.target_union.contains(e));
        }
    }
    assert_eq!(shared.len(), common);
    for i in 0..3 {
        for k in 0..3 {
            if i != k {
                let apart = w.replica_sets[i].count_missing_from(&w.replica_sets[k]);
                assert_eq!(10 - apart, common);
            }
        }
    }
    assert_eq!(w.target_union.len(), common + 3 * (10 - common));
    for e in w.target_union.elements() {
        assert!(w.replica_sets.iter().any(|s| s.contains(e)));
    }
}

#[test]
fn clustered_sets_are_built_on_their_cluster() {
    let w = Workload::generate(&clustered(), &many_draws()).unwrap();
    assert_eq!(w.replica_sets.len(), 5);
    let inter = jaccard_to_common_size(double(0.25), 10);
    let intra = jaccard_to_common_size(double(0.5), 10);
    let overlap = |a: usize, b: usize| {
        10 - w.replica_sets[a].count_missing_from(&w.replica_sets[b])
    };
    for i in 0..5 {
        assert_eq!(w.replica_sets[i].len(), 10);
        for k in 0..5 {
            if i == k {
                continue;
            }
            if i % 2 == k % 2 {
                assert_eq!(overlap(i, k), intra);
            } else {
                assert_eq!(overlap(i, k), inter);
            }
        }
    }
}

#[test]
fn generation_reports_missing_draws() {
    assert_eq!(
        Workload::generate(&config(), &vec![0, 1, 2]).err(),
        Some(WorkloadError::DrawsExhausted)
    );
    let tight = WorkloadConfig { universe_size: 30, jaccard_similarity: double(0.0), ..config() };
    let draws: Vec<usize> = (0..30).cycle().take(500).collect();
    assert!(Workload::generate(&tight, &draws).is_ok());
    let short = WorkloadConfig { universe_size: 29, ..tight };
    let draws: Vec<usize> = (0..29).cycle().take(500).collect();
    assert_eq!(
        Workload::generate(&short, &draws).err(),
        Some(WorkloadError::NotEnoughElements { wanted: 10, available: 9 })
    );
    let huge = WorkloadConfig {
        set_size: (1 << 53) + 1,
        universe_size: usize::MAX,
        ..config()
    };
    assert_eq!(validate_config(&huge), Ok(()));
}

#[test]
fn drawn_elements_are_handed_out_once() {
    let c = WorkloadConfig {
        num_replicas: 2,
        set_size: 1,
        universe_size: 3,
        jaccard_similarity: double(0.0),
        ..config()
    };
    let w = Workload::generate(&c, &vec![0, 0, 2]).unwrap();
    let u = build_universe(&c);
    assert_eq!(w.replica_sets[0], ElementSet::from_elements(&vec![u[0]]));
    assert_eq!(w.replica_sets[1], ElementSet::from_elements(&vec![u[2]]));
}

#[test]
fn draws_in_turn_suffice() {
    let uniform = WorkloadConfig { universe_size: 40, ..config() };
    let draws: Vec<usize> = (0..40).cycle().take(4 * 40).collect();
    let w = Workload::generate(&uniform, &draws).unwrap();
    let clusters = WorkloadConfig { universe_size: 60, ..clustered() };
    let longer: Vec<usize> = (0..60).cycle().take(8 * 60).collect();
    let v = Workload::generate(&clusters, &longer).unwrap();
    assert_eq!((w.replica_sets.len(), v.replica_sets.len()), (3, 5));

    let more: Vec<usize> = draws.iter().copied().chain(vec![7, 99, 3]).collect();
    let again = Workload::generate(&uniform, &more).unwrap();
    assert_eq!(again.replica_sets, w.replica_sets);
    assert_eq!(again.target_union, w.target_union);
}
