use reconciliation_simulator::simulator::algorithms::bloom::{
    seeded_hashers, splitmix64, BloomFilter, FalsePositiveRate, SeededState,
};
use reconciliation_simulator::simulator::algorithms::rateless_bloom::expected_cost::ExpectedCostFactory;
use reconciliation_simulator::simulator::algorithms::rateless_bloom::{
    RatelessBF, StoppingStrategy, StoppingStrategyFactory,
};
use std::hash::{BuildHasher, DefaultHasher, Hasher};

fn rate(p: f64) -> FalsePositiveRate {
    FalsePositiveRate::from_neg_ln_bits((-p.ln()).to_bits()).unwrap()
}

#[test]
fn bloom_filter_membership_works() {
    let mut bloom: BloomFilter<str> = BloomFilter::new(100, rate(0.01));

    assert!(!bloom.contains("1"));
    assert!(!bloom.contains("2"));

    bloom.insert("1");

    assert!(bloom.contains("1"));
}

#[test]
fn bloom_filter_raw_parts_have_expected_sizes() {
    let bloom: BloomFilter<u64> = BloomFilter::from_raw_parts(128, 3);

    assert_eq!(bloom.bit_len(), 128);
    assert_eq!(bloom.byte_len(), 16);
    assert_eq!(bloom.hashes(), 3);
}

#[test]
fn sizes_follow_the_floating_point_formula() {
    for &p in &[0.01f64, 0.1, 0.13, 0.27, 0.31, 0.5, 0.999, 1e-9, 1e-300] {
        for &n in &[0usize, 1, 2, 3, 10, 100, 12_345, 100_000, 7_654_321] {
            let ln2 = std::f64::consts::LN_2;
            let m = ((-(n as f64) * p.ln() / (ln2 * ln2)).ceil() as usize).max(1);
            if m > 1 << 26 {
                continue;
            }
            let k = (-p.ln() / ln2).ceil() as u64;
            let bloom: BloomFilter<u64> = BloomFilter::new(n, rate(p));
            assert_eq!(bloom.bit_len(), m, "bits for {n} at {p}");
            assert_eq!(bloom.hashes(), k, "hashes at {p}");
        }
    }
}

#[test]
fn named_rates_have_their_logarithms() {
    let bits = |r: FalsePositiveRate| {
        let f: BloomFilter<u64> = BloomFilter::new(1_000_003, r);
        (f.bit_len(), f.hashes())
    };
    assert_eq!(bits(FalsePositiveRate::one_in_100()), bits(rate(0.01)));
    assert_eq!(bits(FalsePositiveRate::one_in_10()), bits(rate(0.1)));
    assert_eq!(bits(FalsePositiveRate::thirteen_in_100()), bits(rate(0.13)));
    assert_eq!(bits(FalsePositiveRate::twenty_seven_in_100()), bits(rate(0.27)));
    assert_eq!(bits(FalsePositiveRate::thirty_one_in_100()), bits(rate(0.31)));
    assert_eq!(FalsePositiveRate::one_in_100(), rate(0.01));
}

#[test]
fn rates_outside_the_open_interval_are_refused() {
    assert!(FalsePositiveRate::from_neg_ln_bits((-(1.0f64).ln()).to_bits()).is_none());
    assert!(FalsePositiveRate::from_neg_ln_bits((-(0.0f64).ln()).to_bits()).is_none());
    assert!(FalsePositiveRate::from_neg_ln_bits((-(2.0f64).ln()).to_bits()).is_none());
    assert!(FalsePositiveRate::from_neg_ln_bits(f64::NAN.to_bits()).is_none());
    let below_one = 1.0 - f64::EPSILON / 2.0;
    assert!(FalsePositiveRate::from_neg_ln_bits((-below_one.ln()).to_bits()).is_some());
    let least = f64::from_bits(1);
    assert!(FalsePositiveRate::from_neg_ln_bits((-least.ln()).to_bits()).is_some());
}

struct Seeded(u64);

impl BuildHasher for Seeded {
    type Hasher = DefaultHasher;

    fn build_hasher(&self) -> DefaultHasher {
        let mut h = DefaultHasher::new();
        h.write_u64(self.0);
        h
    }
}

#[test]
fn hashes_agree_with_a_seeded_build_hasher() {
    for seed in [0u64, 1, 42, u64::MAX] {
        for value in [0u64, 7, 1 << 40, u64::MAX] {
            assert_eq!(SeededState::new(seed).hash_one(&value), Seeded(seed).hash_one(value));
        }
        assert_eq!(SeededState::new(seed).hash_one("abc"), Seeded(seed).hash_one("abc"));
    }
}

#[test]
fn splitmix_matches_known_values() {
    assert_eq!(splitmix64(0), 0xE220_A839_7B1D_CDAF);
    assert_eq!(splitmix64(0x9E37_79B9_7F4A_7C15), 0x6E78_9E6A_A1B9_65F4);
}

#[test]
fn slices_have_their_own_hashers() {
    let a = seeded_hashers(0);
    let b = seeded_hashers(1);
    assert_ne!(a[0], a[1]);
    assert_ne!(a[0], b[0]);
    assert_ne!(a[1], b[1]);
    let plain: BloomFilter<u64> = BloomFilter::from_raw_parts(64, 2);
    assert_eq!(plain.hashers(), a);
}

#[test]
fn set_bits_are_those_of_double_hashing() {
    let mut f: BloomFilter<u64> = BloomFilter::from_raw_parts(97, 4);
    f.insert(&123);
    let hs = f.hashers();
    let (h0, h1) = (hs[0].hash_one(&123u64), hs[1].hash_one(&123u64));
    let mut expected = vec![false; 97];
    for i in 0..4u64 {
        expected[(h0.wrapping_add(i.wrapping_mul(h1)) % 97) as usize] = true;
    }
    let bits = f.bitslice();
    let got: Vec<bool> = (0..bits.len()).map(|i| bits.get(i)).collect();
    assert_eq!(got, expected);
}

#[test]
fn timed_operations_do_the_same_work() {
    let mut f: BloomFilter<u64> = BloomFilter::from_raw_parts(64, 3);
    f.timed_insert(&5);
    assert!(f.timed_contains(&5));
    assert!(f.contains(&5));
    let mut g: BloomFilter<u64> = BloomFilter::from_raw_parts(64, 3);
    g.insert(&5);
    for i in 0..64 {
        assert_eq!(f.bitslice().get(i), g.bitslice().get(i));
    }
    assert_eq!(g.t_enc(), 0);
    assert_eq!(g.t_dec(), 0);
}

#[test]
fn no_false_negatives() {
    let mut f: BloomFilter<u64> = BloomFilter::new(500, FalsePositiveRate::one_in_10());
    for d in 0..500u64 {
        f.insert(&(d * 7919));
    }
    for d in 0..500u64 {
        assert!(f.contains(&(d * 7919)));
    }
}

struct StopAfterN {
    n: usize,
}

impl StoppingStrategy<u64> for StopAfterN {
    type State = ();

    fn on_extend(&mut self, _bf: &mut RatelessBF<u64>) {}

    fn should_stop(&mut self, bf: &mut RatelessBF<u64>) -> Option<(Vec<u64>, Vec<u64>)> {
        if bf.len() >= self.n {
            Some((bf.data().to_vec(), Vec::new()))
        } else {
            None
        }
    }
}

#[test]
fn rateless_bf_extend_grows_number_of_filters() {
    let mut bf = RatelessBF::new(vec![1u64, 2, 3], 128);

    assert_eq!(bf.len(), 0);
    bf.extend();
    assert_eq!(bf.len(), 1);
    bf.extend();
    assert_eq!(bf.len(), 2);
}

#[test]
fn rateless_bf_contains_requires_all_filters_to_match() {
    let mut bf = RatelessBF::new(vec![1u64, 2, 3], 128);
    bf.extend();
    bf.extend();

    assert!(bf.contains(&1));
}

#[test]
fn rateless_bf_size_of_is_nonzero_after_extend() {
    let mut bf = RatelessBF::new(vec![1u64, 2, 3], 128);
    assert_eq!(bf.size_of(), 0);

    bf.extend();

    assert!(bf.size_of() > 0);
    assert_eq!(bf.size_of(), 16 + 8);
}

#[test]
fn rateless_bf_extend_until_stops() {
    let mut bf = RatelessBF::new(vec![1u64, 2, 3], 128);
    let strategy = StopAfterN { n: 3 };

    let (positives, negatives) = bf.extend_until(strategy);

    assert_eq!(bf.len(), 3);
    assert_eq!(positives, vec![1, 2, 3]);
    assert!(negatives.is_empty());
}

#[test]
fn rateless_bf_without_bits_gets_one() {
    let bf = RatelessBF::new(vec![1u64], 0);
    assert_eq!(bf.bits_per_filter(), 1);
    assert_eq!(bf.source_size(), 1);
    assert!(bf.is_empty());
    assert!(bf.contains(&99));
}

#[test]
fn slices_use_the_hashers_of_their_index() {
    let mut bf = RatelessBF::new(vec![1u64, 2, 3], 256);
    bf.extend();
    bf.extend();
    bf.extend_with_hashers(seeded_hashers(9));
    for (i, index) in [0u64, 1, 9].iter().enumerate() {
        assert_eq!(bf.filters()[i].hashers(), seeded_hashers(*index));
    }
}

#[test]
fn expected_cost_splits_without_losing_anything() {
    let common: Vec<u64> = (0..400).collect();
    let local: Vec<u64> = (200..600).collect();
    let mut bf = RatelessBF::new(common, 400);
    let factory = ExpectedCostFactory::new();
    assert_eq!(factory.print_name(), "ExpectedCost");
    let (maybe, missing) = bf.extend_until(factory.create(local.clone(), 400));
    let mut all = maybe.clone();
    all.extend(missing.iter().copied());
    all.sort_unstable();
    assert_eq!(all, local);
    for d in 200..400u64 {
        assert!(maybe.contains(&d));
    }
    for d in &missing {
        assert!(*d >= 400);
    }
    assert!(!missing.is_empty());
}

#[test]
fn strategies_have_names() {
    let f = ExpectedCostFactory::new();
    assert_eq!(f.print_name(), "ExpectedCost");
    assert_eq!(f.print_params(), "overhead=11");
}
