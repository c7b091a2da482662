//! Replica sets with controlled similarity.
//!
//! The similarity of two sets is the size of their intersection over the size of their union.
//! For sets of `n` elements a similarity of `j` means `2 * n * j / (1 + j)` common ones. The
//! elements are picked by a list of draws from a skewed distribution over a universe.

use crate::simulator::algorithms::hashing;
use crate::simulator::algorithms::hashing::HashKey;
use crate::simulator::algorithms::multiparty_sketch;
use crate::simulator::algorithms::multiparty_sketch::digest_hash;
use crate::simulator::algorithms::random;
use crate::simulator::algorithms::random::std_rng_bytes;
use crate::simulator::binary64;
use crate::simulator::binary64::{Binary64, Double};
use crate::simulator::replica::{Element, ElementSet};
use std::hash::{DefaultHasher, Hasher};
use vstd::arithmetic::power2::*;
use vstd::prelude::*;
use vstd::set_lib::*;
use vstd::std_specs::hash::*;

verus! {

#[derive(Clone, Copy, Debug, PartialEq, Eq, Structural)]
pub enum DivergencePattern {
    Uniform,
    Clustered,
}

#[derive(Clone, Copy, Debug)]
pub struct WorkloadConfig {
    pub num_replicas: usize,
    pub set_size: usize,
    pub payload_size: usize,
    pub digest_bits: usize,
    pub jaccard_similarity: Double,
    pub pattern: DivergencePattern,
    pub seed: u64,
    /// Candidate elements. There should be far more than `set_size`.
    pub universe_size: usize,
    /// Larger values mean more skew.
    pub zipf_exponent: Double,
    /// Only used for clustered workloads.
    pub cluster_count: Option<usize>,
    /// Only used for clustered workloads: similarity of replicas in different clusters.
    pub jaccard_inter: Option<Double>,
    /// Only used for clustered workloads: similarity of replicas in the same cluster.
    pub jaccard_intra: Option<Double>,
}

/// What is wrong with a configuration.
#[derive(Clone, Copy, Debug, PartialEq, Eq, Structural)]
pub enum ConfigError {
    NoReplicas,
    EmptySets,
    DigestBits,
    JaccardSimilarity,
    SmallUniverse,
    ZipfExponent,
    MissingClusterCount,
    MissingJaccardInter,
    MissingJaccardIntra,
    NoClusters,
    TooManyClusters,
    JaccardIntra,
    JaccardInter,
    IntraBelowInter,
}

impl ConfigError {
    pub open spec fn text(self) -> Seq<char> {
        match self {
            ConfigError::NoReplicas => "num_replicas must be > 0"@,
            ConfigError::EmptySets => "set_size must be > 0"@,
            ConfigError::DigestBits => "digest_bits must be in 1..=64"@,
            ConfigError::JaccardSimilarity => "jaccard_similarity must be in [0, 1]"@,
            ConfigError::SmallUniverse => "universe_size must be >= set_size"@,
            ConfigError::ZipfExponent => "zipf_exponent must be > 0"@,
            ConfigError::MissingClusterCount => "cluster_count is required for clustered"@,
            ConfigError::MissingJaccardInter => "jaccard_inter is required for clustered"@,
            ConfigError::MissingJaccardIntra => "jaccard_intra is required for clustered"@,
            ConfigError::NoClusters => "cluster_count must be > 0"@,
            ConfigError::TooManyClusters => "cluster_count must be <= num_replicas"@,
            ConfigError::JaccardIntra => "jaccard_intra must be in [0, 1]"@,
            ConfigError::JaccardInter => "jaccard_inter must be in [0, 1]"@,
            ConfigError::IntraBelowInter => "jaccard_intra must be >= jaccard_inter (same-cluster pairs are more similar)"@,
        }
    }

    /// The fault in words.
    pub fn message(&self) -> (s: String)
        ensures
            s@ == self.text(),
    {
        match self {
            ConfigError::NoReplicas => "num_replicas must be > 0".to_string(),
            ConfigError::EmptySets => "set_size must be > 0".to_string(),
            ConfigError::DigestBits => "digest_bits must be in 1..=64".to_string(),
            ConfigError::JaccardSimilarity => "jaccard_similarity must be in [0, 1]".to_string(),
            ConfigError::SmallUniverse => "universe_size must be >= set_size".to_string(),
            ConfigError::ZipfExponent => "zipf_exponent must be > 0".to_string(),
            ConfigError::MissingClusterCount => {
                "cluster_count is required for clustered".to_string()
            },
            ConfigError::MissingJaccardInter => {
                "jaccard_inter is required for clustered".to_string()
            },
            ConfigError::MissingJaccardIntra => {
                "jaccard_intra is required for clustered".to_string()
            },
            ConfigError::NoClusters => "cluster_count must be > 0".to_string(),
            ConfigError::TooManyClusters => "cluster_count must be <= num_replicas".to_string(),
            ConfigError::JaccardIntra => "jaccard_intra must be in [0, 1]".to_string(),
            ConfigError::JaccardInter => "jaccard_inter must be in [0, 1]".to_string(),
            ConfigError::IntraBelowInter => {
                "jaccard_intra must be >= jaccard_inter (same-cluster pairs are more similar)".to_string()
            },
        }
    }
}

/// Why no workload came out.
#[derive(Clone, Copy, Debug, PartialEq, Eq, Structural)]
pub enum WorkloadError {
    Config(ConfigError),
    /// The common elements would not fit into a set.
    CommonExceedsSet,
    /// More unique elements are wanted than there are.
    NotEnoughElements { wanted: usize, available: usize },
    /// A draw names no element of the universe.
    DrawOutOfRange,
    /// There are too few draws.
    DrawsExhausted,
}

/// The first fault of a configuration, if it has any.
pub open spec fn fault(c: WorkloadConfig) -> Option<ConfigError> {
    if c.num_replicas == 0 {
        Some(ConfigError::NoReplicas)
    } else if c.set_size == 0 {
        Some(ConfigError::EmptySets)
    } else if !(1 <= c.digest_bits <= 64) {
        Some(ConfigError::DigestBits)
    } else if !c.jaccard_similarity.unit() {
        Some(ConfigError::JaccardSimilarity)
    } else if c.universe_size < c.set_size {
        Some(ConfigError::SmallUniverse)
    } else if !c.zipf_exponent.positive() {
        Some(ConfigError::ZipfExponent)
    } else if c.pattern == DivergencePattern::Uniform {
        None
    } else if c.cluster_count is None {
        Some(ConfigError::MissingClusterCount)
    } else if c.jaccard_inter is None {
        Some(ConfigError::MissingJaccardInter)
    } else if c.jaccard_intra is None {
        Some(ConfigError::MissingJaccardIntra)
    } else if c.cluster_count->0 == 0 {
        Some(ConfigError::NoClusters)
    } else if c.cluster_count->0 > c.num_replicas {
        Some(ConfigError::TooManyClusters)
    } else if !(c.jaccard_intra->0).unit() {
        Some(ConfigError::JaccardIntra)
    } else if !(c.jaccard_inter->0).unit() {
        Some(ConfigError::JaccardInter)
    } else if (c.jaccard_intra->0).key() < (c.jaccard_inter->0).key() {
        Some(ConfigError::IntraBelowInter)
    } else {
        None
    }
}

/// Whether a configuration can be used; its first fault if not.
pub fn validate_config(config: &WorkloadConfig) -> (r: Result<(), ConfigError>)
    ensures
        match r {
            Ok(_) => fault(*config) is None,
            Err(e) => fault(*config) == Some(e),
        },
{
    if config.num_replicas == 0 {
        return Err(ConfigError::NoReplicas);
    }
    if config.set_size == 0 {
        return Err(ConfigError::EmptySets);
    }
    if config.digest_bits < 1 || config.digest_bits > 64 {
        return Err(ConfigError::DigestBits);
    }
    if !config.jaccard_similarity.in_unit_interval() {
        return Err(ConfigError::JaccardSimilarity);
    }
    if config.universe_size < config.set_size {
        return Err(ConfigError::SmallUniverse);
    }
    if !config.zipf_exponent.is_positive() {
        return Err(ConfigError::ZipfExponent);
    }
    if config.pattern == DivergencePattern::Uniform {
        return Ok(());
    }
    let cluster_count: usize = match config.cluster_count {
        Some(n) => n,
        None => {
            return Err(ConfigError::MissingClusterCount);
        },
    };
    let inter: Double = match config.jaccard_inter {
        Some(j) => j,
        None => {
            return Err(ConfigError::MissingJaccardInter);
        },
    };
    let intra: Double = match config.jaccard_intra {
        Some(j) => j,
        None => {
            return Err(ConfigError::MissingJaccardIntra);
        },
    };
    if cluster_count == 0 {
        return Err(ConfigError::NoClusters);
    }
    if cluster_count > config.num_replicas {
        return Err(ConfigError::TooManyClusters);
    }
    if !intra.in_unit_interval() {
        return Err(ConfigError::JaccardIntra);
    }
    if !inter.in_unit_interval() {
        return Err(ConfigError::JaccardInter);
    }
    if !intra.at_least(&inter) {
        return Err(ConfigError::IntraBelowInter);
    }
    Ok(())
}

/// The lowest `bits` bits of the hash of a value.
pub open spec fn masked(value: u64, bits: nat) -> u64 {
    if bits == 64 {
        multiparty_sketch::hash_of(value)
    } else {
        (multiparty_sketch::hash_of(value) as nat % pow2(bits)) as u64
    }
}

proof fn lemma_masked(value: u64, bits: nat)
    requires
        bits <= 64,
    ensures
        masked(value, bits) as nat == DefaultHasher::spec_finish(
            hashing::u64_hash_writes(value),
        ) as nat % pow2(bits),
{
    let hash = DefaultHasher::spec_finish(hashing::u64_hash_writes(value));
    lemma_pow2_pos(bits);
    lemma2_to64_rest();
    if bits < 64 {
        lemma_pow2_strictly_increases(bits, 64);
    }
    vstd::arithmetic::div_mod::lemma_mod_bound(hash as int, pow2(bits) as int);
    if bits == 64 {
        vstd::arithmetic::div_mod::lemma_small_mod(hash as nat, pow2(64));
    }
}

/// The lowest `digest_bits` bits of the hash of a value.
pub fn masked_digest(value: u64, digest_bits: usize) -> (d: u64)
    requires
        digest_bits <= 64,
    ensures
        d == masked(value, digest_bits as nat),
        d as nat == DefaultHasher::spec_finish(hashing::u64_hash_writes(value)) as nat % pow2(
            digest_bits as nat,
        ),
{
    proof {
        lemma_masked(value, digest_bits as nat);
    }
    let raw: u64 = digest_hash(value);
    if digest_bits == 64 {
        raw
    } else {
        proof {
            lemma_pow2_pos(digest_bits as nat);
            vstd::bits::lemma_u64_pow2_no_overflow(digest_bits as nat);
            vstd::bits::lemma_u64_shl_is_mul(1, digest_bits as u64);
        }
        raw % (1u64 << digest_bits as u64)
    }
}

/// What is hashed behind the id of an element to seed its payload.
pub const PAYLOAD_PADDING: &'static str = "payloadPadding";

/// The seed of the payload of an element.
pub open spec fn payload_seed(id: u64) -> u64 {
    DefaultHasher::spec_finish(
        hashing::u64_hash_writes(id) + hashing::str_hash_writes(PAYLOAD_PADDING@),
    )
}

/// The payload of an element: pseudo-random bytes that depend on its id alone.
pub fn deterministic_payload(id: u64, payload_size: usize) -> (r: Vec<u8>)
    requires
        payload_size <= isize::MAX,
    ensures
        r@ == Seq::new(payload_size as nat, |i: int| random::std_rng_byte(payload_seed(id), i)),
        r@.len() == payload_size,
        forall|i: int|
            0 <= i < r@.len() ==> #[trigger] r@[i] == random::std_rng_byte(
                DefaultHasher::spec_finish(
                    hashing::u64_hash_writes(id) + hashing::str_hash_writes("payloadPadding"@),
                ),
                i,
            ),
{
    let mut hasher = DefaultHasher::new();
    id.feed(&mut hasher);
    PAYLOAD_PADDING.feed(&mut hasher);
    assert(hasher@ =~= hashing::u64_hash_writes(id) + hashing::str_hash_writes(PAYLOAD_PADDING@));
    std_rng_bytes(hasher.finish(), payload_size)
}

/// The element with the given id.
pub open spec fn element_of(id: int, payload_size: usize, digest_bits: nat) -> Element {
    Element { digest: masked(id as u64, digest_bits), payload_len: payload_size }
}

/// The element with the given id.
pub fn make_element(id: usize, payload_size: usize, digest_bits: usize) -> (e: Element)
    requires
        digest_bits <= 64,
    ensures
        e == element_of(id as int, payload_size, digest_bits as nat),
        e.payload_len == payload_size,
        e.digest as nat == DefaultHasher::spec_finish(
            hashing::u64_hash_writes(id as u64),
        ) as nat % pow2(digest_bits as nat),
{
    Element::new(masked_digest(id as u64, digest_bits), payload_size)
}

/// All candidate elements.
pub open spec fn universe_of(c: WorkloadConfig) -> Seq<Element> {
    Seq::new(
        c.universe_size as nat,
        |id: int| element_of(id, c.payload_size, c.digest_bits as nat),
    )
}

/// All candidate elements.
pub fn build_universe(config: &WorkloadConfig) -> (r: Vec<Element>)
    requires
        config.digest_bits <= 64,
    ensures
        r@ == universe_of(*config),
        r@.len() == config.universe_size,
        forall|i: int|
            0 <= i < r@.len() ==> {
                let e = #[trigger] r@[i];
                &&& e.payload_len == config.payload_size
                &&& e.digest as nat == DefaultHasher::spec_finish(
                    hashing::u64_hash_writes(i as u64),
                ) as nat % pow2(config.digest_bits as nat)
            },
{
    proof {
        assert forall|i: int| 0 <= i < config.universe_size implies masked(
            #[trigger] (i as u64),
            config.digest_bits as nat,
        ) as nat == DefaultHasher::spec_finish(hashing::u64_hash_writes(i as u64)) as nat % pow2(
            config.digest_bits as nat,
        ) by {
            lemma_masked(i as u64, config.digest_bits as nat);
        }
    }
    let mut r: Vec<Element> = Vec::new();
    let mut id: usize = 0;
    while id < config.universe_size
        invariant
            id <= config.universe_size,
            config.digest_bits <= 64,
            r@ == universe_of(*config).take(id as int),
        decreases config.universe_size - id,
    {
        r.push(make_element(id, config.payload_size, config.digest_bits));
        id = id + 1;
        assert(r@ =~= universe_of(*config).take(id as int));
    }
    assert(r@ =~= universe_of(*config));
    r
}

/// The largest exponent of a finite number with a full significand.
pub const EXP_MAX: i32 = 971;

/// The double-precision value of `round(2 * set_size * j / (1 + j))` for a finite `j`.
/// Nothing, when the dividend exceeds all finite numbers.
pub open spec fn common_size(j: Double, set_size: nat) -> Option<int> {
    let one = Binary64::of((binary64::MANT_MIN as int, -52int));
    let two = Binary64::of((binary64::MANT_MIN as int, -51int));
    let n = Binary64::of(binary64::nearest(set_size, 0));
    let double_n = Binary64::of(two.product(n));
    let top = Binary64::of(double_n.product(j.magnitude()));
    // Below minus one dividend and divisor are both negative.
    let bottom = Binary64::of(
        if j.negative() {
            j.magnitude().less_one()
        } else {
            one.sum(j.magnitude())
        },
    );
    if top.exp > EXP_MAX {
        None
    } else {
        Some(Binary64::of(top.quotient(bottom)).rounded())
    }
}

/// The number of common elements of two sets of the given size and similarity, as an integer
/// of the machine: zero when the formula gives a negative number or none, and the largest
/// `usize` when it gives more than that.
pub open spec fn common_count(j: Double, set_size: nat) -> usize {
    if !j.finite() || (j.negative() && j.unsigned() <= 0x3ff0_0000_0000_0000) {
        0
    } else {
        match common_size(j, set_size) {
            Some(c) => if c > usize::MAX {
                usize::MAX
            } else {
                c as usize
            },
            None => usize::MAX,
        }
    }
}

/// The number of common elements of two sets of the given size and similarity.
pub fn jaccard_to_common_size(j: Double, set_size: usize) -> (c: usize)
    ensures
        c == common_count(j, set_size as nat),
{
    if !j.is_finite() {
        return 0;
    }
    if j.is_negative() && j.bits % 0x8000_0000_0000_0000 <= 0x3ff0_0000_0000_0000 {
        return 0;
    }
    let v: Binary64 = j.number();
    let two = Binary64 { mant: binary64::MANT_MIN, exp: -51 };
    let top = two.times(Binary64::from_u64(set_size as u64)).times(v);
    let bottom = if j.is_negative() {
        v.minus_one()
    } else {
        Binary64::one().plus(v)
    };
    if top.exp > EXP_MAX {
        return usize::MAX;
    }
    top.over(bottom).round_usize()
}

/// Draws until `count` different elements outside `exclude` were found, having `got` some
/// already. The elements, and the position of the first draw that was not used.
pub open spec fn sampled(
    universe: Seq<Element>,
    draws: Seq<usize>,
    at: nat,
    count: nat,
    exclude: Set<Element>,
    got: Set<Element>,
) -> Result<(Set<Element>, nat), WorkloadError>
    decreases draws.len() - at,
{
    if got.len() >= count {
        Ok((got, at))
    } else if at >= draws.len() {
        Err(WorkloadError::DrawsExhausted)
    } else if draws[at as int] >= universe.len() {
        Err(WorkloadError::DrawOutOfRange)
    } else {
        let e = universe[draws[at as int] as int];
        if exclude.contains(e) {
            sampled(universe, draws, at + 1, count, exclude, got)
        } else {
            sampled(universe, draws, at + 1, count, exclude, got.insert(e))
        }
    }
}

/// Draws `count` different elements outside `exclude`, unless there are too few.
pub open spec fn picked(
    universe: Seq<Element>,
    draws: Seq<usize>,
    at: nat,
    count: usize,
    exclude: Set<Element>,
) -> Result<(Set<Element>, nat), WorkloadError> {
    let available = if exclude.len() > universe.len() {
        0
    } else {
        universe.len() - exclude.len()
    };
    if count > available {
        Err(WorkloadError::NotEnoughElements { wanted: count, available: available as usize })
    } else {
        sampled(universe, draws, at, count as nat, exclude, Set::empty())
    }
}

/// All elements of the bases and of the sets made so far.
pub open spec fn handed_out(bases: Seq<Set<Element>>, sets: Seq<Set<Element>>) -> Set<Element> {
    union_of(bases, bases.len()).union(union_of(sets, sets.len()))
}

/// `n` sets: each has the elements of a base, and `extra` more that are neither in a base nor
/// in another set. Bases are used in turn.
pub open spec fn spread(
    universe: Seq<Element>,
    draws: Seq<usize>,
    at: nat,
    extra: usize,
    bases: Seq<Set<Element>>,
    n: nat,
) -> Result<(Seq<Set<Element>>, nat), WorkloadError>
    decreases n,
{
    if n == 0 {
        Ok((Seq::empty(), at))
    } else {
        match spread(universe, draws, at, extra, bases, (n - 1) as nat) {
            Err(e) => Err(e),
            Ok((sets, next)) => {
                let base = bases[(n - 1) % bases.len() as int];
                match picked(universe, draws, next, extra, handed_out(bases, sets)) {
                    Err(e) => Err(e),
                    Ok((new, last)) => Ok((sets.push(base.union(new)), last)),
                }
            },
        }
    }
}

/// The sets of a uniform workload: the same common elements in each, and the rest its own.
pub open spec fn uniform(c: WorkloadConfig, draws: Seq<usize>) -> Result<
    Seq<Set<Element>>,
    WorkloadError,
> {
    let universe = universe_of(c);
    let common = common_count(c.jaccard_similarity, c.set_size as nat);
    if common > c.set_size {
        Err(WorkloadError::CommonExceedsSet)
    } else {
        match picked(universe, draws, 0, common, Set::empty()) {
            Err(e) => Err(e),
            Ok((base, at)) => match spread(
                universe,
                draws,
                at,
                (c.set_size - common) as usize,
                seq![base],
                c.num_replicas as nat,
            ) {
                Err(e) => Err(e),
                Ok((sets, _)) => Ok(sets),
            },
        }
    }
}

/// `a - b`, and zero when `b` is larger.
pub open spec fn less(a: usize, b: usize) -> usize {
    if a >= b {
        (a - b) as usize
    } else {
        0
    }
}

/// The sets of a clustered workload: elements common to all, elements common to a cluster,
/// and the rest of each its own. Replicas join the clusters in turn.
pub open spec fn clustered(c: WorkloadConfig, draws: Seq<usize>) -> Result<
    Seq<Set<Element>>,
    WorkloadError,
> {
    let universe = universe_of(c);
    let global = common_count(c.jaccard_inter->0, c.set_size as nat);
    let shared = less(common_count(c.jaccard_intra->0, c.set_size as nat), global);
    let unique = less(c.set_size, (global + shared) as usize);
    match picked(universe, draws, 0, global, Set::empty()) {
        Err(e) => Err(e),
        Ok((base, at)) => match spread(
            universe,
            draws,
            at,
            shared,
            seq![base],
            c.cluster_count->0 as nat,
        ) {
            Err(e) => Err(e),
            Ok((bases, next)) => match spread(
                universe,
                draws,
                next,
                unique,
                bases,
                c.num_replicas as nat,
            ) {
                Err(e) => Err(e),
                Ok((sets, _)) => Ok(sets),
            },
        },
    }
}

/// The sets of a workload.
pub open spec fn replica_sets_of(c: WorkloadConfig, draws: Seq<usize>) -> Result<
    Seq<Set<Element>>,
    WorkloadError,
> {
    match fault(c) {
        Some(e) => Err(WorkloadError::Config(e)),
        None => if c.pattern == DivergencePattern::Uniform {
            uniform(c, draws)
        } else {
            clustered(c, draws)
        },
    }
}

/// All elements of the first `n` sets.
pub open spec fn union_of(sets: Seq<Set<Element>>, n: nat) -> Set<Element>
    decreases n,
{
    if n == 0 {
        Set::empty()
    } else {
        union_of(sets, (n - 1) as nat).union(sets[n - 1])
    }
}

/// The sets that a list of sets stands for.
pub open spec fn set_views(sets: Seq<ElementSet>) -> Seq<Set<Element>> {
    Seq::new(sets.len(), |i: int| sets[i]@)
}

/// The initial sets of the replicas, and all their elements.
#[derive(Debug)]
pub struct Workload {
    pub replica_sets: Vec<ElementSet>,
    pub target_union: ElementSet,
}

impl Workload {
    /// Makes the sets. `draws` lists positions in the universe, most of them small; as many
    /// are used as are needed.
    pub fn generate(config: &WorkloadConfig, draws: &Vec<usize>) -> (r: Result<
        Workload,
        WorkloadError,
    >)
        ensures
            match r {
                Ok(w) => {
                    &&& replica_sets_of(*config, draws@) == Ok::<_, WorkloadError>(
                        set_views(w.replica_sets@),
                    )
                    &&& w.target_union@ == union_of(
                        set_views(w.replica_sets@),
                        w.replica_sets@.len(),
                    )
                },
                Err(e) => replica_sets_of(*config, draws@) == Err::<Seq<Set<Element>>, _>(e),
            },
            r matches Ok(w) ==> w.replica_sets@.len() == config.num_replicas,
            r matches Ok(w) ==> forall|i: int, e: Element|
                0 <= i < w.replica_sets@.len() && #[trigger] w.replica_sets@[i]@.contains(e) ==> {
                    &&& e.payload_len == config.payload_size
                    &&& (e.digest as nat) < pow2(config.digest_bits as nat)
                    &&& exists|id: u64|
                        id < config.universe_size && e.digest as nat == (
                        #[trigger] DefaultHasher::spec_finish(
                            hashing::u64_hash_writes(id),
                        )) as nat % pow2(config.digest_bits as nat)
                },
            r matches Ok(w) ==> forall|e: Element| #[trigger]
                w.target_union@.contains(e) <==> exists|i: int|
                    0 <= i < w.replica_sets@.len() && (
                    #[trigger] w.replica_sets@[i])@.contains(e),
    {
        match validate_config(config) {
            Ok(_) => {},
            Err(e) => {
                return Err(WorkloadError::Config(e));
            },
        }
        let universe: Vec<Element> = build_universe(config);
        let made: Result<Vec<ElementSet>, WorkloadError> = if config.pattern
            == DivergencePattern::Uniform {
            generate_uniform(config, &universe, draws)
        } else {
            generate_clustered(config, &universe, draws)
        };
        match made {
            Ok(replica_sets) => {
                let target_union = union_all(&replica_sets);
                proof {
                    let views = set_views(replica_sets@);
                    lemma_elements(*config, draws@);
                    assert forall|i: int, e: Element|
                        0 <= i < replica_sets@.len() && #[trigger] replica_sets@[i]@.contains(
                            e,
                        ) implies made_for(*config, e) by {
                        assert(views[i].contains(e));
                    }
                    assert forall|e: Element| #[trigger]
                        target_union@.contains(e) <==> exists|i: int|
                            0 <= i < replica_sets@.len() && (
                            #[trigger] replica_sets@[i])@.contains(e) by {
                        lemma_union_of(views, views.len(), e);
                        if target_union@.contains(e) {
                            let i = choose|i: int|
                                0 <= i < views.len() && (#[trigger] views[i]).contains(e);
                            assert(replica_sets@[i]@.contains(e));
                        }
                        if exists|i: int|
                            0 <= i < replica_sets@.len() && (
                            #[trigger] replica_sets@[i])@.contains(e) {
                            let i = choose|i: int|
                                0 <= i < replica_sets@.len() && (
                                #[trigger] replica_sets@[i])@.contains(e);
                            assert(views[i].contains(e));
                        }
                    }
                }
                Ok(Workload { replica_sets, target_union })
            },
            Err(e) => Err(e),
        }
    }
}

fn union_all(sets: &Vec<ElementSet>) -> (r: ElementSet)
    ensures
        r@ == union_of(set_views(sets@), sets@.len()),
{
    let mut r = ElementSet::new();
    let ghost views = set_views(sets@);
    let mut i: usize = 0;
    while i < sets.len()
        invariant
            i <= sets@.len(),
            views == set_views(sets@),
            r@ == union_of(views, i as nat),
        decreases sets@.len() - i,
    {
        let elements = sets[i].elements();
        r.insert_all(elements);
        i = i + 1;
        assert(views[i - 1] == sets@[i - 1]@);
    }
    r
}

/// Draws `count` different elements outside `exclude`, starting with the draw at `at`. The
/// elements, and the position of the first draw that was not used.
pub fn sample_unique_zipf(
    universe: &Vec<Element>,
    draws: &Vec<usize>,
    at: usize,
    count: usize,
    exclude: &ElementSet,
) -> (r: Result<(ElementSet, usize), WorkloadError>)
    ensures
        match r {
            Ok((set, next)) => picked(universe@, draws@, at as nat, count, exclude@) == Ok::<
                _,
                WorkloadError,
            >((set@, next as nat)),
            Err(e) => picked(universe@, draws@, at as nat, count, exclude@) == Err::<
                (Set<Element>, nat),
                _,
            >(e),
        },
{
    let excluded: usize = exclude.len();
    let available: usize = if excluded > universe.len() {
        0
    } else {
        universe.len() - excluded
    };
    if count > available {
        return Err(WorkloadError::NotEnoughElements { wanted: count, available });
    }
    let mut result = ElementSet::new();
    let mut next: usize = at;
    while result.len() < count
        invariant
            at <= next,
            next <= draws@.len() || next == at,
            picked(universe@, draws@, at as nat, count, exclude@) == sampled(
                universe@,
                draws@,
                next as nat,
                count as nat,
                exclude@,
                result@,
            ),
        decreases draws@.len() - next,
    {
        if next >= draws.len() {
            return Err(WorkloadError::DrawsExhausted);
        }
        let idx: usize = draws[next];
        if idx >= universe.len() {
            return Err(WorkloadError::DrawOutOfRange);
        }
        let candidate: Element = universe[idx];
        if !exclude.contains(&candidate) {
            result.insert(candidate);
        }
        next = next + 1;
    }
    Ok((result, next))
}

/// Makes sets out of bases: each gets `extra` elements that were not handed out before.
fn spread_sets(
    universe: &Vec<Element>,
    draws: &Vec<usize>,
    at: usize,
    extra: usize,
    bases: &Vec<ElementSet>,
    n: usize,
) -> (r: Result<(Vec<ElementSet>, usize), WorkloadError>)
    requires
        bases@.len() > 0,
    ensures
        match r {
            Ok((sets, next)) => spread(
                universe@,
                draws@,
                at as nat,
                extra,
                set_views(bases@),
                n as nat,
            ) == Ok::<_, WorkloadError>((set_views(sets@), next as nat)),
            Err(e) => spread(
                universe@,
                draws@,
                at as nat,
                extra,
                set_views(bases@),
                n as nat,
            ) == Err::<(Seq<Set<Element>>, nat), _>(e),
        },
{
    let ghost views = set_views(bases@);
    let mut sets: Vec<ElementSet> = Vec::new();
    let mut taken: ElementSet = union_all(bases);
    let mut next: usize = at;
    let mut i: usize = 0;
    assert(set_views(sets@) =~= Seq::<Set<Element>>::empty());
    assert(taken@ =~= handed_out(views, set_views(sets@)));
    while i < n
        invariant
            i <= n,
            bases@.len() > 0,
            views == set_views(bases@),
            taken@ == handed_out(views, set_views(sets@)),
            spread(universe@, draws@, at as nat, extra, views, i as nat) == Ok::<_, WorkloadError>(
                (set_views(sets@), next as nat),
            ),
        decreases n - i,
    {
        let base = &bases[i % bases.len()];
        assert(views[i as int % bases@.len() as int] == base@);
        match sample_unique_zipf(universe, draws, next, extra, &taken) {
            Ok((new, after)) => {
                let mut set: ElementSet = base.clone();
                let elements = new.elements();
                set.insert_all(elements);
                let ghost before = set_views(sets@);
                let ghost earlier = taken@;
                taken.insert_all(elements);
                sets.push(set);
                next = after;
                proof {
                    let after_views = set_views(sets@);
                    assert(after_views =~= before.push(set@));
                    lemma_union_same(before, after_views, before.len());
                    lemma_base_within(views, i as int % bases@.len() as int);
                    assert(taken@ =~= handed_out(views, after_views));
                }
            },
            Err(e) => {
                proof {
                    lemma_spread_error(
                        universe@,
                        draws@,
                        at as nat,
                        extra,
                        views,
                        (i + 1) as nat,
                        n as nat,
                        e,
                    );
                }
                return Err(e);
            },
        }
        i = i + 1;
    }
    Ok((sets, next))
}

proof fn lemma_union_same(a: Seq<Set<Element>>, b: Seq<Set<Element>>, n: nat)
    requires
        n <= a.len(),
        n <= b.len(),
        forall|i: int| 0 <= i < n ==> #[trigger] a[i] == b[i],
    ensures
        union_of(a, n) == union_of(b, n),
    decreases n,
{
    if n > 0 {
        lemma_union_same(a, b, (n - 1) as nat);
        assert(a[n - 1] == b[n - 1]);
    }
}

proof fn lemma_base_within(bases: Seq<Set<Element>>, k: int)
    requires
        0 <= k < bases.len(),
    ensures
        bases[k].subset_of(union_of(bases, bases.len())),
{
    assert forall|e: Element| bases[k].contains(e) implies union_of(bases, bases.len()).contains(
        e,
    ) by {
        lemma_union_of(bases, bases.len(), e);
    }
}

/// An error on the way stays.
proof fn lemma_spread_error(
    universe: Seq<Element>,
    draws: Seq<usize>,
    at: nat,
    extra: usize,
    bases: Seq<Set<Element>>,
    k: nat,
    n: nat,
    e: WorkloadError,
)
    requires
        k <= n,
        spread(universe, draws, at, extra, bases, k) == Err::<(Seq<Set<Element>>, nat), _>(e),
    ensures
        spread(universe, draws, at, extra, bases, n) == Err::<(Seq<Set<Element>>, nat), _>(e),
    decreases n,
{
    if k < n {
        lemma_spread_error(universe, draws, at, extra, bases, k, (n - 1) as nat, e);
    }
}

fn generate_uniform(config: &WorkloadConfig, universe: &Vec<Element>, draws: &Vec<usize>) -> (r:
    Result<Vec<ElementSet>, WorkloadError>)
    requires
        fault(*config) is None,
        universe@ == universe_of(*config),
    ensures
        match r {
            Ok(sets) => uniform(*config, draws@) == Ok::<_, WorkloadError>(set_views(sets@)),
            Err(e) => uniform(*config, draws@) == Err::<Seq<Set<Element>>, _>(e),
        },
{
    let common: usize = jaccard_to_common_size(config.jaccard_similarity, config.set_size);
    if common > config.set_size {
        return Err(WorkloadError::CommonExceedsSet);
    }
    let unique: usize = config.set_size - common;
    let none = ElementSet::new();
    match sample_unique_zipf(universe, draws, 0, common, &none) {
        Ok((base, at)) => {
            let mut bases: Vec<ElementSet> = Vec::new();
            bases.push(base);
            assert(set_views(bases@) =~= seq![base@]);
            match spread_sets(universe, draws, at, unique, &bases, config.num_replicas) {
                Ok((sets, _)) => Ok(sets),
                Err(e) => Err(e),
            }
        },
        Err(e) => Err(e),
    }
}

fn generate_clustered(config: &WorkloadConfig, universe: &Vec<Element>, draws: &Vec<usize>) -> (r:
    Result<Vec<ElementSet>, WorkloadError>)
    requires
        fault(*config) is None,
        config.pattern == DivergencePattern::Clustered,
        universe@ == universe_of(*config),
    ensures
        match r {
            Ok(sets) => clustered(*config, draws@) == Ok::<_, WorkloadError>(set_views(sets@)),
            Err(e) => clustered(*config, draws@) == Err::<Seq<Set<Element>>, _>(e),
        },
{
    let cluster_count: usize = config.cluster_count.unwrap();
    let inter: Double = config.jaccard_inter.unwrap();
    let intra: Double = config.jaccard_intra.unwrap();
    let global: usize = jaccard_to_common_size(inter, config.set_size);
    let total_intra: usize = jaccard_to_common_size(intra, config.set_size);
    let shared: usize = total_intra.saturating_sub(global);
    let used: usize = global + shared;
    let unique: usize = config.set_size.saturating_sub(used);
    let none = ElementSet::new();
    match sample_unique_zipf(universe, draws, 0, global, &none) {
        Ok((base, at)) => {
            let mut top: Vec<ElementSet> = Vec::new();
            top.push(base);
            assert(set_views(top@) =~= seq![base@]);
            match spread_sets(universe, draws, at, shared, &top, cluster_count) {
                Ok((bases, next)) => {
                    proof {
                        lemma_spread_count(
                            universe@,
                            draws@,
                            at as nat,
                            shared,
                            seq![base@],
                            cluster_count as nat,
                        );
                    }
                    match spread_sets(universe, draws, next, unique, &bases, config.num_replicas) {
                        Ok((sets, _)) => Ok(sets),
                        Err(e) => Err(e),
                    }
                },
                Err(e) => Err(e),
            }
        },
        Err(e) => Err(e),
    }
}

/// As many sets come out as were asked for.
proof fn lemma_spread_count(
    universe: Seq<Element>,
    draws: Seq<usize>,
    at: nat,
    extra: usize,
    bases: Seq<Set<Element>>,
    n: nat,
)
    ensures
        spread(universe, draws, at, extra, bases, n) matches Ok(r) ==> r.0.len() == n,
    decreases n,
{
    if n > 0 {
        lemma_spread_count(universe, draws, at, extra, bases, (n - 1) as nat);
    }
}

/// Every element is one of the universe.
pub open spec fn within(set: Set<Element>, universe: Seq<Element>) -> bool {
    forall|e: Element| #[trigger] set.contains(e) ==> universe.contains(e)
}

proof fn lemma_sampled(
    universe: Seq<Element>,
    draws: Seq<usize>,
    at: nat,
    count: nat,
    exclude: Set<Element>,
    got: Set<Element>,
)
    requires
        got.finite(),
        got.len() <= count,
        got.disjoint(exclude),
        within(got, universe),
    ensures
        sampled(universe, draws, at, count, exclude, got) matches Ok(r) ==> {
            &&& r.0.finite()
            &&& r.0.len() == count
            &&& r.0.disjoint(exclude)
            &&& within(r.0, universe)
        },
    decreases draws.len() - at,
{
    if got.len() < count && at < draws.len() && draws[at as int] < universe.len() {
        let e = universe[draws[at as int] as int];
        assert(universe.contains(e));
        if exclude.contains(e) {
            lemma_sampled(universe, draws, at + 1, count, exclude, got);
        } else {
            lemma_sampled(universe, draws, at + 1, count, exclude, got.insert(e));
        }
    }
}

/// A drawn set has as many elements as were asked for, all from the universe and none of
/// those to be avoided.
pub proof fn lemma_picked(
    universe: Seq<Element>,
    draws: Seq<usize>,
    at: nat,
    count: usize,
    exclude: Set<Element>,
)
    ensures
        picked(universe, draws, at, count, exclude) matches Ok(r) ==> {
            &&& r.0.finite()
            &&& r.0.len() == count
            &&& r.0.disjoint(exclude)
            &&& within(r.0, universe)
        },
{
    lemma_sampled(universe, draws, at, count as nat, exclude, Set::empty());
}

/// Each set of a list holds all elements of `base`, has the given size, and comes from the
/// universe.
pub open spec fn built_on(
    sets: Seq<Set<Element>>,
    base: Set<Element>,
    size: nat,
    universe: Seq<Element>,
) -> bool {
    forall|i: int|
        0 <= i < sets.len() ==> {
            &&& base.subset_of(#[trigger] sets[i])
            &&& sets[i].finite()
            &&& sets[i].len() == size
            &&& within(sets[i], universe)
        }
}

/// The sets share `count` elements, and each has the given size and comes from the universe.
pub open spec fn sharing(
    sets: Seq<Set<Element>>,
    count: nat,
    size: nat,
    universe: Seq<Element>,
) -> bool {
    exists|common: Set<Element>|
        common.finite() && common.len() == count && #[trigger] built_on(
            sets,
            common,
            size,
            universe,
        )
}

proof fn lemma_spread(
    universe: Seq<Element>,
    draws: Seq<usize>,
    at: nat,
    extra: usize,
    bases: Seq<Set<Element>>,
    n: nat,
    root: Set<Element>,
    size: nat,
)
    requires
        bases.len() > 0,
        built_on(bases, root, size, universe),
    ensures
        spread(universe, draws, at, extra, bases, n) matches Ok(r) ==> {
            &&& r.0.len() == n
            &&& built_on(r.0, root, size + extra as nat, universe)
        },
    decreases n,
{
    if n > 0 {
        lemma_spread(universe, draws, at, extra, bases, (n - 1) as nat, root, size);
        if let Ok((sets, next)) = spread(universe, draws, at, extra, bases, (n - 1) as nat) {
            let base = bases[(n - 1) % bases.len() as int];
            let out = handed_out(bases, sets);
            lemma_picked(universe, draws, next, extra, out);
            if let Ok((new, last)) = picked(universe, draws, next, extra, out) {
                lemma_base_within(bases, (n - 1) % bases.len() as int);
                assert(base.disjoint(new));
                lemma_set_disjoint_lens(base, new);
                let all = sets.push(base.union(new));
                assert(base + new =~= base.union(new));
                assert forall|i: int| 0 <= i < all.len() implies {
                    &&& root.subset_of(#[trigger] all[i])
                    &&& all[i].finite()
                    &&& all[i].len() == size + extra
                    &&& within(all[i], universe)
                } by {
                    if i < sets.len() {
                        assert(all[i] == sets[i]);
                    }
                }
            }
        }
    }
}

/// Two of the sets have in common what their bases have in common.
proof fn lemma_spread_apart(
    universe: Seq<Element>,
    draws: Seq<usize>,
    at: nat,
    extra: usize,
    bases: Seq<Set<Element>>,
    n: nat,
)
    requires
        bases.len() > 0,
    ensures
        spread(universe, draws, at, extra, bases, n) matches Ok(r) ==> {
            let m = bases.len() as int;
            &&& r.0.len() == n
            &&& forall|i: int, k: int|
                0 <= i < n && 0 <= k < m ==> (#[trigger] r.0[i]).intersect(#[trigger] bases[k])
                    == bases[i % m].intersect(bases[k])
            &&& forall|i: int, j: int|
                0 <= i < j < n ==> (#[trigger] r.0[i]).intersect(#[trigger] r.0[j]) == bases[i
                    % m].intersect(bases[j % m])
        },
    decreases n,
{
    if n > 0 {
        let m = bases.len() as int;
        lemma_spread_apart(universe, draws, at, extra, bases, (n - 1) as nat);
        if let Ok((sets, next)) = spread(universe, draws, at, extra, bases, (n - 1) as nat) {
            let last = n - 1;
            let base = bases[last % m];
            vstd::arithmetic::div_mod::lemma_mod_bound(last, m);
            let out = handed_out(bases, sets);
            lemma_picked(universe, draws, next, extra, out);
            if let Ok((new, _)) = picked(universe, draws, next, extra, out) {
                let set = base.union(new);
                let all = sets.push(set);
                assert forall|i: int, k: int|
                    0 <= i < n && 0 <= k < m implies (#[trigger] all[i]).intersect(
                    #[trigger] bases[k],
                ) == bases[i % m].intersect(bases[k]) by {
                    if i < last {
                        assert(all[i] == sets[i]);
                    } else {
                        lemma_base_within(bases, k);
                        assert(set.intersect(bases[k]) =~= base.intersect(bases[k]));
                    }
                }
                assert forall|i: int, j: int|
                    0 <= i < j < n implies (#[trigger] all[i]).intersect(#[trigger] all[j])
                    == bases[i % m].intersect(bases[j % m]) by {
                    assert(all[i] == sets[i]);
                    if j < last {
                        assert(all[j] == sets[j]);
                    } else {
                        lemma_base_within(sets, i);
                        assert(sets[i].intersect(bases[last % m]) == bases[i % m].intersect(
                            bases[last % m],
                        ));
                        assert(sets[i].intersect(set) =~= sets[i].intersect(base));
                    }
                }
            }
        }
    }
}

/// A uniform workload has as many sets as replicas. Each has `set_size` elements of the
/// universe, and they all share the number of elements that the similarity asks for. No two
/// share more: every pair has the same similarity.
pub proof fn lemma_uniform(c: WorkloadConfig, draws: Seq<usize>)
    ensures
        uniform(c, draws) matches Ok(sets) ==> {
            &&& sets.len() == c.num_replicas
            &&& forall|i: int, j: int|
                0 <= i < sets.len() && 0 <= j < sets.len() && i != j ==> (
                #[trigger] sets[i]).intersect(#[trigger] sets[j]).len() == common_count(
                    c.jaccard_similarity,
                    c.set_size as nat,
                )
            &&& sharing(
                sets,
                common_count(c.jaccard_similarity, c.set_size as nat) as nat,
                c.set_size as nat,
                universe_of(c),
            )
        },
{
    let universe = universe_of(c);
    let common = common_count(c.jaccard_similarity, c.set_size as nat);
    lemma_picked(universe, draws, 0, common, Set::empty());
    if let Ok((base, at)) = picked(universe, draws, 0, common, Set::empty()) {
        assert(built_on(seq![base], base, common as nat, universe));
        lemma_spread(
            universe,
            draws,
            at,
            (c.set_size - common) as usize,
            seq![base],
            c.num_replicas as nat,
            base,
            common as nat,
        );
        lemma_spread_apart(
            universe,
            draws,
            at,
            (c.set_size - common) as usize,
            seq![base],
            c.num_replicas as nat,
        );
        if let Ok(sets) = uniform(c, draws) {
            assert forall|i: int, j: int|
                0 <= i < sets.len() && 0 <= j < sets.len() && i != j implies (
            #[trigger] sets[i]).intersect(#[trigger] sets[j]).len() == common by {
                assert(base.intersect(base) =~= base);
                assert(sets[i].intersect(sets[j]) =~= sets[j].intersect(sets[i]));
                if i < j {
                    assert(sets[i].intersect(sets[j]) == base.intersect(base));
                } else {
                    assert(sets[j].intersect(sets[i]) == base.intersect(base));
                }
            }
            assert(built_on(sets, base, c.set_size as nat, universe));
            assert(sharing(sets, common as nat, c.set_size as nat, universe));
        }
    }
}

/// The size of the sets of a clustered workload: `set_size`, unless more elements are to be
/// common to a cluster.
pub open spec fn clustered_size(c: WorkloadConfig) -> nat {
    let global = common_count(c.jaccard_inter->0, c.set_size as nat);
    let shared = less(common_count(c.jaccard_intra->0, c.set_size as nat), global);
    if global + shared < c.set_size {
        c.set_size as nat
    } else {
        (global + shared) as nat
    }
}

/// A clustered workload has as many sets as replicas. They come from the universe, have the
/// size that the similarities ask for, and share the elements common to all clusters.
pub proof fn lemma_clustered(c: WorkloadConfig, draws: Seq<usize>)
    requires
        fault(c) is None,
        c.pattern == DivergencePattern::Clustered,
    ensures
        clustered(c, draws) matches Ok(sets) ==> {
            &&& sets.len() == c.num_replicas
            &&& sharing(
                sets,
                common_count(c.jaccard_inter->0, c.set_size as nat) as nat,
                clustered_size(c),
                universe_of(c),
            )
        },
{
    let universe = universe_of(c);
    let global = common_count(c.jaccard_inter->0, c.set_size as nat);
    let shared = less(common_count(c.jaccard_intra->0, c.set_size as nat), global);
    let unique = less(c.set_size, (global + shared) as usize);
    lemma_picked(universe, draws, 0, global, Set::empty());
    if let Ok((base, at)) = picked(universe, draws, 0, global, Set::empty()) {
        assert(built_on(seq![base], base, global as nat, universe));
        lemma_spread(
            universe,
            draws,
            at,
            shared,
            seq![base],
            c.cluster_count->0 as nat,
            base,
            global as nat,
        );
        if let Ok((bases, next)) = spread(
            universe,
            draws,
            at,
            shared,
            seq![base],
            c.cluster_count->0 as nat,
        ) {
            lemma_spread(
                universe,
                draws,
                next,
                unique,
                bases,
                c.num_replicas as nat,
                base,
                (global + shared) as nat,
            );
            assert(global + shared + unique == clustered_size(c));
            if let Ok((sets, _)) = spread(
                universe,
                draws,
                next,
                unique,
                bases,
                c.num_replicas as nat,
            ) {
                assert(built_on(sets, base, clustered_size(c), universe));
                assert(sharing(sets, global as nat, clustered_size(c), universe));
            }
        }
    }
}

/// Two replicas of the same cluster share exactly the elements common to their cluster, as
/// many as the similarity within clusters asks for. Two of different clusters share exactly
/// those common to all.
pub proof fn lemma_clusters(c: WorkloadConfig, draws: Seq<usize>, i: int, j: int)
    requires
        fault(c) is None,
        c.pattern == DivergencePattern::Clustered,
        0 <= i < c.num_replicas,
        0 <= j < c.num_replicas,
        i != j,
    ensures
        clustered(c, draws) matches Ok(sets) ==> {
            let inter = common_count(c.jaccard_inter->0, c.set_size as nat);
            let intra = common_count(c.jaccard_intra->0, c.set_size as nat);
            sets[i].intersect(sets[j]).len() == if i % c.cluster_count->0 as int == j
                % c.cluster_count->0 as int {
                if intra >= inter {
                    intra
                } else {
                    inter
                }
            } else {
                inter
            }
        },
{
    let universe = universe_of(c);
    let global = common_count(c.jaccard_inter->0, c.set_size as nat);
    let total = common_count(c.jaccard_intra->0, c.set_size as nat);
    let shared = less(total, global);
    let unique = less(c.set_size, (global + shared) as usize);
    let clusters = c.cluster_count->0 as nat;
    let n = c.num_replicas as nat;
    lemma_picked(universe, draws, 0, global, Set::empty());
    if let Ok((base, at)) = picked(universe, draws, 0, global, Set::empty()) {
        assert(built_on(seq![base], base, global as nat, universe));
        lemma_spread(universe, draws, at, shared, seq![base], clusters, base, global as nat);
        lemma_spread_apart(universe, draws, at, shared, seq![base], clusters);
        if let Ok((bases, next)) = spread(universe, draws, at, shared, seq![base], clusters) {
            lemma_spread_apart(universe, draws, next, unique, bases, n);
            if let Ok(sets) = clustered(c, draws) {
                let (k, l) = (i % clusters as int, j % clusters as int);
                vstd::arithmetic::div_mod::lemma_mod_bound(i, clusters as int);
                vstd::arithmetic::div_mod::lemma_mod_bound(j, clusters as int);
                assert(sets[i].intersect(sets[j]) =~= sets[j].intersect(sets[i]));
                assert(bases[k].intersect(bases[l]) =~= bases[l].intersect(bases[k]));
                if i < j {
                    assert(sets[i].intersect(sets[j]) == bases[k].intersect(bases[l]));
                } else {
                    assert(sets[j].intersect(sets[i]) == bases[l].intersect(bases[k]));
                }
                if k == l {
                    assert(bases[k].intersect(bases[l]) =~= bases[k]);
                } else {
                    assert(base.intersect(base) =~= base);
                    if k < l {
                        assert(bases[k].intersect(bases[l]) == base.intersect(base));
                    } else {
                        assert(bases[l].intersect(bases[k]) == base.intersect(base));
                    }
                }
            }
        }
    }
}

/// The target union holds exactly the elements of the replica sets.
pub proof fn lemma_union_of(sets: Seq<Set<Element>>, n: nat, e: Element)
    requires
        n <= sets.len(),
    ensures
        union_of(sets, n).contains(e) <==> exists|i: int|
            0 <= i < n && (#[trigger] sets[i]).contains(e),
    decreases n,
{
    if n > 0 {
        lemma_union_of(sets, (n - 1) as nat, e);
        if sets[n - 1].contains(e) {
            assert(0 <= n - 1 < n && sets[n - 1].contains(e));
        }
    }
}

/// Some draw from `at` up to `end` is the position.
pub open spec fn names(draws: Seq<usize>, at: int, end: int, position: int) -> bool {
    exists|x: int| at <= x < end && #[trigger] draws[x] == position
}

/// All draws are positions below `size`, and any `width` of them in a row name each position.
pub open spec fn covers(draws: Seq<usize>, size: nat, width: nat) -> bool {
    &&& forall|x: int| 0 <= x < draws.len() ==> (#[trigger] draws[x]) < size
    &&& forall|at: int, position: int|
        0 <= at && at + width <= draws.len() && 0 <= position < size ==> #[trigger] names(
            draws,
            at,
            at + width,
            position,
        )
}

/// How many different elements a workload takes from the universe.
pub open spec fn elements_needed(c: WorkloadConfig) -> int {
    if c.pattern == DivergencePattern::Uniform {
        let common = common_count(c.jaccard_similarity, c.set_size as nat);
        common + c.num_replicas * (c.set_size - common)
    } else {
        let global = common_count(c.jaccard_inter->0, c.set_size as nat);
        let shared = less(common_count(c.jaccard_intra->0, c.set_size as nat), global);
        let unique = less(c.set_size, (global + shared) as usize);
        global + c.cluster_count->0 * shared + c.num_replicas * unique
    }
}

/// How many times a workload draws a set of elements.
pub open spec fn sets_drawn(c: WorkloadConfig) -> int {
    if c.pattern == DivergencePattern::Uniform {
        1 + c.num_replicas
    } else {
        1 + c.cluster_count->0 + c.num_replicas
    }
}

proof fn lemma_sampling_ends(
    universe: Seq<Element>,
    draws: Seq<usize>,
    start: nat,
    at: nat,
    end: nat,
    count: nat,
    exclude: Set<Element>,
    got: Set<Element>,
)
    requires
        universe.no_duplicates(),
        forall|x: int| 0 <= x < draws.len() ==> (#[trigger] draws[x]) < universe.len(),
        start <= at <= end <= draws.len(),
        forall|p: int|
            0 <= p < universe.len() ==> #[trigger] names(draws, start as int, end as int, p),
        exclude.finite(),
        got.finite(),
        count + exclude.len() <= universe.len(),
        forall|x: int|
            start <= x < at && !exclude.contains(universe[#[trigger] draws[x] as int])
                ==> got.contains(universe[draws[x] as int]),
    ensures
        sampled(universe, draws, at, count, exclude, got) matches Ok(r) && at <= r.1 <= end,
    decreases end - at,
{
    if got.len() < count {
        if at < end {
            let e = universe[draws[at as int] as int];
            let more = if exclude.contains(e) {
                got
            } else {
                got.insert(e)
            };
            lemma_sampling_ends(universe, draws, start, at + 1, end, count, exclude, more);
        } else {
            let all = universe.to_set();
            universe.unique_seq_to_set();
            vstd::seq_lib::seq_to_set_is_finite(universe);
            let rest = all.difference(exclude);
            assert forall|e: Element| rest.contains(e) implies got.contains(e) by {
                let p = choose|p: int| 0 <= p < universe.len() && universe[p] == e;
                assert(names(draws, start as int, end as int, p));
                let x = choose|x: int| start <= x < end && #[trigger] draws[x] == p;
                assert(universe[draws[x] as int] == e);
            }
            lemma_len_subset(rest, got);
            let both = all.intersect(exclude);
            lemma_len_subset(both, exclude);
            assert(all =~= rest.union(both));
            lemma_len_union(rest, both);
            assert(false);
        }
    }
}

proof fn lemma_picking_ends(
    universe: Seq<Element>,
    draws: Seq<usize>,
    at: nat,
    width: nat,
    count: usize,
    exclude: Set<Element>,
)
    requires
        universe.no_duplicates(),
        covers(draws, universe.len(), width),
        at + width <= draws.len(),
        exclude.finite(),
        count + exclude.len() <= universe.len(),
    ensures
        picked(universe, draws, at, count, exclude) matches Ok(r) && r.1 <= at + width,
{
    lemma_sampling_ends(
        universe,
        draws,
        at,
        at,
        at + width,
        count as nat,
        exclude,
        Set::empty(),
    );
}

proof fn lemma_union_finite(sets: Seq<Set<Element>>, n: nat)
    requires
        n <= sets.len(),
        forall|i: int| 0 <= i < sets.len() ==> (#[trigger] sets[i]).finite(),
    ensures
        union_of(sets, n).finite(),
    decreases n,
{
    if n > 0 {
        lemma_union_finite(sets, (n - 1) as nat);
        assert(sets[n - 1].finite());
    }
}

proof fn lemma_spreading_ends(
    universe: Seq<Element>,
    draws: Seq<usize>,
    at: nat,
    width: nat,
    extra: usize,
    bases: Seq<Set<Element>>,
    n: nat,
)
    requires
        universe.no_duplicates(),
        covers(draws, universe.len(), width),
        at + n * width <= draws.len(),
        bases.len() > 0,
        forall|i: int| 0 <= i < bases.len() ==> (#[trigger] bases[i]).finite(),
        union_of(bases, bases.len()).len() + n * extra <= universe.len(),
    ensures
        spread(universe, draws, at, extra, bases, n) matches Ok(r) && {
            &&& r.0.len() == n
            &&& r.1 <= at + n * width
            &&& forall|i: int| 0 <= i < n ==> (#[trigger] r.0[i]).finite()
            &&& handed_out(bases, r.0).finite()
            &&& handed_out(bases, r.0).len() <= union_of(bases, bases.len()).len() + n * extra
        },
    decreases n,
{
    let first = union_of(bases, bases.len());
    lemma_union_finite(bases, bases.len());
    if n == 0 {
        assert(handed_out(bases, Seq::empty()) =~= first);
        assert(0 * width == 0 && 0 * extra == 0);
    } else {
        let m = (n - 1) as nat;
        assert(n * width == m * width + width) by (nonlinear_arith)
            requires
                n == m + 1,
        ;
        assert(n * extra == m * extra + extra) by (nonlinear_arith)
            requires
                n == m + 1,
        ;
        lemma_spreading_ends(universe, draws, at, width, extra, bases, m);
        let (sets, next) = spread(universe, draws, at, extra, bases, m)->Ok_0;
        let out = handed_out(bases, sets);
        lemma_picking_ends(universe, draws, next, width, extra, out);
        lemma_picked(universe, draws, next, extra, out);
        let (new, last) = picked(universe, draws, next, extra, out)->Ok_0;
        let k = m as int % bases.len() as int;
        vstd::arithmetic::div_mod::lemma_mod_bound(m as int, bases.len() as int);
        let base = bases[k];
        let all = sets.push(base.union(new));
        lemma_union_same(all, sets, m);
        lemma_base_within(bases, k);
        assert(handed_out(bases, all) =~= out.union(new));
        lemma_set_disjoint_lens(out, new);
        assert(out + new =~= out.union(new));
        assert forall|i: int| 0 <= i < n implies (#[trigger] all[i]).finite() by {
            if i < m {
                assert(all[i] == sets[i]);
            }
        }
    }
}

/// A run of draws makes every workload for which the universe has enough elements, as long as
/// those have different digests: it is enough that any `width` draws in a row name each
/// position, and that there are so many for each set that is drawn.
pub proof fn lemma_draws_suffice(c: WorkloadConfig, draws: Seq<usize>, width: nat)
    requires
        fault(c) is None,
        c.pattern == DivergencePattern::Uniform ==> common_count(
            c.jaccard_similarity,
            c.set_size as nat,
        ) <= c.set_size,
        universe_of(c).no_duplicates(),
        elements_needed(c) <= c.universe_size,
        covers(draws, c.universe_size as nat, width),
        sets_drawn(c) * width <= draws.len(),
    ensures
        replica_sets_of(c, draws) is Ok,
{
    let universe = universe_of(c);
    let n = c.num_replicas as nat;
    if c.pattern == DivergencePattern::Uniform {
        let common = common_count(c.jaccard_similarity, c.set_size as nat);
        let unique = (c.set_size - common) as usize;
        assert((1 + n) * width == width + n * width) by (nonlinear_arith);
        assert(n * width >= 0 && n * unique >= 0) by (nonlinear_arith);
        assert(sets_drawn(c) == 1 + n);
        assert(elements_needed(c) == common + n * unique);
        lemma_picking_ends(universe, draws, 0, width, common, Set::empty());
        lemma_picked(universe, draws, 0, common, Set::empty());
        let (base, at) = picked(universe, draws, 0, common, Set::empty())->Ok_0;
        lemma_single_union(base);
        lemma_spreading_ends(universe, draws, at, width, unique, seq![base], n);
    } else {
        let global = common_count(c.jaccard_inter->0, c.set_size as nat);
        let shared = less(common_count(c.jaccard_intra->0, c.set_size as nat), global);
        let unique = less(c.set_size, (global + shared) as usize);
        let k = c.cluster_count->0 as nat;
        assert((1 + k + n) * width == width + k * width + n * width) by (nonlinear_arith);
        assert(n * width >= 0 && k * width >= 0) by (nonlinear_arith);
        assert(n * unique >= 0 && k * shared >= 0) by (nonlinear_arith);
        assert(sets_drawn(c) == 1 + k + n);
        assert(elements_needed(c) == global + k * shared + n * unique);
        lemma_picking_ends(universe, draws, 0, width, global, Set::empty());
        lemma_picked(universe, draws, 0, global, Set::empty());
        let (base, at) = picked(universe, draws, 0, global, Set::empty())->Ok_0;
        lemma_single_union(base);
        lemma_spreading_ends(universe, draws, at, width, shared, seq![base], k);
        let (bases, next) = spread(universe, draws, at, shared, seq![base], k)->Ok_0;
        let out = handed_out(seq![base], bases);
        lemma_len_subset(union_of(bases, bases.len()), out);
        lemma_spreading_ends(universe, draws, next, width, unique, bases, n);
    }
}

proof fn lemma_single_union(base: Set<Element>)
    ensures
        union_of(seq![base], 1) == base,
{
    let one = seq![base];
    assert(union_of(one, 0) == Set::<Element>::empty());
    assert(union_of(one, 1) =~= base);
}

/// All positions below `size` in turn, over and over.
pub open spec fn in_turn(size: usize, len: nat) -> Seq<usize> {
    Seq::new(len, |x: int| (x % size as int) as usize)
}

/// Such draws exist: naming all positions in turn does.
pub proof fn lemma_in_turn_covers(size: usize, len: nat)
    requires
        size > 0,
    ensures
        covers(in_turn(size, len), size as nat, size as nat),
{
    let draws = in_turn(size, len);
    let n = size as int;
    assert forall|x: int| 0 <= x < draws.len() implies (#[trigger] draws[x]) < size by {
        vstd::arithmetic::div_mod::lemma_mod_bound(x, n);
    }
    assert forall|at: int, p: int|
        0 <= at && at + size <= draws.len() && 0 <= p < size implies #[trigger] names(
        draws,
        at,
        at + size as nat,
        p,
    ) by {
        let step = (p - at) % n;
        vstd::arithmetic::div_mod::lemma_mod_bound(p - at, n);
        let x = at + step;
        vstd::arithmetic::div_mod::lemma_add_mod_noop_right(at, p - at, n);
        vstd::arithmetic::div_mod::lemma_small_mod(p as nat, n as nat);
        assert(x % n == p);
        assert(draws[x] == p);
    }
}

proof fn lemma_sampled_with_more(
    universe: Seq<Element>,
    draws: Seq<usize>,
    more: Seq<usize>,
    at: nat,
    count: nat,
    exclude: Set<Element>,
    got: Set<Element>,
)
    requires
        sampled(universe, draws, at, count, exclude, got) is Ok,
    ensures
        sampled(universe, draws + more, at, count, exclude, got) == sampled(
            universe,
            draws,
            at,
            count,
            exclude,
            got,
        ),
    decreases draws.len() - at,
{
    if got.len() < count {
        assert((draws + more)[at as int] == draws[at as int]);
        let e = universe[draws[at as int] as int];
        let next = if exclude.contains(e) {
            got
        } else {
            got.insert(e)
        };
        lemma_sampled_with_more(universe, draws, more, at + 1, count, exclude, next);
    }
}

proof fn lemma_spread_with_more(
    universe: Seq<Element>,
    draws: Seq<usize>,
    more: Seq<usize>,
    at: nat,
    extra: usize,
    bases: Seq<Set<Element>>,
    n: nat,
)
    requires
        spread(universe, draws, at, extra, bases, n) is Ok,
    ensures
        spread(universe, draws + more, at, extra, bases, n) == spread(
            universe,
            draws,
            at,
            extra,
            bases,
            n,
        ),
    decreases n,
{
    if n > 0 {
        lemma_spread_with_more(universe, draws, more, at, extra, bases, (n - 1) as nat);
        let (sets, next) = spread(universe, draws, at, extra, bases, (n - 1) as nat)->Ok_0;
        let out = handed_out(bases, sets);
        lemma_sampled_with_more(
            universe,
            draws,
            more,
            next,
            extra as nat,
            out,
            Set::empty(),
        );
    }
}

/// Only as many draws are used as are needed: once a list of draws makes a workload, more of
/// them make the same one.
pub proof fn lemma_more_draws(c: WorkloadConfig, draws: Seq<usize>, more: Seq<usize>)
    requires
        replica_sets_of(c, draws) is Ok,
    ensures
        replica_sets_of(c, draws + more) == replica_sets_of(c, draws),
{
    let universe = universe_of(c);
    let none = Set::<Element>::empty();
    if c.pattern == DivergencePattern::Uniform {
        let common = common_count(c.jaccard_similarity, c.set_size as nat);
        lemma_sampled_with_more(universe, draws, more, 0, common as nat, none, none);
        let (base, at) = picked(universe, draws, 0, common, none)->Ok_0;
        lemma_spread_with_more(
            universe,
            draws,
            more,
            at,
            (c.set_size - common) as usize,
            seq![base],
            c.num_replicas as nat,
        );
    } else {
        let global = common_count(c.jaccard_inter->0, c.set_size as nat);
        let shared = less(common_count(c.jaccard_intra->0, c.set_size as nat), global);
        let unique = less(c.set_size, (global + shared) as usize);
        let k = c.cluster_count->0 as nat;
        lemma_sampled_with_more(universe, draws, more, 0, global as nat, none, none);
        let (base, at) = picked(universe, draws, 0, global, none)->Ok_0;
        lemma_spread_with_more(universe, draws, more, at, shared, seq![base], k);
        let (bases, next) = spread(universe, draws, at, shared, seq![base], k)->Ok_0;
        lemma_spread_with_more(
            universe,
            draws,
            more,
            next,
            unique,
            bases,
            c.num_replicas as nat,
        );
    }
}

/// An element as the configuration asks for it: with the configured payload, and the lowest
/// configured bits of the hash of an id of the universe for a digest.
pub open spec fn made_for(c: WorkloadConfig, e: Element) -> bool {
    &&& e.payload_len == c.payload_size
    &&& (e.digest as nat) < pow2(c.digest_bits as nat)
    &&& exists|id: u64|
        id < c.universe_size && e.digest as nat == (#[trigger] DefaultHasher::spec_finish(
            hashing::u64_hash_writes(id),
        )) as nat % pow2(c.digest_bits as nat)
}

proof fn lemma_made(c: WorkloadConfig, e: Element)
    requires
        1 <= c.digest_bits <= 64,
        universe_of(c).contains(e),
    ensures
        made_for(c, e),
{
    let universe = universe_of(c);
    let x = choose|x: int| 0 <= x < universe.len() && universe[x] == e;
    let id = x as u64;
    let hash = DefaultHasher::spec_finish(hashing::u64_hash_writes(id));
    let bits = c.digest_bits as nat;
    lemma_pow2_pos(bits);
    lemma2_to64_rest();
    if bits < 64 {
        lemma_pow2_strictly_increases(bits, 64);
    }
    vstd::arithmetic::div_mod::lemma_mod_bound(hash as int, pow2(bits) as int);
    if bits == 64 {
        vstd::arithmetic::div_mod::lemma_small_mod(hash as nat, pow2(64));
    }
    assert(e.digest as nat == hash as nat % pow2(bits));
}

/// Every element of a workload is one that the configuration asks for: its payload has the
/// configured size, and its digest is the hash of some id of the universe, cut to the
/// configured number of bits.
pub proof fn lemma_elements(c: WorkloadConfig, draws: Seq<usize>)
    ensures
        replica_sets_of(c, draws) matches Ok(sets) ==> {
            &&& sets.len() == c.num_replicas
            &&& forall|i: int, e: Element|
                0 <= i < sets.len() && #[trigger] sets[i].contains(e) ==> made_for(c, e)
        },
{
    if let Ok(sets) = replica_sets_of(c, draws) {
        let universe = universe_of(c);
        let size = if c.pattern == DivergencePattern::Uniform {
            lemma_uniform(c, draws);
            c.set_size as nat
        } else {
            lemma_clustered(c, draws);
            clustered_size(c)
        };
        let count = if c.pattern == DivergencePattern::Uniform {
            common_count(c.jaccard_similarity, c.set_size as nat) as nat
        } else {
            common_count(c.jaccard_inter->0, c.set_size as nat) as nat
        };
        assert(sharing(sets, count, size, universe));
        let common = choose|common: Set<Element>|
            common.finite() && common.len() == count && #[trigger] built_on(
                sets,
                common,
                size,
                universe,
            );
        assert forall|i: int, e: Element|
            0 <= i < sets.len() && #[trigger] sets[i].contains(e) implies made_for(c, e) by {
            assert(within(sets[i], universe));
            lemma_made(c, e);
        }
    }
}

/// Some draw from `at` up to `end` names the element.
pub open spec fn drawn(
    universe: Seq<Element>,
    draws: Seq<usize>,
    at: int,
    end: int,
    e: Element,
) -> bool {
    exists|x: int| at <= x < end && #[trigger] universe[draws[x] as int] == e
}

proof fn lemma_sampled_exactly(
    universe: Seq<Element>,
    draws: Seq<usize>,
    start: nat,
    at: nat,
    count: nat,
    exclude: Set<Element>,
    got: Set<Element>,
)
    requires
        start <= at,
        got.finite(),
        forall|e: Element| #[trigger]
            got.contains(e) <==> !exclude.contains(e) && drawn(
                universe,
                draws,
                start as int,
                at as int,
                e,
            ),
        got.len() <= count,
        at > start && got.len() == count ==> !exclude.contains(
            universe[draws[at - 1] as int],
        ) && !drawn(
            universe,
            draws,
            start as int,
            at - 1,
            universe[draws[at - 1] as int],
        ),
    ensures
        sampled(universe, draws, at, count, exclude, got) matches Ok(r) ==> {
            &&& r.1 >= at
            &&& forall|e: Element| #[trigger]
                r.0.contains(e) <==> !exclude.contains(e) && drawn(
                    universe,
                    draws,
                    start as int,
                    r.1 as int,
                    e,
                )
            &&& r.1 > start ==> !exclude.contains(universe[draws[r.1 - 1] as int]) && !drawn(
                universe,
                draws,
                start as int,
                r.1 - 1,
                universe[draws[r.1 - 1] as int],
            )
        },
    decreases draws.len() - at,
{
    if got.len() < count && at < draws.len() && draws[at as int] < universe.len() {
        let e = universe[draws[at as int] as int];
        let more = if exclude.contains(e) {
            got
        } else {
            got.insert(e)
        };
        assert forall|f: Element| #[trigger] more.contains(f) <==> !exclude.contains(f) && drawn(
            universe,
            draws,
            start as int,
            at as int + 1,
            f,
        ) by {
            if drawn(universe, draws, start as int, at as int, f) {
                let x = choose|x: int|
                    start <= x < at && #[trigger] universe[draws[x] as int] == f;
                assert(universe[draws[x] as int] == f);
            }
            if f == e {
                assert(universe[draws[at as int] as int] == f);
            }
            if drawn(universe, draws, start as int, at as int + 1, f) && f != e {
                let x = choose|x: int|
                    start <= x < at + 1 && #[trigger] universe[draws[x] as int] == f;
                assert(x < at);
            }
        }
        if more.len() == count {
            assert(got.len() < more.len());
            assert(!got.contains(e));
        }
        lemma_sampled_exactly(universe, draws, start, at + 1, count, exclude, more);
    }
}

/// The draws alone say what is picked: exactly the elements that the draws used name, but for
/// those to be avoided. No draw is skipped, and none is used after the last element was found.
pub proof fn lemma_picked_exactly(
    universe: Seq<Element>,
    draws: Seq<usize>,
    at: nat,
    count: usize,
    exclude: Set<Element>,
)
    ensures
        picked(universe, draws, at, count, exclude) matches Ok(r) ==> {
            &&& r.1 >= at
            &&& forall|e: Element| #[trigger]
                r.0.contains(e) <==> !exclude.contains(e) && drawn(
                    universe,
                    draws,
                    at as int,
                    r.1 as int,
                    e,
                )
            &&& r.1 > at ==> !exclude.contains(universe[draws[r.1 - 1] as int]) && !drawn(
                universe,
                draws,
                at as int,
                r.1 - 1,
                universe[draws[r.1 - 1] as int],
            )
        },
{
    lemma_sampled_exactly(universe, draws, at, at, count as nat, exclude, Set::empty());
}

/// A configuration is accepted exactly where nothing is wrong with it.
pub proof fn lemma_accepted(c: WorkloadConfig)
    ensures
        fault(c) is None <==> {
            &&& c.num_replicas > 0
            &&& c.set_size > 0
            &&& 1 <= c.digest_bits <= 64
            &&& c.universe_size >= c.set_size
            &&& c.jaccard_similarity.unit()
            &&& c.zipf_exponent.positive()
            &&& c.pattern == DivergencePattern::Clustered ==> {
                &&& c.cluster_count is Some
                &&& c.jaccard_inter is Some
                &&& c.jaccard_intra is Some
                &&& 0 < c.cluster_count->0 <= c.num_replicas
                &&& (c.jaccard_intra->0).unit()
                &&& (c.jaccard_inter->0).unit()
                &&& (c.jaccard_inter->0).key() <= (c.jaccard_intra->0).key()
            }
        },
{
}

/// A fault that is reported is one that the configuration has, and none that comes before it in
/// the order of the checks is.
pub proof fn lemma_fault_is_there(c: WorkloadConfig)
    ensures
        match fault(c) {
            None => c.num_replicas > 0 && c.set_size > 0,
            Some(ConfigError::NoReplicas) => c.num_replicas == 0,
            Some(ConfigError::EmptySets) => c.set_size == 0 && c.num_replicas > 0,
            Some(ConfigError::DigestBits) => (c.digest_bits == 0 || c.digest_bits > 64)
                && c.set_size > 0 && c.num_replicas > 0,
            Some(ConfigError::JaccardSimilarity) => !c.jaccard_similarity.unit() && 1
                <= c.digest_bits <= 64,
            Some(ConfigError::SmallUniverse) => c.universe_size < c.set_size
                && c.jaccard_similarity.unit(),
            Some(ConfigError::ZipfExponent) => !c.zipf_exponent.positive() && c.universe_size
                >= c.set_size,
            Some(e) => {
                &&& c.pattern == DivergencePattern::Clustered
                &&& c.zipf_exponent.positive()
                &&& match e {
                    ConfigError::MissingClusterCount => c.cluster_count is None,
                    ConfigError::MissingJaccardInter => c.jaccard_inter is None
                        && c.cluster_count is Some,
                    ConfigError::MissingJaccardIntra => c.jaccard_intra is None
                        && c.jaccard_inter is Some,
                    ConfigError::NoClusters => c.cluster_count == Some(0usize),
                    ConfigError::TooManyClusters => c.cluster_count is Some
                        && c.cluster_count->0 > c.num_replicas,
                    ConfigError::JaccardIntra => c.jaccard_intra is Some && !(
                    c.jaccard_intra->0).unit(),
                    ConfigError::JaccardInter => c.jaccard_inter is Some && !(
                    c.jaccard_inter->0).unit(),
                    ConfigError::IntraBelowInter => {
                        &&& c.jaccard_intra is Some && c.jaccard_inter is Some
                        &&& (c.jaccard_intra->0).unit() && (c.jaccard_inter->0).unit()
                        &&& (c.jaccard_intra->0).key() < (c.jaccard_inter->0).key()
                    },
                    _ => true,
                }
            },
        },
{
}

/// The parameter that is at fault.
pub open spec fn parameter(e: ConfigError) -> Seq<char> {
    match e {
        ConfigError::NoReplicas => "num_replicas"@,
        ConfigError::EmptySets => "set_size"@,
        ConfigError::DigestBits => "digest_bits"@,
        ConfigError::JaccardSimilarity => "jaccard_similarity"@,
        ConfigError::SmallUniverse => "universe_size"@,
        ConfigError::ZipfExponent => "zipf_exponent"@,
        ConfigError::MissingClusterCount => "cluster_count"@,
        ConfigError::MissingJaccardInter => "jaccard_inter"@,
        ConfigError::MissingJaccardIntra => "jaccard_intra"@,
        ConfigError::NoClusters => "cluster_count"@,
        ConfigError::TooManyClusters => "cluster_count"@,
        ConfigError::JaccardIntra => "jaccard_intra"@,
        ConfigError::JaccardInter => "jaccard_inter"@,
        ConfigError::IntraBelowInter => "jaccard_intra"@,
    }
}

/// Every message begins with the name of the parameter that is at fault.
pub proof fn lemma_messages(e: ConfigError)
    ensures
        e.text().len() > parameter(e).len(),
        e.text().take(parameter(e).len() as int) == parameter(e),
{
    match e {
        ConfigError::NoReplicas => {
            reveal_strlit("num_replicas");
            reveal_strlit("num_replicas must be > 0");
        },
        ConfigError::EmptySets => {
            reveal_strlit("set_size");
            reveal_strlit("set_size must be > 0");
        },
        ConfigError::DigestBits => {
            reveal_strlit("digest_bits");
            reveal_strlit("digest_bits must be in 1..=64");
        },
        ConfigError::JaccardSimilarity => {
            reveal_strlit("jaccard_similarity");
            reveal_strlit("jaccard_similarity must be in [0, 1]");
        },
        ConfigError::SmallUniverse => {
            reveal_strlit("universe_size");
            reveal_strlit("universe_size must be >= set_size");
        },
        ConfigError::ZipfExponent => {
            reveal_strlit("zipf_exponent");
            reveal_strlit("zipf_exponent must be > 0");
        },
        ConfigError::MissingClusterCount => {
            reveal_strlit("cluster_count");
            reveal_strlit("cluster_count is required for clustered");
        },
        ConfigError::MissingJaccardInter => {
            reveal_strlit("jaccard_inter");
            reveal_strlit("jaccard_inter is required for clustered");
        },
        ConfigError::MissingJaccardIntra => {
            reveal_strlit("jaccard_intra");
            reveal_strlit("jaccard_intra is required for clustered");
        },
        ConfigError::NoClusters => {
            reveal_strlit("cluster_count");
            reveal_strlit("cluster_count must be > 0");
        },
        ConfigError::TooManyClusters => {
            reveal_strlit("cluster_count");
            reveal_strlit("cluster_count must be <= num_replicas");
        },
        ConfigError::JaccardIntra => {
            reveal_strlit("jaccard_intra");
            reveal_strlit("jaccard_intra must be in [0, 1]");
        },
        ConfigError::JaccardInter => {
            reveal_strlit("jaccard_inter");
            reveal_strlit("jaccard_inter must be in [0, 1]");
        },
        ConfigError::IntraBelowInter => {
            reveal_strlit("jaccard_intra");
            reveal_strlit("jaccard_intra must be >= jaccard_inter (same-cluster pairs are more similar)");
        },
    }
    assert(e.text().take(parameter(e).len() as int) =~= parameter(e));
}

} // verus!
