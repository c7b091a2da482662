//! Batches of runs.

use crate::simulator::binary64::Double;
use crate::simulator::counter;
use crate::simulator::counter::add_usize;
use crate::simulator::engine::SimulationConfig;
use crate::simulator::protocols::ProtocolKind;
use crate::simulator::topology::TopologyKind;
use crate::simulator::workload::{DivergencePattern, WorkloadConfig};
use vstd::prelude::*;

verus! {

/// The parameters of a batch: one run for each protocol, topology, divergence and seed.
#[derive(Debug)]
pub struct BatchRunnerConfig {
    pub output_path: String,
    pub protocols: Vec<ProtocolKind>,
    pub topologies: Vec<TopologyKind>,
    pub divergences: Vec<Double>,
    pub seeds: Vec<u64>,
    pub num_replicas: usize,
    pub set_size: usize,
    pub payload_size: usize,
    pub digest_bits: usize,
    pub pattern: DivergencePattern,
    pub round_cap: usize,
    pub universe_size: usize,
    pub zipf_exponent: Double,
    pub cluster_count: Option<usize>,
    pub inter_cluster_divergence: Option<Double>,
    pub intra_cluster_divergence: Option<Double>,
}

impl BatchRunnerConfig {
    /// The usual batch. The divergences are 0.001, 0.01, 0.05, 0.1 and 0.2, the exponent is 1.
    pub fn baseline(output_path: String) -> (c: Self)
        ensures
            c.output_path == output_path,
            c.protocols@ == seq![ProtocolKind::FullStateTransfer, ProtocolKind::Riblt],
            c.topologies@ == seq![TopologyKind::Star, TopologyKind::Tree, TopologyKind::Chord],
            c.divergences@ == seq![
                Double { bits: 0x3f50_624d_d2f1_a9fc },
                Double { bits: 0x3f84_7ae1_47ae_147b },
                Double { bits: 0x3fa9_9999_9999_999a },
                Double { bits: 0x3fb9_9999_9999_999a },
                Double { bits: 0x3fc9_9999_9999_999a },
            ],
            c.seeds@ == Seq::new(10, |i: int| i as u64),
            c.num_replicas == 8,
            c.set_size == 10_000,
            c.payload_size == 32,
            c.digest_bits == 64,
            c.pattern == DivergencePattern::Uniform,
            c.round_cap == 20,
            c.universe_size == 100_000,
            c.zipf_exponent == (Double { bits: 0x3ff0_0000_0000_0000 }),
            c.cluster_count is None,
            c.inter_cluster_divergence is None,
            c.intra_cluster_divergence is None,
    {
        let protocols: Vec<ProtocolKind> = vec![ProtocolKind::FullStateTransfer, ProtocolKind::Riblt];
        let topologies: Vec<TopologyKind> = vec![
            TopologyKind::Star,
            TopologyKind::Tree,
            TopologyKind::Chord,
        ];
        let divergences: Vec<Double> = vec![
            Double { bits: 0x3f50_624d_d2f1_a9fc },
            Double { bits: 0x3f84_7ae1_47ae_147b },
            Double { bits: 0x3fa9_9999_9999_999a },
            Double { bits: 0x3fb9_9999_9999_999a },
            Double { bits: 0x3fc9_9999_9999_999a },
        ];
        let mut seeds: Vec<u64> = Vec::new();
        let mut seed: u64 = 0;
        while seed < 10
            invariant
                seed <= 10,
                seeds@ == Seq::new(seed as nat, |i: int| i as u64),
            decreases 10 - seed,
        {
            seeds.push(seed);
            seed = seed + 1;
            assert(seeds@ =~= Seq::new(seed as nat, |i: int| i as u64));
        }
        BatchRunnerConfig {
            output_path,
            protocols,
            topologies,
            divergences,
            seeds,
            num_replicas: 8,
            set_size: 10_000,
            payload_size: 32,
            digest_bits: 64,
            pattern: DivergencePattern::Uniform,
            round_cap: 20,
            universe_size: 100_000,
            zipf_exponent: Double { bits: 0x3ff0_0000_0000_0000 },
            cluster_count: None,
            inter_cluster_divergence: None,
            intra_cluster_divergence: None,
        }
    }

    /// One run of the batch.
    pub open spec fn run_of(
        self,
        protocol: ProtocolKind,
        topology: TopologyKind,
        divergence: Double,
        seed: u64,
    ) -> SimulationConfig {
        SimulationConfig {
            round_cap: self.round_cap,
            seed,
            topology,
            protocol,
            workload: WorkloadConfig {
                num_replicas: self.num_replicas,
                set_size: self.set_size,
                payload_size: self.payload_size,
                digest_bits: self.digest_bits,
                jaccard_similarity: divergence,
                pattern: self.pattern,
                seed,
                universe_size: self.universe_size,
                zipf_exponent: self.zipf_exponent,
                cluster_count: self.cluster_count,
                jaccard_inter: self.inter_cluster_divergence,
                jaccard_intra: self.intra_cluster_divergence,
            },
        }
    }

    /// The runs for the given seeds.
    pub open spec fn by_seed(
        self,
        protocol: ProtocolKind,
        topology: TopologyKind,
        divergence: Double,
        seeds: Seq<u64>,
    ) -> Seq<SimulationConfig> {
        seeds.map_values(|seed: u64| self.run_of(protocol, topology, divergence, seed))
    }

    /// The runs for the given divergences, each with all seeds.
    pub open spec fn by_divergence(
        self,
        protocol: ProtocolKind,
        topology: TopologyKind,
        divergences: Seq<Double>,
    ) -> Seq<SimulationConfig>
        decreases divergences.len(),
    {
        if divergences.len() == 0 {
            Seq::empty()
        } else {
            self.by_divergence(protocol, topology, divergences.drop_last()) + self.by_seed(
                protocol,
                topology,
                divergences.last(),
                self.seeds@,
            )
        }
    }

    /// The runs for the given topologies, each with all divergences.
    pub open spec fn by_topology(
        self,
        protocol: ProtocolKind,
        topologies: Seq<TopologyKind>,
    ) -> Seq<SimulationConfig>
        decreases topologies.len(),
    {
        if topologies.len() == 0 {
            Seq::empty()
        } else {
            self.by_topology(protocol, topologies.drop_last()) + self.by_divergence(
                protocol,
                topologies.last(),
                self.divergences@,
            )
        }
    }

    /// The runs for the given protocols, each with all topologies.
    pub open spec fn by_protocol(self, protocols: Seq<ProtocolKind>) -> Seq<SimulationConfig>
        decreases protocols.len(),
    {
        if protocols.len() == 0 {
            Seq::empty()
        } else {
            self.by_protocol(protocols.drop_last()) + self.by_topology(
                protocols.last(),
                self.topologies@,
            )
        }
    }

    /// Where the run of a protocol, a topology, a divergence and a seed is planned: protocols
    /// are the slowest to change, then topologies, then divergences, and seeds the fastest.
    pub open spec fn position(self, p: int, t: int, d: int, s: int) -> int {
        ((p * self.topologies@.len() + t) * self.divergences@.len() + d) * self.seeds@.len() + s
    }

    /// The runs of the batch, in order.
    pub fn plan(&self) -> (r: Vec<SimulationConfig>)
        ensures
            r@ == self.by_protocol(self.protocols@),
            r@.len() == self.protocols@.len() * self.topologies@.len() * self.divergences@.len()
                * self.seeds@.len(),
            forall|p: int, t: int, d: int, s: int|
                0 <= p < self.protocols@.len() && 0 <= t < self.topologies@.len() && 0 <= d
                    < self.divergences@.len() && 0 <= s < self.seeds@.len() ==> {
                    let at = #[trigger] self.position(p, t, d, s);
                    &&& 0 <= at < r@.len()
                    &&& r@[at].protocol == self.protocols@[p]
                    &&& r@[at].topology == self.topologies@[t]
                    &&& r@[at].workload.jaccard_similarity == self.divergences@[d]
                    &&& r@[at].seed == self.seeds@[s]
                    &&& r@[at].workload.seed == self.seeds@[s]
                },
            forall|k: int|
                0 <= k < r@.len() ==> {
                    let run = #[trigger] r@[k];
                    &&& run.round_cap == self.round_cap
                    &&& run.workload.seed == run.seed
                    &&& run.workload.num_replicas == self.num_replicas
                    &&& run.workload.set_size == self.set_size
                    &&& run.workload.payload_size == self.payload_size
                    &&& run.workload.digest_bits == self.digest_bits
                    &&& run.workload.pattern == self.pattern
                    &&& run.workload.universe_size == self.universe_size
                    &&& run.workload.zipf_exponent == self.zipf_exponent
                    &&& run.workload.cluster_count == self.cluster_count
                    &&& run.workload.jaccard_inter == self.inter_cluster_divergence
                    &&& run.workload.jaccard_intra == self.intra_cluster_divergence
                },
    {
        proof {
            lemma_sized(*self, self.protocols@, 0, 0, 0, 0);
            assert forall|p: int, t: int, d: int, s: int|
                0 <= p < self.protocols@.len() && 0 <= t < self.topologies@.len() && 0 <= d
                    < self.divergences@.len() && 0 <= s < self.seeds@.len() implies {
                let runs = self.by_protocol(self.protocols@);
                let at = #[trigger] self.position(p, t, d, s);
                &&& 0 <= at < runs.len()
                &&& runs[at].protocol == self.protocols@[p]
                &&& runs[at].topology == self.topologies@[t]
                &&& runs[at].workload.jaccard_similarity == self.divergences@[d]
                &&& runs[at].seed == self.seeds@[s]
                &&& runs[at].workload.seed == self.seeds@[s]
            } by {
                lemma_planned_at(*self, p, t, d, s);
            }
            assert forall|k: int| 0 <= k < self.by_protocol(self.protocols@).len() implies {
                let run = #[trigger] self.by_protocol(self.protocols@)[k];
                run == self.run_of(
                    run.protocol,
                    run.topology,
                    run.workload.jaccard_similarity,
                    run.seed,
                )
            } by {
                lemma_all_alike(*self, self.protocols@, k);
            }
        }
        let mut r: Vec<SimulationConfig> = Vec::new();
        let mut i: usize = 0;
        assert(self.protocols@.take(0) =~= Seq::<ProtocolKind>::empty());
        while i < self.protocols.len()
            invariant
                i <= self.protocols@.len(),
                r@ == self.by_protocol(self.protocols@.take(i as int)),
            decreases self.protocols@.len() - i,
        {
            assert(self.protocols@.take(i + 1).drop_last() =~= self.protocols@.take(i as int));
            self.plan_topologies(self.protocols[i], &mut r);
            i = i + 1;
        }
        assert(self.protocols@.take(i as int) =~= self.protocols@);
        r
    }

    fn plan_topologies(&self, protocol: ProtocolKind, r: &mut Vec<SimulationConfig>)
        ensures
            final(r)@ == old(r)@ + self.by_topology(protocol, self.topologies@),
    {
        let ghost start = r@;
        let mut i: usize = 0;
        assert(self.topologies@.take(0) =~= Seq::<TopologyKind>::empty());
        assert(start + Seq::<SimulationConfig>::empty() =~= start);
        while i < self.topologies.len()
            invariant
                i <= self.topologies@.len(),
                r@ == start + self.by_topology(protocol, self.topologies@.take(i as int)),
            decreases self.topologies@.len() - i,
        {
            let topology: TopologyKind = self.topologies[i];
            let ghost before = self.by_topology(protocol, self.topologies@.take(i as int));
            self.plan_divergences(protocol, topology, r);
            assert(self.topologies@.take(i + 1).drop_last() =~= self.topologies@.take(i as int));
            i = i + 1;
            assert(r@ =~= start + self.by_topology(protocol, self.topologies@.take(i as int)));
        }
        assert(self.topologies@.take(i as int) =~= self.topologies@);
    }

    fn plan_divergences(
        &self,
        protocol: ProtocolKind,
        topology: TopologyKind,
        r: &mut Vec<SimulationConfig>,
    )
        ensures
            final(r)@ == old(r)@ + self.by_divergence(protocol, topology, self.divergences@),
    {
        let ghost start = r@;
        let mut i: usize = 0;
        assert(self.divergences@.take(0) =~= Seq::<Double>::empty());
        assert(start + Seq::<SimulationConfig>::empty() =~= start);
        while i < self.divergences.len()
            invariant
                i <= self.divergences@.len(),
                r@ == start + self.by_divergence(
                    protocol,
                    topology,
                    self.divergences@.take(i as int),
                ),
            decreases self.divergences@.len() - i,
        {
            let divergence: Double = self.divergences[i];
            self.plan_seeds(protocol, topology, divergence, r);
            assert(self.divergences@.take(i + 1).drop_last() =~= self.divergences@.take(
                i as int,
            ));
            i = i + 1;
            assert(r@ =~= start + self.by_divergence(
                protocol,
                topology,
                self.divergences@.take(i as int),
            ));
        }
        assert(self.divergences@.take(i as int) =~= self.divergences@);
    }

    fn plan_seeds(
        &self,
        protocol: ProtocolKind,
        topology: TopologyKind,
        divergence: Double,
        r: &mut Vec<SimulationConfig>,
    )
        ensures
            final(r)@ == old(r)@ + self.by_seed(protocol, topology, divergence, self.seeds@),
    {
        let ghost start = r@;
        let mut i: usize = 0;
        assert(start + self.by_seed(protocol, topology, divergence, self.seeds@.take(0)) =~= start);
        while i < self.seeds.len()
            invariant
                i <= self.seeds@.len(),
                r@ == start + self.by_seed(
                    protocol,
                    topology,
                    divergence,
                    self.seeds@.take(i as int),
                ),
            decreases self.seeds@.len() - i,
        {
            let seed: u64 = self.seeds[i];
            let run = SimulationConfig {
                round_cap: self.round_cap,
                seed,
                topology,
                protocol,
                workload: WorkloadConfig {
                    num_replicas: self.num_replicas,
                    set_size: self.set_size,
                    payload_size: self.payload_size,
                    digest_bits: self.digest_bits,
                    jaccard_similarity: divergence,
                    pattern: self.pattern,
                    seed,
                    universe_size: self.universe_size,
                    zipf_exponent: self.zipf_exponent,
                    cluster_count: self.cluster_count,
                    jaccard_inter: self.inter_cluster_divergence,
                    jaccard_intra: self.intra_cluster_divergence,
                },
            };
            r.push(run);
            i = i + 1;
            assert(r@ =~= start + self.by_seed(
                protocol,
                topology,
                divergence,
                self.seeds@.take(i as int),
            ));
        }
        assert(self.seeds@.take(i as int) =~= self.seeds@);
    }
}

/// A batch has one run for each protocol, topology, divergence and seed.
pub proof fn lemma_plan_size(c: BatchRunnerConfig)
    ensures
        c.by_protocol(c.protocols@).len() == c.protocols@.len() * (c.topologies@.len() * (
        c.divergences@.len() * c.seeds@.len())),
{
    lemma_protocols_size(c, c.protocols@);
}

proof fn lemma_divergences_size(
    c: BatchRunnerConfig,
    p: ProtocolKind,
    t: TopologyKind,
    ds: Seq<Double>,
)
    ensures
        c.by_divergence(p, t, ds).len() == ds.len() * c.seeds@.len(),
    decreases ds.len(),
{
    let n = c.seeds@.len();
    if ds.len() > 0 {
        let k = ds.drop_last().len();
        lemma_divergences_size(c, p, t, ds.drop_last());
        assert((k + 1) * n == k * n + n) by (nonlinear_arith);
    } else {
        assert(0 * n == 0) by (nonlinear_arith);
    }
}

proof fn lemma_topologies_size(c: BatchRunnerConfig, p: ProtocolKind, ts: Seq<TopologyKind>)
    ensures
        c.by_topology(p, ts).len() == ts.len() * (c.divergences@.len() * c.seeds@.len()),
    decreases ts.len(),
{
    let n = c.divergences@.len() * c.seeds@.len();
    if ts.len() > 0 {
        let k = ts.drop_last().len();
        lemma_topologies_size(c, p, ts.drop_last());
        lemma_divergences_size(c, p, ts.last(), c.divergences@);
        assert((k + 1) * n == k * n + n) by (nonlinear_arith);
    } else {
        assert(0 * n == 0) by (nonlinear_arith);
    }
}

proof fn lemma_protocols_size(c: BatchRunnerConfig, ps: Seq<ProtocolKind>)
    ensures
        c.by_protocol(ps).len() == ps.len() * (c.topologies@.len() * (c.divergences@.len()
            * c.seeds@.len())),
    decreases ps.len(),
{
    let n = c.topologies@.len() * (c.divergences@.len() * c.seeds@.len());
    if ps.len() > 0 {
        let k = ps.drop_last().len();
        lemma_protocols_size(c, ps.drop_last());
        lemma_topologies_size(c, ps.last(), c.topologies@);
        assert((k + 1) * n == k * n + n) by (nonlinear_arith);
    } else {
        assert(0 * n == 0) by (nonlinear_arith);
    }
}

/// How the runs of a batch ended.
#[derive(Clone, Copy, Debug, PartialEq, Eq, Structural)]
pub struct BatchRunSummary {
    pub total_runs: usize,
    pub converged_runs: usize,
    pub non_converged_runs: usize,
}

impl Default for BatchRunSummary {
    fn default() -> (s: Self)
        ensures
            s == (BatchRunSummary { total_runs: 0, converged_runs: 0, non_converged_runs: 0 }),
    {
        BatchRunSummary { total_runs: 0, converged_runs: 0, non_converged_runs: 0 }
    }
}

impl BatchRunSummary {
    /// Every run is counted once, as converged or not.
    pub open spec fn balanced(self) -> bool {
        self.total_runs == counter::wrap_usize(self.converged_runs + self.non_converged_runs)
    }

    /// Counts a run.
    pub fn record(&mut self, converged: bool)
        ensures
            *final(self) == (BatchRunSummary {
                total_runs: counter::wrap_usize(old(self).total_runs + 1),
                converged_runs: if converged {
                    counter::wrap_usize(old(self).converged_runs + 1)
                } else {
                    old(self).converged_runs
                },
                non_converged_runs: if converged {
                    old(self).non_converged_runs
                } else {
                    counter::wrap_usize(old(self).non_converged_runs + 1)
                },
            }),
            old(self).balanced() ==> final(self).balanced(),
    {
        proof {
            let (a, b) = (self.converged_runs as int, self.non_converged_runs as int);
            counter::lemma_wrap_usize_add(a + b, 1);
            counter::lemma_wrap_usize_add(a + 1, b);
            counter::lemma_wrap_usize_add(a, b + 1);
        }
        self.total_runs = add_usize(self.total_runs, 1);
        if converged {
            self.converged_runs = add_usize(self.converged_runs, 1);
        } else {
            self.non_converged_runs = add_usize(self.non_converged_runs, 1);
        }
    }
}

proof fn lemma_divergence_at(
    c: BatchRunnerConfig,
    p: ProtocolKind,
    t: TopologyKind,
    ds: Seq<Double>,
    d: int,
    s: int,
)
    ensures
        c.by_divergence(p, t, ds).len() == ds.len() * c.seeds@.len(),
        0 <= d < ds.len() && 0 <= s < c.seeds@.len() ==> {
            &&& 0 <= d * c.seeds@.len() + s < ds.len() * c.seeds@.len()
            &&& c.by_divergence(p, t, ds)[d * c.seeds@.len() + s] == c.run_of(
                p,
                t,
                ds[d],
                c.seeds@[s],
            )
        },
    decreases ds.len(),
{
    let w = c.seeds@.len();
    let k = ds.len();
    if k > 0 {
        let m = (k - 1) as nat;
        lemma_divergence_at(c, p, t, ds.drop_last(), d, s);
        assert(k * w == m * w + w) by (nonlinear_arith)
            requires
                k == m + 1,
        ;
        if 0 <= d < k && 0 <= s < w {
            assert(d * w >= 0) by (nonlinear_arith)
                requires
                    d >= 0,
            ;
            assert(d == m || d * w + w <= m * w) by (nonlinear_arith)
                requires
                    d == m || d + 1 <= m,
            ;
        }
    } else {
        assert(0 * w == 0);
    }
}

proof fn lemma_topology_at(
    c: BatchRunnerConfig,
    p: ProtocolKind,
    ts: Seq<TopologyKind>,
    t: int,
    d: int,
    s: int,
)
    ensures
        ({
            let (a, w) = (c.divergences@.len(), c.seeds@.len());
            let runs = c.by_topology(p, ts);
            &&& runs.len() == ts.len() * a * w
            &&& 0 <= t < ts.len() && 0 <= d < a && 0 <= s < w ==> {
                &&& 0 <= (t * a + d) * w + s < ts.len() * a * w
                &&& runs[(t * a + d) * w + s] == c.run_of(p, ts[t], c.divergences@[d], c.seeds@[s])
            }
        }),
    decreases ts.len(),
{
    let (a, w) = (c.divergences@.len(), c.seeds@.len());
    if ts.len() > 0 {
        let m = (ts.len() - 1) as nat;
        lemma_topology_at(c, p, ts.drop_last(), t, d, s);
        lemma_divergence_at(c, p, ts.last(), c.divergences@, d, s);
        assert(ts.len() * a * w == m * a * w + a * w) by (nonlinear_arith)
            requires
                ts.len() == m + 1,
        ;
        if 0 <= t < ts.len() && 0 <= d < a && 0 <= s < w {
            assert((t * a + d) * w + s == t * a * w + (d * w + s)) by (nonlinear_arith);
            assert(t * a * w >= 0) by (nonlinear_arith)
                requires
                    t >= 0,
            ;
            assert(t == m || t * a * w + a * w <= m * a * w) by (nonlinear_arith)
                requires
                    t == m || t + 1 <= m,
            ;
        }
    } else {
        assert(0 * a * w == 0) by (nonlinear_arith);
    }
}

proof fn lemma_sized(c: BatchRunnerConfig, ps: Seq<ProtocolKind>, p: int, t: int, d: int, s: int)
    ensures
        ({
            let (b, a, w) = (c.topologies@.len(), c.divergences@.len(), c.seeds@.len());
            let runs = c.by_protocol(ps);
            &&& runs.len() == ps.len() * b * a * w
            &&& 0 <= p < ps.len() && 0 <= t < b && 0 <= d < a && 0 <= s < w ==> {
                &&& 0 <= ((p * b + t) * a + d) * w + s < ps.len() * b * a * w
                &&& runs[((p * b + t) * a + d) * w + s] == c.run_of(
                    ps[p],
                    c.topologies@[t],
                    c.divergences@[d],
                    c.seeds@[s],
                )
            }
        }),
    decreases ps.len(),
{
    let (b, a, w) = (c.topologies@.len(), c.divergences@.len(), c.seeds@.len());
    if ps.len() > 0 {
        let m = (ps.len() - 1) as nat;
        lemma_sized(c, ps.drop_last(), p, t, d, s);
        lemma_topology_at(c, ps.last(), c.topologies@, t, d, s);
        assert(ps.len() * b * a * w == m * b * a * w + b * a * w) by (nonlinear_arith)
            requires
                ps.len() == m + 1,
        ;
        if 0 <= p < ps.len() && 0 <= t < b && 0 <= d < a && 0 <= s < w {
            assert(((p * b + t) * a + d) * w + s == p * b * a * w + ((t * a + d) * w + s))
                by (nonlinear_arith);
            let block = b * a * w;
            assert(p * b * a * w == p * block) by (nonlinear_arith)
                requires
                    block == b * a * w,
            ;
            assert(m * b * a * w == m * block) by (nonlinear_arith)
                requires
                    block == b * a * w,
            ;
            assert(p * block >= 0) by (nonlinear_arith)
                requires
                    p >= 0,
                    block >= 0,
            ;
            assert(p == m || p * block + block <= m * block) by (nonlinear_arith)
                requires
                    p == m || p + 1 <= m,
                    block >= 0,
            ;
        }
    } else {
        assert(0 * b * a * w == 0) by (nonlinear_arith);
    }
}

/// The run of each protocol, topology, divergence and seed is planned, at its position, and
/// made with that protocol, that topology, that divergence for a similarity and that seed.
pub proof fn lemma_planned_at(c: BatchRunnerConfig, p: int, t: int, d: int, s: int)
    requires
        0 <= p < c.protocols@.len(),
        0 <= t < c.topologies@.len(),
        0 <= d < c.divergences@.len(),
        0 <= s < c.seeds@.len(),
    ensures
        ({
            let runs = c.by_protocol(c.protocols@);
            let at = c.position(p, t, d, s);
            &&& 0 <= at < runs.len()
            &&& runs[at].protocol == c.protocols@[p]
            &&& runs[at].topology == c.topologies@[t]
            &&& runs[at].workload.jaccard_similarity == c.divergences@[d]
            &&& runs[at].seed == c.seeds@[s]
            &&& runs[at].workload.seed == c.seeds@[s]
        }),
{
    lemma_sized(c, c.protocols@, p, t, d, s);
}

proof fn lemma_divergences_alike(
    c: BatchRunnerConfig,
    p: ProtocolKind,
    t: TopologyKind,
    ds: Seq<Double>,
    k: int,
)
    requires
        0 <= k < c.by_divergence(p, t, ds).len(),
    ensures
        ({
            let run = c.by_divergence(p, t, ds)[k];
            run == c.run_of(run.protocol, run.topology, run.workload.jaccard_similarity, run.seed)
        }),
    decreases ds.len(),
{
    let before = c.by_divergence(p, t, ds.drop_last());
    if k < before.len() {
        lemma_divergences_alike(c, p, t, ds.drop_last(), k);
    }
}

proof fn lemma_topologies_alike(
    c: BatchRunnerConfig,
    p: ProtocolKind,
    ts: Seq<TopologyKind>,
    k: int,
)
    requires
        0 <= k < c.by_topology(p, ts).len(),
    ensures
        ({
            let run = c.by_topology(p, ts)[k];
            run == c.run_of(run.protocol, run.topology, run.workload.jaccard_similarity, run.seed)
        }),
    decreases ts.len(),
{
    let before = c.by_topology(p, ts.drop_last());
    if k < before.len() {
        lemma_topologies_alike(c, p, ts.drop_last(), k);
    } else {
        lemma_divergences_alike(c, p, ts.last(), c.divergences@, k - before.len());
    }
}

proof fn lemma_all_alike(c: BatchRunnerConfig, ps: Seq<ProtocolKind>, k: int)
    requires
        0 <= k < c.by_protocol(ps).len(),
    ensures
        ({
            let run = c.by_protocol(ps)[k];
            run == c.run_of(run.protocol, run.topology, run.workload.jaccard_similarity, run.seed)
        }),
    decreases ps.len(),
{
    let before = c.by_protocol(ps.drop_last());
    if k < before.len() {
        lemma_all_alike(c, ps.drop_last(), k);
    } else {
        lemma_topologies_alike(c, ps.last(), c.topologies@, k - before.len());
    }
}

} // verus!
