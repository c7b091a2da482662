//! Evaluating one protocol across topologies, similarities, sizes and seeds.

use crate::simulator::binary64::Double;
use crate::simulator::counter;
use crate::simulator::engine::{SimulationConfig, SimulationResult};
use crate::simulator::protocols::ProtocolKind;
use crate::simulator::topology::TopologyKind;
use crate::simulator::workload::{DivergencePattern, WorkloadConfig};
use vstd::prelude::*;

verus! {

/// What the command line asks for.
#[derive(Debug)]
pub enum ConfigPath {
    /// The path that follows the first `--config`.
    Path(String),
    /// Nothing follows the first `--config`.
    MissingPath,
    /// There is no `--config`.
    Usage,
}

/// The position of the first `--config` at or behind `i`, or the number of arguments.
pub open spec fn flag_from(args: Seq<String>, i: int) -> int
    decreases args.len() - i,
{
    if i >= args.len() {
        args.len() as int
    } else if args[i]@ == "--config"@ {
        i
    } else {
        flag_from(args, i + 1)
    }
}

/// The first `--config` stands at `k`. The program's name does not count.
pub open spec fn is_first_flag(args: Seq<String>, k: int) -> bool {
    &&& 1 <= k < args.len()
    &&& args[k]@ == "--config"@
    &&& forall|i: int| 1 <= i < k ==> (#[trigger] args[i])@ != "--config"@
}

proof fn lemma_flag_from(args: Seq<String>, i: int)
    requires
        0 <= i,
    ensures
        i <= flag_from(args, i) || flag_from(args, i) == args.len(),
        flag_from(args, i) <= args.len(),
        forall|k: int|
            i <= k < flag_from(args, i) && k < args.len() ==> (#[trigger] args[k])@
                != "--config"@,
        flag_from(args, i) < args.len() ==> args[flag_from(args, i)]@ == "--config"@,
    decreases args.len() - i,
{
    if i < args.len() && args[i]@ != "--config"@ {
        lemma_flag_from(args, i + 1);
    }
}

/// The path that follows `--config`. The first argument is the name of the program.
pub fn parse_config_path(args: &Vec<String>) -> (r: ConfigPath)
    ensures
        ({
            let at = flag_from(args@, 1);
            match r {
                ConfigPath::Path(p) => at + 1 < args@.len() && p@ == args@[at + 1]@,
                ConfigPath::MissingPath => at + 1 == args@.len(),
                ConfigPath::Usage => at >= args@.len(),
            }
        }),
        r is Usage <==> forall|i: int| 1 <= i < args@.len() ==> (#[trigger] args@[i])@
            != "--config"@,
        r is MissingPath <==> args@.len() > 1 && args@[args@.len() - 1]@ == "--config"@ && forall|
            i: int,
        |
            1 <= i < args@.len() - 1 ==> (#[trigger] args@[i])@ != "--config"@,
        r matches ConfigPath::Path(p) ==> exists|k: int|
            2 <= k < args@.len() && p@ == (#[trigger] args@[k])@ && is_first_flag(args@, k - 1),
{
    proof {
        lemma_flag_from(args@, 1);
    }
    let flag: String = "--config".to_string();
    let mut i: usize = 1;
    while i < args.len()
        invariant
            flag@ == "--config"@,
            1 <= i,
            i <= args@.len() || i == 1,
            flag_from(args@, i as int) == flag_from(args@, 1),
        decreases args@.len() - i,
    {
        if args[i] == flag {
            proof {
                lemma_flag_from(args@, 1);
                assert(flag_from(args@, i as int) == i);
                assert(is_first_flag(args@, i as int));
                if i + 1 < args@.len() {
                    assert(is_first_flag(args@, (i + 1) - 1));
                    assert(args@[i + 1] == args@[i + 1]);
                }
            }
            if i + 1 < args.len() {
                return ConfigPath::Path(args[i + 1].clone());
            }
            return ConfigPath::MissingPath;
        }
        i = i + 1;
    }
    ConfigPath::Usage
}

/// The part of a workload that all runs share.
#[derive(Clone, Copy, Debug)]
pub struct EvalWorkload {
    pub set_size: usize,
    pub payload_size: usize,
    pub digest_bits: usize,
    pub pattern: DivergencePattern,
    pub universe_size: usize,
    pub zipf_exponent: Double,
    pub seed: u64,
    pub cluster_count: Option<usize>,
    pub jaccard_inter: Option<Double>,
    pub jaccard_intra: Option<Double>,
}

impl EvalWorkload {
    /// The workload of a run.
    pub open spec fn at(self, jaccard_similarity: Double, num_replicas: usize) -> WorkloadConfig {
        WorkloadConfig {
            num_replicas,
            set_size: self.set_size,
            payload_size: self.payload_size,
            digest_bits: self.digest_bits,
            jaccard_similarity,
            pattern: self.pattern,
            seed: self.seed,
            universe_size: self.universe_size,
            zipf_exponent: self.zipf_exponent,
            cluster_count: self.cluster_count,
            jaccard_inter: self.jaccard_inter,
            jaccard_intra: self.jaccard_intra,
        }
    }

    /// The workload of a run.
    pub fn to_workload(&self, jaccard_similarity: Double, num_replicas: usize) -> (w: WorkloadConfig)
        ensures
            w == self.at(jaccard_similarity, num_replicas),
            w.num_replicas == num_replicas,
            w.jaccard_similarity == jaccard_similarity,
            w.set_size == self.set_size,
            w.payload_size == self.payload_size,
            w.digest_bits == self.digest_bits,
            w.pattern == self.pattern,
            w.seed == self.seed,
            w.universe_size == self.universe_size,
            w.zipf_exponent == self.zipf_exponent,
            w.cluster_count == self.cluster_count,
            w.jaccard_inter == self.jaccard_inter,
            w.jaccard_intra == self.jaccard_intra,
    {
        WorkloadConfig {
            num_replicas,
            set_size: self.set_size,
            payload_size: self.payload_size,
            digest_bits: self.digest_bits,
            jaccard_similarity,
            pattern: self.pattern,
            seed: self.seed,
            universe_size: self.universe_size,
            zipf_exponent: self.zipf_exponent,
            cluster_count: self.cluster_count,
            jaccard_inter: self.jaccard_inter,
            jaccard_intra: self.jaccard_intra,
        }
    }
}

/// What is evaluated.
#[derive(Debug)]
pub struct EvalConfig {
    pub protocol: ProtocolKind,
    pub topologies: Vec<TopologyKind>,
    pub seeds: Vec<u64>,
    pub jaccard_similarities: Vec<Double>,
    pub num_replicas: Vec<usize>,
    pub round_cap: usize,
    pub workload: EvalWorkload,
}

/// One run: its configuration, and the position of its similarity in the list.
#[derive(Clone, Copy, Debug)]
pub struct PlannedRun {
    pub config: SimulationConfig,
    pub similarity: usize,
}

impl EvalConfig {
    /// One run.
    pub open spec fn run_of(self, n: usize, t: TopologyKind, j: int, seed: u64) -> PlannedRun {
        PlannedRun {
            config: SimulationConfig {
                round_cap: self.round_cap,
                seed,
                topology: t,
                protocol: self.protocol,
                workload: self.workload.at(self.jaccard_similarities@[j], n),
            },
            similarity: j as usize,
        }
    }

    /// The runs for the first `k` similarities, each with all seeds.
    pub open spec fn by_similarity(self, n: usize, t: TopologyKind, k: nat) -> Seq<PlannedRun>
        decreases k,
    {
        if k == 0 {
            Seq::empty()
        } else {
            self.by_similarity(n, t, (k - 1) as nat) + self.seeds@.map_values(
                |seed: u64| self.run_of(n, t, k - 1, seed),
            )
        }
    }

    /// The runs for the given topologies, each with all similarities.
    pub open spec fn by_topology(self, n: usize, ts: Seq<TopologyKind>) -> Seq<PlannedRun>
        decreases ts.len(),
    {
        if ts.len() == 0 {
            Seq::empty()
        } else {
            self.by_topology(n, ts.drop_last()) + self.by_similarity(
                n,
                ts.last(),
                self.jaccard_similarities@.len(),
            )
        }
    }

    /// The runs for the given sizes, each with all topologies.
    pub open spec fn by_size(self, ns: Seq<usize>) -> Seq<PlannedRun>
        decreases ns.len(),
    {
        if ns.len() == 0 {
            Seq::empty()
        } else {
            self.by_size(ns.drop_last()) + self.by_topology(ns.last(), self.topologies@)
        }
    }

    /// Where the run of a size, a topology, a similarity and a seed is planned: sizes are the
    /// slowest to change, then topologies, then similarities, and seeds the fastest.
    pub open spec fn position(self, n: int, t: int, j: int, s: int) -> int {
        ((n * self.topologies@.len() + t) * self.jaccard_similarities@.len() + j)
            * self.seeds@.len() + s
    }

    proof fn lemma_similarities(self, n: usize, t: TopologyKind, k: nat, j: int, s: int)
        requires
            k <= self.jaccard_similarities@.len(),
        ensures
            self.by_similarity(n, t, k).len() == k * self.seeds@.len(),
            0 <= j < k && 0 <= s < self.seeds@.len() ==> {
                &&& 0 <= j * self.seeds@.len() + s < k * self.seeds@.len()
                &&& self.by_similarity(n, t, k)[j * self.seeds@.len() + s] == self.run_of(
                    n,
                    t,
                    j,
                    self.seeds@[s],
                )
            },
        decreases k,
    {
        let w = self.seeds@.len();
        if k > 0 {
            let m = (k - 1) as nat;
            self.lemma_similarities(n, t, m, j, s);
            assert(k * w == m * w + w) by (nonlinear_arith)
                requires
                    k == m + 1,
            ;
            if 0 <= j < k && 0 <= s < w {
                assert(j * w >= 0) by (nonlinear_arith)
                    requires
                        j >= 0,
                ;
                assert(j == m || j * w + w <= m * w) by (nonlinear_arith)
                    requires
                        j == m || j + 1 <= m,
                ;
            }
        } else {
            assert(0 * w == 0);
        }
    }

    proof fn lemma_topologies(self, n: usize, ts: Seq<TopologyKind>, t: int, j: int, s: int)
        ensures
            ({
                let (a, w) = (self.jaccard_similarities@.len(), self.seeds@.len());
                let runs = self.by_topology(n, ts);
                &&& runs.len() == ts.len() * a * w
                &&& 0 <= t < ts.len() && 0 <= j < a && 0 <= s < w ==> {
                    &&& 0 <= (t * a + j) * w + s < ts.len() * a * w
                    &&& runs[(t * a + j) * w + s] == self.run_of(n, ts[t], j, self.seeds@[s])
                }
            }),
        decreases ts.len(),
    {
        let (a, w) = (self.jaccard_similarities@.len(), self.seeds@.len());
        if ts.len() > 0 {
            let m = (ts.len() - 1) as nat;
            self.lemma_topologies(n, ts.drop_last(), t, j, s);
            self.lemma_similarities(n, ts.last(), a, j, s);
            assert(ts.len() * a * w == m * a * w + a * w) by (nonlinear_arith)
                requires
                    ts.len() == m + 1,
            ;
            if 0 <= t < ts.len() && 0 <= j < a && 0 <= s < w {
                assert((t * a + j) * w + s == t * a * w + (j * w + s)) by (nonlinear_arith);
                assert(t * a * w >= 0) by (nonlinear_arith)
                    requires
                        t >= 0,
                ;
                assert(t == m || t * a * w + a * w <= m * a * w) by (nonlinear_arith)
                    requires
                        t == m || t + 1 <= m,
                ;
            }
        } else {
            assert(0 * a * w == 0) by (nonlinear_arith);
        }
    }

    proof fn lemma_sizes(self, ns: Seq<usize>, n: int, t: int, j: int, s: int)
        ensures
            ({
                let (b, a, w) = (
                    self.topologies@.len(),
                    self.jaccard_similarities@.len(),
                    self.seeds@.len(),
                );
                let runs = self.by_size(ns);
                &&& runs.len() == ns.len() * b * a * w
                &&& 0 <= n < ns.len() && 0 <= t < b && 0 <= j < a && 0 <= s < w ==> {
                    &&& 0 <= ((n * b + t) * a + j) * w + s < ns.len() * b * a * w
                    &&& runs[((n * b + t) * a + j) * w + s] == self.run_of(
                        ns[n],
                        self.topologies@[t],
                        j,
                        self.seeds@[s],
                    )
                }
            }),
        decreases ns.len(),
    {
        let (b, a, w) = (
            self.topologies@.len(),
            self.jaccard_similarities@.len(),
            self.seeds@.len(),
        );
        if ns.len() > 0 {
            let m = (ns.len() - 1) as nat;
            self.lemma_sizes(ns.drop_last(), n, t, j, s);
            self.lemma_topologies(ns.last(), self.topologies@, t, j, s);
            assert(ns.len() * b * a * w == m * b * a * w + b * a * w) by (nonlinear_arith)
                requires
                    ns.len() == m + 1,
            ;
            if 0 <= n < ns.len() && 0 <= t < b && 0 <= j < a && 0 <= s < w {
                assert(((n * b + t) * a + j) * w + s == n * b * a * w + ((t * a + j) * w + s))
                    by (nonlinear_arith);
                assert(n * b * a * w >= 0) by (nonlinear_arith)
                    requires
                        n >= 0,
                ;
                let block = b * a * w;
                assert(n * b * a * w == n * block) by (nonlinear_arith)
                    requires
                        block == b * a * w,
                ;
                assert(m * b * a * w == m * block) by (nonlinear_arith)
                    requires
                        block == b * a * w,
                ;
                assert(n == m || n * block + block <= m * block) by (nonlinear_arith)
                    requires
                        n == m || n + 1 <= m,
                        block >= 0,
                ;
            }
        } else {
            assert(0 * b * a * w == 0) by (nonlinear_arith);
        }
    }

    /// The run of each size, topology, similarity and seed is planned, at its position, and
    /// made with that size, that topology, that similarity and that seed.
    pub proof fn lemma_planned_at(self, n: int, t: int, j: int, s: int)
        requires
            0 <= n < self.num_replicas@.len(),
            0 <= t < self.topologies@.len(),
            0 <= j < self.jaccard_similarities@.len(),
            0 <= s < self.seeds@.len(),
        ensures
            ({
                let runs = self.by_size(self.num_replicas@);
                let at = self.position(n, t, j, s);
                &&& 0 <= at < runs.len()
                &&& runs[at].similarity == j
                &&& runs[at].config.workload.num_replicas == self.num_replicas@[n]
                &&& runs[at].config.topology == self.topologies@[t]
                &&& runs[at].config.workload.jaccard_similarity == self.jaccard_similarities@[j]
                &&& runs[at].config.seed == self.seeds@[s]
                &&& runs[at] == self.run_of(
                    self.num_replicas@[n],
                    self.topologies@[t],
                    j,
                    self.seeds@[s],
                )
            }),
    {
        self.lemma_sizes(self.num_replicas@, n, t, j, s);
        assert(self.jaccard_similarities@.len() == self.jaccard_similarities.len());
    }

    /// There is one run for each combination, and no more.
    pub proof fn lemma_plan_len(self)
        ensures
            self.by_size(self.num_replicas@).len() == self.num_replicas@.len()
                * self.topologies@.len() * self.jaccard_similarities@.len() * self.seeds@.len(),
    {
        self.lemma_sizes(self.num_replicas@, 0, 0, 0, 0);
    }

    /// A run that is labelled with a position in the list of similarities and made with the
    /// similarity at that position.
    pub open spec fn is_labelled(self, run: PlannedRun) -> bool {
        &&& run.similarity < self.jaccard_similarities@.len()
        &&& run.config.workload.jaccard_similarity
            == self.jaccard_similarities@[run.similarity as int]
        &&& run == self.run_of(
            run.config.workload.num_replicas,
            run.config.topology,
            run.similarity as int,
            run.config.seed,
        )
    }

    proof fn lemma_labelled(self, n: usize, t: TopologyKind, k: nat, x: int)
        requires
            k <= self.jaccard_similarities@.len(),
            0 <= x < self.by_similarity(n, t, k).len(),
        ensures
            self.is_labelled(self.by_similarity(n, t, k)[x]),
        decreases k,
    {
        assert(self.jaccard_similarities@.len() == self.jaccard_similarities.len());
        let before = self.by_similarity(n, t, (k - 1) as nat);
        if x < before.len() {
            self.lemma_labelled(n, t, (k - 1) as nat, x);
        }
    }

    proof fn lemma_topologies_labelled(self, n: usize, ts: Seq<TopologyKind>, x: int)
        requires
            0 <= x < self.by_topology(n, ts).len(),
        ensures
            self.is_labelled(self.by_topology(n, ts)[x]),
        decreases ts.len(),
    {
        let before = self.by_topology(n, ts.drop_last());
        if x < before.len() {
            self.lemma_topologies_labelled(n, ts.drop_last(), x);
        } else {
            self.lemma_labelled(
                n,
                ts.last(),
                self.jaccard_similarities@.len(),
                x - before.len(),
            );
        }
    }

    proof fn lemma_sizes_labelled(self, ns: Seq<usize>, x: int)
        requires
            0 <= x < self.by_size(ns).len(),
        ensures
            self.is_labelled(self.by_size(ns)[x]),
        decreases ns.len(),
    {
        let before = self.by_size(ns.drop_last());
        if x < before.len() {
            self.lemma_sizes_labelled(ns.drop_last(), x);
        } else {
            self.lemma_topologies_labelled(ns.last(), self.topologies@, x - before.len());
        }
    }

    /// Every planned run is labelled with the similarity that it is made with, and takes all
    /// else from the configuration as it stands there.
    pub proof fn lemma_planned_all(self)
        ensures
            ({
                let runs = self.by_size(self.num_replicas@);
                forall|x: int|
                    0 <= x < runs.len() ==> {
                        let run = #[trigger] runs[x];
                        &&& run.similarity < self.jaccard_similarities@.len()
                        &&& run.config.workload.jaccard_similarity
                            == self.jaccard_similarities@[run.similarity as int]
                        &&& run.config.protocol == self.protocol
                        &&& run.config.round_cap == self.round_cap
                        &&& run.config.workload.set_size == self.workload.set_size
                        &&& run.config.workload.payload_size == self.workload.payload_size
                        &&& run.config.workload.digest_bits == self.workload.digest_bits
                        &&& run.config.workload.pattern == self.workload.pattern
                        &&& run.config.workload.seed == self.workload.seed
                        &&& run.config.workload.universe_size == self.workload.universe_size
                        &&& run.config.workload.zipf_exponent == self.workload.zipf_exponent
                        &&& run.config.workload.cluster_count == self.workload.cluster_count
                        &&& run.config.workload.jaccard_inter == self.workload.jaccard_inter
                        &&& run.config.workload.jaccard_intra == self.workload.jaccard_intra
                    }
            }),
    {
        let runs = self.by_size(self.num_replicas@);
        assert forall|x: int| 0 <= x < runs.len() implies self.is_labelled(
            #[trigger] runs[x],
        ) by {
            self.lemma_sizes_labelled(self.num_replicas@, x);
        }
    }

    /// The runs, in order.
    pub fn plan(&self) -> (r: Vec<PlannedRun>)
        ensures
            r@ == self.by_size(self.num_replicas@),
            r@.len() == self.num_replicas@.len() * self.topologies@.len()
                * self.jaccard_similarities@.len() * self.seeds@.len(),
            forall|n: int, t: int, j: int, s: int|
                0 <= n < self.num_replicas@.len() && 0 <= t < self.topologies@.len() && 0 <= j
                    < self.jaccard_similarities@.len() && 0 <= s < self.seeds@.len() ==> {
                    let at = #[trigger] self.position(n, t, j, s);
                    &&& 0 <= at < r@.len()
                    &&& r@[at].similarity == j
                    &&& r@[at].config.workload.num_replicas == self.num_replicas@[n]
                    &&& r@[at].config.topology == self.topologies@[t]
                    &&& r@[at].config.workload.jaccard_similarity
                        == self.jaccard_similarities@[j]
                    &&& r@[at].config.seed == self.seeds@[s]
                },
            forall|k: int|
                0 <= k < r@.len() ==> {
                    let run = #[trigger] r@[k];
                    &&& run.similarity < self.jaccard_similarities@.len()
                    &&& run.config.workload.jaccard_similarity
                        == self.jaccard_similarities@[run.similarity as int]
                    &&& run.config.protocol == self.protocol
                    &&& run.config.round_cap == self.round_cap
                    &&& run.config.workload.set_size == self.workload.set_size
                    &&& run.config.workload.payload_size == self.workload.payload_size
                    &&& run.config.workload.digest_bits == self.workload.digest_bits
                    &&& run.config.workload.pattern == self.workload.pattern
                    &&& run.config.workload.seed == self.workload.seed
                    &&& run.config.workload.universe_size == self.workload.universe_size
                    &&& run.config.workload.zipf_exponent == self.workload.zipf_exponent
                    &&& run.config.workload.cluster_count == self.workload.cluster_count
                    &&& run.config.workload.jaccard_inter == self.workload.jaccard_inter
                    &&& run.config.workload.jaccard_intra == self.workload.jaccard_intra
                },
    {
        proof {
            assert forall|n: int, t: int, j: int, s: int|
                0 <= n < self.num_replicas@.len() && 0 <= t < self.topologies@.len() && 0 <= j
                    < self.jaccard_similarities@.len() && 0 <= s < self.seeds@.len() implies {
                let runs = self.by_size(self.num_replicas@);
                let at = #[trigger] self.position(n, t, j, s);
                &&& 0 <= at < runs.len()
                &&& runs[at].similarity == j
                &&& runs[at].config.workload.num_replicas == self.num_replicas@[n]
                &&& runs[at].config.topology == self.topologies@[t]
                &&& runs[at].config.workload.jaccard_similarity == self.jaccard_similarities@[j]
                &&& runs[at].config.seed == self.seeds@[s]
            } by {
                self.lemma_planned_at(n, t, j, s);
            }
            self.lemma_plan_len();
            self.lemma_planned_all();
        }
        let mut r: Vec<PlannedRun> = Vec::new();
        let mut i: usize = 0;
        assert(self.num_replicas@.take(0) =~= Seq::<usize>::empty());
        while i < self.num_replicas.len()
            invariant
                i <= self.num_replicas@.len(),
                r@ == self.by_size(self.num_replicas@.take(i as int)),
            decreases self.num_replicas@.len() - i,
        {
            self.plan_topologies(self.num_replicas[i], &mut r);
            assert(self.num_replicas@.take(i + 1).drop_last() =~= self.num_replicas@.take(
                i as int,
            ));
            i = i + 1;
        }
        assert(self.num_replicas@.take(i as int) =~= self.num_replicas@);
        r
    }

    fn plan_topologies(&self, n: usize, r: &mut Vec<PlannedRun>)
        ensures
            final(r)@ == old(r)@ + self.by_topology(n, self.topologies@),
    {
        let ghost start = r@;
        let mut i: usize = 0;
        assert(self.topologies@.take(0) =~= Seq::<TopologyKind>::empty());
        assert(start + Seq::<PlannedRun>::empty() =~= start);
        while i < self.topologies.len()
            invariant
                i <= self.topologies@.len(),
                r@ == start + self.by_topology(n, self.topologies@.take(i as int)),
            decreases self.topologies@.len() - i,
        {
            let t: TopologyKind = self.topologies[i];
            let ghost sofar = r@;
            let mut j: usize = 0;
            assert(sofar + Seq::<PlannedRun>::empty() =~= sofar);
            while j < self.jaccard_similarities.len()
                invariant
                    j <= self.jaccard_similarities@.len(),
                    r@ == sofar + self.by_similarity(n, t, j as nat),
                decreases self.jaccard_similarities@.len() - j,
            {
                self.plan_seeds(n, t, j, r);
                j = j + 1;
                assert(r@ =~= sofar + self.by_similarity(n, t, j as nat));
            }
            assert(self.topologies@.take(i + 1).drop_last() =~= self.topologies@.take(i as int));
            i = i + 1;
            assert(r@ =~= start + self.by_topology(n, self.topologies@.take(i as int)));
        }
        assert(self.topologies@.take(i as int) =~= self.topologies@);
    }

    fn plan_seeds(&self, n: usize, t: TopologyKind, j: usize, r: &mut Vec<PlannedRun>)
        requires
            j < self.jaccard_similarities@.len(),
        ensures
            final(r)@ == old(r)@ + self.seeds@.map_values(
                |seed: u64| self.run_of(n, t, j as int, seed),
            ),
    {
        let ghost start = r@;
        let ghost f = |seed: u64| self.run_of(n, t, j as int, seed);
        let mut i: usize = 0;
        assert(start + self.seeds@.take(0).map_values(f) =~= start);
        while i < self.seeds.len()
            invariant
                i <= self.seeds@.len(),
                j < self.jaccard_similarities@.len(),
                f == (|seed: u64| self.run_of(n, t, j as int, seed)),
                r@ == start + self.seeds@.take(i as int).map_values(f),
            decreases self.seeds@.len() - i,
        {
            let seed: u64 = self.seeds[i];
            r.push(
                PlannedRun {
                    config: SimulationConfig {
                        round_cap: self.round_cap,
                        seed,
                        topology: t,
                        protocol: self.protocol,
                        workload: self.workload.to_workload(self.jaccard_similarities[j], n),
                    },
                    similarity: j,
                },
            );
            i = i + 1;
            assert(r@ =~= start + self.seeds@.take(i as int).map_values(f));
        }
        assert(self.seeds@.take(i as int) =~= self.seeds@);
    }
}

/// How a run ended.
#[derive(Clone, Copy, Debug)]
pub struct RunEntry {
    pub topology: TopologyKind,
    /// The position of the similarity in the list.
    pub similarity: usize,
    pub num_replicas: usize,
    pub seed: u64,
    pub converged: bool,
    pub rounds: usize,
    pub total_bytes_sent: usize,
    pub state_bytes_sent: usize,
    pub metadata_bytes_sent: usize,
}

/// The entry of a run.
pub fn create_run_entry(run: &PlannedRun, result: &SimulationResult) -> (e: RunEntry)
    ensures
        e == (RunEntry {
            topology: run.config.topology,
            similarity: run.similarity,
            num_replicas: run.config.workload.num_replicas,
            seed: run.config.seed,
            converged: result.converged,
            rounds: result.rounds,
            total_bytes_sent: counter::wrap_usize(
                result.metrics.total_state_bytes_sent + result.metrics.total_metadata_bytes_sent,
            ),
            state_bytes_sent: result.metrics.total_state_bytes_sent,
            metadata_bytes_sent: result.metrics.total_metadata_bytes_sent,
        }),
{
    RunEntry {
        topology: run.config.topology,
        similarity: run.similarity,
        num_replicas: run.config.workload.num_replicas,
        seed: run.config.seed,
        converged: result.converged,
        rounds: result.rounds,
        total_bytes_sent: result.metrics.total_bytes_sent(),
        state_bytes_sent: result.metrics.total_state_bytes_sent,
        metadata_bytes_sent: result.metrics.total_metadata_bytes_sent,
    }
}

/// The runs of one topology, similarity and size.
#[derive(Debug)]
pub struct Cell {
    pub topology: TopologyKind,
    /// The position of the similarity in the list.
    pub similarity: usize,
    pub num_replicas: usize,
    /// The positions of the runs.
    pub runs: Vec<usize>,
    pub all_converged: bool,
}

/// Whether similarities count as equal, for each pair of positions in their list.
pub open spec fn alike(near: Seq<Vec<bool>>, a: int, b: int) -> bool {
    0 <= a < near.len() && 0 <= b < near[a]@.len() && near[a]@[b]
}

/// Whether a run belongs to a cell.
pub open spec fn belongs(r: RunEntry, near: Seq<Vec<bool>>, t: TopologyKind, j: int, n: usize) -> bool {
    r.num_replicas == n && r.topology == t && alike(near, r.similarity as int, j)
}

/// The positions of the runs that belong to a cell, among the first `k`.
pub open spec fn members(
    runs: Seq<RunEntry>,
    near: Seq<Vec<bool>>,
    t: TopologyKind,
    j: int,
    n: usize,
    k: nat,
) -> Seq<usize>
    decreases k,
{
    if k == 0 {
        Seq::empty()
    } else if belongs(runs[k - 1], near, t, j, n) {
        members(runs, near, t, j, n, (k - 1) as nat).push((k - 1) as usize)
    } else {
        members(runs, near, t, j, n, (k - 1) as nat)
    }
}

/// The listed positions are those of the runs that belong to the cell, in order.
pub proof fn lemma_members(
    runs: Seq<RunEntry>,
    near: Seq<Vec<bool>>,
    t: TopologyKind,
    j: int,
    n: usize,
    k: nat,
)
    requires
        k <= runs.len() <= usize::MAX,
    ensures
        ({
            let m = members(runs, near, t, j, n, k);
            &&& forall|i: int|
                0 <= i < k ==> (m.contains(i as usize) <==> belongs(
                    #[trigger] runs[i],
                    near,
                    t,
                    j,
                    n,
                ))
            &&& forall|x: int| 0 <= x < m.len() ==> (#[trigger] m[x]) < k
            &&& forall|x: int, y: int|
                0 <= x < y < m.len() ==> (#[trigger] m[x]) < (#[trigger] m[y])
        }),
    decreases k,
{
    if k > 0 {
        lemma_members(runs, near, t, j, n, (k - 1) as nat);
        let (before, after) = (
            members(runs, near, t, j, n, (k - 1) as nat),
            members(runs, near, t, j, n, k),
        );
        assert forall|i: int| 0 <= i < k implies (after.contains(i as usize) <==> belongs(
            #[trigger] runs[i],
            near,
            t,
            j,
            n,
        )) by {
            if i < k - 1 {
                assert(before.contains(i as usize) <==> belongs(runs[i], near, t, j, n));
                if before.contains(i as usize) {
                    let x = choose|x: int| 0 <= x < before.len() && before[x] == i as usize;
                    assert(after[x] == i as usize);
                }
                if after.contains(i as usize) {
                    let x = choose|x: int| 0 <= x < after.len() && after[x] == i as usize;
                    assert(x < before.len());
                    assert(before[x] == i as usize);
                }
            } else {
                if belongs(runs[k - 1], near, t, j, n) {
                    assert(after[after.len() - 1] == i as usize);
                } else if after.contains(i as usize) {
                    let x = choose|x: int| 0 <= x < after.len() && after[x] == i as usize;
                    assert(before[x] < k - 1);
                }
            }
        }
    }
}

/// Whether all runs that belong to a cell have converged.
pub open spec fn cell_converged(
    runs: Seq<RunEntry>,
    near: Seq<Vec<bool>>,
    t: TopologyKind,
    j: int,
    n: usize,
) -> bool {
    forall|i: int|
        0 <= i < runs.len() && belongs(#[trigger] runs[i], near, t, j, n) ==> runs[i].converged
}

/// Whether a cell is the one of a topology, similarity and size.
pub open spec fn is_cell(
    c: Cell,
    runs: Seq<RunEntry>,
    near: Seq<Vec<bool>>,
    t: TopologyKind,
    j: int,
    n: usize,
) -> bool {
    &&& c.topology == t
    &&& c.similarity == j
    &&& c.num_replicas == n
    &&& c.runs@ == members(runs, near, t, j, n, runs.len())
    &&& c.all_converged == cell_converged(runs, near, t, j, n)
}

fn is_alike(near: &Vec<Vec<bool>>, a: usize, b: usize) -> (r: bool)
    ensures
        r == alike(near@, a as int, b as int),
{
    a < near.len() && b < near[a].len() && near[a][b]
}

/// The runs of one topology, similarity and size.
pub fn build_cell(
    runs: &Vec<RunEntry>,
    near: &Vec<Vec<bool>>,
    topology: TopologyKind,
    similarity: usize,
    num_replicas: usize,
) -> (c: Cell)
    ensures
        is_cell(c, runs@, near@, topology, similarity as int, num_replicas),
        c.topology == topology,
        c.similarity == similarity,
        c.num_replicas == num_replicas,
        forall|k: int|
            0 <= k < runs@.len() ==> (c.runs@.contains(k as usize) <==> ((
            #[trigger] runs@[k]).topology == topology && runs@[k].num_replicas == num_replicas
                && runs@[k].similarity < near@.len() && similarity
                < near@[runs@[k].similarity as int]@.len()
                && near@[runs@[k].similarity as int]@[similarity as int])),
        forall|x: int| 0 <= x < c.runs@.len() ==> (#[trigger] c.runs@[x]) < runs@.len(),
        forall|x: int, y: int|
            0 <= x < y < c.runs@.len() ==> (#[trigger] c.runs@[x]) < (#[trigger] c.runs@[y]),
        c.all_converged <==> forall|x: int|
            0 <= x < c.runs@.len() ==> runs@[(#[trigger] c.runs@[x]) as int].converged,
{
    proof {
        assert(runs@.len() == runs.len());
        lemma_members(
            runs@,
            near@,
            topology,
            similarity as int,
            num_replicas,
            runs@.len(),
        );
    }
    let mut found: Vec<usize> = Vec::new();
    let mut all_converged: bool = true;
    let mut i: usize = 0;
    while i < runs.len()
        invariant
            i <= runs@.len(),
            found@ == members(
                runs@,
                near@,
                topology,
                similarity as int,
                num_replicas,
                i as nat,
            ),
            all_converged == (forall|k: int|
                0 <= k < i && belongs(
                    #[trigger] runs@[k],
                    near@,
                    topology,
                    similarity as int,
                    num_replicas,
                ) ==> runs@[k].converged),
        decreases runs@.len() - i,
    {
        let r: RunEntry = runs[i];
        if r.num_replicas == num_replicas && r.topology == topology && is_alike(
            near,
            r.similarity,
            similarity,
        ) {
            found.push(i);
            if !r.converged {
                all_converged = false;
                assert(belongs(
                    runs@[i as int],
                    near@,
                    topology,
                    similarity as int,
                    num_replicas,
                ));
            }
        }
        i = i + 1;
    }
    proof {
        let all = members(runs@, near@, topology, similarity as int, num_replicas, runs@.len());
        assert(found@ == all);
        if !all_converged {
            let k = choose|k: int|
                0 <= k < runs@.len() && belongs(
                    #[trigger] runs@[k],
                    near@,
                    topology,
                    similarity as int,
                    num_replicas,
                ) && !runs@[k].converged;
            assert(all.contains(k as usize));
            let x = choose|x: int| 0 <= x < all.len() && all[x] == k as usize;
            assert(!runs@[found@[x] as int].converged);
        } else {
            assert forall|x: int| 0 <= x < found@.len() implies runs@[(
            #[trigger] found@[x]) as int].converged by {
                assert(all.contains(found@[x]));
                assert(belongs(
                    runs@[found@[x] as int],
                    near@,
                    topology,
                    similarity as int,
                    num_replicas,
                ));
            }
        }
    }
    Cell { topology, similarity, num_replicas, runs: found, all_converged }
}

/// Groups the runs by topology, similarity and size. `near` tells which similarities count as
/// equal.
pub fn build_cells(
    runs: &Vec<RunEntry>,
    near: &Vec<Vec<bool>>,
    topologies: &Vec<TopologyKind>,
    similarities: usize,
    num_replicas: &Vec<usize>,
) -> (cells: Vec<Vec<Vec<Cell>>>)
    ensures
        cells@.len() == topologies@.len(),
        forall|t: int|
            0 <= t < cells@.len() ==> (#[trigger] cells@[t])@.len() == similarities,
        forall|t: int, j: int|
            0 <= t < cells@.len() && 0 <= j < similarities ==> (
            #[trigger] cells@[t]@[j])@.len() == num_replicas@.len(),
        forall|t: int, j: int, n: int|
            0 <= t < cells@.len() && 0 <= j < similarities && 0 <= n < num_replicas@.len()
                ==> is_cell(
                #[trigger] cells@[t]@[j]@[n],
                runs@,
                near@,
                topologies@[t],
                j,
                num_replicas@[n],
            ),
        forall|t: int, j: int, n: int|
            0 <= t < cells@.len() && 0 <= j < similarities && 0 <= n < num_replicas@.len() ==> {
                let c = #[trigger] cells@[t]@[j]@[n];
                &&& c.topology == topologies@[t]
                &&& c.similarity == j
                &&& c.num_replicas == num_replicas@[n]
            },
{
    let mut cells: Vec<Vec<Vec<Cell>>> = Vec::new();
    let mut t: usize = 0;
    while t < topologies.len()
        invariant
            t <= topologies@.len(),
            cells@.len() == t,
            forall|a: int| 0 <= a < t ==> (#[trigger] cells@[a])@.len() == similarities,
            forall|a: int, j: int|
                0 <= a < t && 0 <= j < similarities ==> (#[trigger] cells@[a]@[j])@.len()
                    == num_replicas@.len(),
            forall|a: int, j: int, n: int|
                0 <= a < t && 0 <= j < similarities && 0 <= n < num_replicas@.len() ==> is_cell(
                    #[trigger] cells@[a]@[j]@[n],
                    runs@,
                    near@,
                    topologies@[a],
                    j,
                    num_replicas@[n],
                ),
        decreases topologies@.len() - t,
    {
        let mut rows: Vec<Vec<Cell>> = Vec::new();
        let mut j: usize = 0;
        while j < similarities
            invariant
                t < topologies@.len(),
                j <= similarities,
                rows@.len() == j,
                forall|b: int| 0 <= b < j ==> (#[trigger] rows@[b])@.len() == num_replicas@.len(),
                forall|b: int, n: int|
                    0 <= b < j && 0 <= n < num_replicas@.len() ==> is_cell(
                        #[trigger] rows@[b]@[n],
                        runs@,
                        near@,
                        topologies@[t as int],
                        b,
                        num_replicas@[n],
                    ),
            decreases similarities - j,
        {
            let mut row: Vec<Cell> = Vec::new();
            let mut n: usize = 0;
            while n < num_replicas.len()
                invariant
                    t < topologies@.len(),
                    n <= num_replicas@.len(),
                    row@.len() == n,
                    forall|c: int|
                        0 <= c < n ==> is_cell(
                            #[trigger] row@[c],
                            runs@,
                            near@,
                            topologies@[t as int],
                            j as int,
                            num_replicas@[c],
                        ),
                decreases num_replicas@.len() - n,
            {
                row.push(build_cell(runs, near, topologies[t], j, num_replicas[n]));
                n = n + 1;
            }
            rows.push(row);
            j = j + 1;
        }
        cells.push(rows);
        t = t + 1;
    }
    cells
}

/// A cell lists exactly the runs of its topology and size whose similarity counts as equal to
/// its own, and has converged where each of them has.
pub proof fn lemma_cell(
    c: Cell,
    runs: Seq<RunEntry>,
    near: Seq<Vec<bool>>,
    t: TopologyKind,
    j: int,
    n: usize,
    k: int,
)
    requires
        is_cell(c, runs, near, t, j, n),
        0 <= k < runs.len() <= usize::MAX,
    ensures
        c.runs@.contains(k as usize) <==> {
            &&& runs[k].topology == c.topology
            &&& runs[k].num_replicas == c.num_replicas
            &&& runs[k].similarity < near.len()
            &&& 0 <= j < near[runs[k].similarity as int]@.len()
            &&& near[runs[k].similarity as int]@[j]
        },
        c.all_converged && c.runs@.contains(k as usize) ==> runs[k].converged,
        !c.all_converged ==> exists|i: int|
            0 <= i < runs.len() && c.runs@.contains(i as usize) && !(
            #[trigger] runs[i]).converged,
{
    lemma_members(runs, near, t, j, n, runs.len());
    assert(belongs(runs[k], near, t, j, n) == c.runs@.contains(k as usize));
    if !c.all_converged {
        let i = choose|i: int|
            0 <= i < runs.len() && belongs(#[trigger] runs[i], near, t, j, n)
                && !runs[i].converged;
        assert(c.runs@.contains(i as usize));
    }
}

} // verus!
