//! Reconciliation by aggregation.
//!
//! Sketches of all replicas are added up on their way to an aggregator, and the total comes
//! back. Each replica takes its own sketch out of the total and decodes what the others have.
//! Sketches grow until that succeeds.

use crate::simulator::algorithms::multiparty_sketch;
use crate::simulator::algorithms::multiparty_sketch::{build_sketch, MSketch, CELL_BYTES, P};
use crate::simulator::clock::Stopwatch;
use crate::simulator::counter;
use crate::simulator::counter::{add_u128, mul_usize};
use crate::simulator::replica;
use crate::simulator::replica::{Element, ElementSet, Replica};
use crate::simulator::topology;
use crate::simulator::topology::Topology;
use crate::simulator::workload;
use vstd::prelude::*;

verus! {

/// How many times its increment a sketch may grow to.
pub const MAX_INCREMENTS: usize = 200;

/// What a step cost. Times are in nanoseconds.
#[derive(Clone, Copy, Debug, PartialEq, Eq, Structural)]
pub struct ProtocolMetrics {
    pub state_bytes: usize,
    pub metadata_bytes: usize,
    pub encode_time: u128,
    pub decode_time: u128,
    pub false_matches: usize,
}

/// The new set of a replica, and what the step cost.
#[derive(Debug)]
pub struct AggregationStep {
    pub next_set: ElementSet,
    pub metrics: ProtocolMetrics,
}

/// The end of the growing and decoding of sketches.
#[derive(Debug)]
pub struct RibltLoopResult {
    pub final_sketch_size: usize,
    pub encode_time: u128,
    pub decode_time: u128,
    pub remote_only_f: Vec<u64>,
}

impl AggregationStep {
    /// The step that the growing and decoding of sketches ends with. It took as long as that
    /// took.
    pub fn concluded(end: &RibltLoopResult, next_set: ElementSet, metadata_bytes: usize) -> (r: Self)
        ensures
            r.next_set == next_set,
            r.metrics == (ProtocolMetrics {
                state_bytes: 0,
                metadata_bytes,
                encode_time: end.encode_time,
                decode_time: end.decode_time,
                false_matches: 0,
            }),
    {
        AggregationStep {
            next_set,
            metrics: ProtocolMetrics {
                state_bytes: 0,
                metadata_bytes,
                encode_time: end.encode_time,
                decode_time: end.decode_time,
                false_matches: 0,
            },
        }
    }
}

/// The sets of the replicas.
pub open spec fn sets_of(replicas: Seq<Replica>) -> Seq<Set<Element>> {
    Seq::new(replicas.len(), |i: int| replicas[i].set@)
}

/// The digests of the first `n` sets, one after the other, without those of set `skip`.
pub open spec fn digests_but(sets: Seq<Set<Element>>, skip: int, n: nat) -> Seq<u64>
    decreases n,
{
    if n == 0 {
        Seq::empty()
    } else if n - 1 == skip {
        digests_but(sets, skip, (n - 1) as nat)
    } else {
        digests_but(sets, skip, (n - 1) as nat) + replica::digests_of(sets[n - 1])
    }
}

/// The digests that all replicas but one hold, as often as they are held.
pub open spec fn others_digests(sets: Seq<Set<Element>>, skip: int) -> Seq<u64> {
    digests_but(sets, skip, sets.len())
}

/// What a sketch of the given digests decodes to.
pub open spec fn decoded_at(digests: Seq<u64>, size: nat) -> Option<Seq<u64>> {
    let p = multiparty_sketch::peeled(multiparty_sketch::sketch_of(digests, size));
    if multiparty_sketch::all_zero(p.cells) {
        Some(p.inserted)
    } else {
        None
    }
}

/// The largest size that is tried.
pub open spec fn size_limit(increment: usize) -> int {
    if increment * MAX_INCREMENTS > usize::MAX {
        usize::MAX as int
    } else {
        increment * MAX_INCREMENTS
    }
}

/// The size of the last sketch tried, and what it decoded to, nothing if it did not.
pub open spec fn grown(digests: Seq<u64>, size: int, increment: usize) -> (int, Seq<u64>)
    decreases
            if size < size_limit(increment) {
                size_limit(increment) - size
            } else {
                0
            },
{
    match decoded_at(digests, size as nat) {
        Some(found) => (size, found),
        None => if increment == 0 || size + increment > size_limit(increment) {
            (size, Seq::empty())
        } else {
            grown(digests, size + increment, increment)
        },
    }
}

/// Sketches only grow, and no further than the limit unless they started past it.
pub proof fn lemma_grown_size(digests: Seq<u64>, size: int, increment: usize)
    ensures
        size <= grown(digests, size, increment).0,
        grown(digests, size, increment).0 <= size_limit(increment) || grown(
            digests,
            size,
            increment,
        ).0 == size,
    decreases
            if size < size_limit(increment) {
                size_limit(increment) - size
            } else {
                0
            },
{
    if decoded_at(digests, size as nat) is None && increment > 0 && size + increment <= size_limit(
        increment,
    ) {
        lemma_grown_size(digests, size + increment, increment);
    }
}

/// All elements of the first `n` sets, set by set, in ascending order.
pub open spec fn elements_of(sets: Seq<Set<Element>>, n: nat) -> Seq<Element>
    decreases n,
{
    if n == 0 {
        Seq::empty()
    } else {
        elements_of(sets, (n - 1) as nat) + replica::listing(sets[n - 1])
    }
}

/// The first element whose digest has the given residue.
pub open spec fn first_with(elements: Seq<Element>, d: u64) -> Option<Element>
    decreases elements.len(),
{
    if elements.len() == 0 {
        None
    } else {
        match first_with(elements.drop_last(), d) {
            Some(e) => Some(e),
            None => if elements.last().digest as int % P as int == d {
                Some(elements.last())
            } else {
                None
            },
        }
    }
}

/// A set with the first element for each of the given residues.
pub open spec fn recovered(set: Set<Element>, elements: Seq<Element>, digests: Seq<u64>) -> Set<
    Element,
>
    decreases digests.len(),
{
    if digests.len() == 0 {
        set
    } else {
        let before = recovered(set, elements, digests.drop_last());
        match first_with(elements, digests.last()) {
            Some(e) => before.insert(e),
            None => before,
        }
    }
}

/// Taking the digests of one set out of those of all sets leaves those of the others.
proof fn lemma_digests_all(sets: Seq<Set<Element>>, skip: int, n: nat)
    requires
        0 <= skip < sets.len(),
        n <= sets.len(),
    ensures
        digests_but(sets, -1, n).to_multiset() == if skip < n {
            digests_but(sets, skip, n).to_multiset().add(
                replica::digests_of(sets[skip]).to_multiset(),
            )
        } else {
            digests_but(sets, skip, n).to_multiset()
        },
    decreases n,
{
    if n > 0 {
        lemma_digests_all(sets, skip, (n - 1) as nat);
        let last = replica::digests_of(sets[n - 1]);
        vstd::seq_lib::lemma_multiset_commutative(digests_but(sets, -1, (n - 1) as nat), last);
        vstd::seq_lib::lemma_multiset_commutative(digests_but(sets, skip, (n - 1) as nat), last);
        assert(digests_but(sets, -1, n).to_multiset() =~= if skip < n {
            digests_but(sets, skip, n).to_multiset().add(
                replica::digests_of(sets[skip]).to_multiset(),
            )
        } else {
            digests_but(sets, skip, n).to_multiset()
        });
    }
}

/// The total of all sketches less one is the sketch of what the others hold.
pub proof fn lemma_total_less_own(sets: Seq<Set<Element>>, skip: int, size: nat)
    requires
        0 <= skip < sets.len(),
    ensures
        multiparty_sketch::difference_cells(
            multiparty_sketch::sketch_of(digests_but(sets, -1, sets.len()), size),
            multiparty_sketch::sketch_of(replica::digests_of(sets[skip]), size),
        ) == multiparty_sketch::sketch_of(others_digests(sets, skip), size),
{
    let others = others_digests(sets, skip);
    let own = replica::digests_of(sets[skip]);
    lemma_digests_all(sets, skip, sets.len());
    vstd::seq_lib::lemma_multiset_commutative(others, own);
    multiparty_sketch::lemma_sketch_order(
        digests_but(sets, -1, sets.len()),
        others + own,
        size,
    );
    multiparty_sketch::lemma_sketch_difference(others, own, size);
}

/// The sketch of what all replicas but one hold, as the total of all sketches less one.
fn difference_sketch(replicas: &Vec<Replica>, replica_id: usize, size: usize) -> (d: MSketch)
    requires
        replica_id < replicas@.len(),
    ensures
        d.cells@ == multiparty_sketch::sketch_of(
            others_digests(sets_of(replicas@), replica_id as int),
            size as nat,
        ),
        multiparty_sketch::cells_wf(d.cells@),
{
    let ghost sets = sets_of(replicas@);
    let mut total = MSketch::new(size);
    let mut i: usize = 0;
    while i < replicas.len()
        invariant
            i <= replicas@.len(),
            sets == sets_of(replicas@),
            multiparty_sketch::cells_wf(total.cells@),
            total.cells@ == multiparty_sketch::sketch_of(
                digests_but(sets, -1, i as nat),
                size as nat,
            ),
        decreases replicas@.len() - i,
    {
        let one = build_sketch(&replicas[i], size);
        total.add_sketch(&one);
        proof {
            multiparty_sketch::lemma_sketch_of_both(
                digests_but(sets, -1, i as nat),
                replica::digests_of(sets[i as int]),
                size as nat,
            );
        }
        i = i + 1;
    }
    let own = build_sketch(&replicas[replica_id], size);
    total.sub_sketch(&own);
    proof {
        lemma_total_less_own(sets, replica_id as int, size as nat);
    }
    total
}

/// Sketches, aggregates and decodes with ever larger sketches. It starts with
/// `initial_sketch_size` cells and adds `cells_per_increment` after each failure, up to a
/// multiple of the increment. `initial_encode_time` is included in the encoding time.
pub fn run_riblt_loop(
    replicas: &Vec<Replica>,
    replica_id: usize,
    initial_sketch_size: usize,
    cells_per_increment: usize,
    initial_encode_time: u128,
) -> (r: RibltLoopResult)
    requires
        replica_id < replicas@.len(),
    ensures
        (r.final_sketch_size as int, r.remote_only_f@) == grown(
            others_digests(sets_of(replicas@), replica_id as int),
            initial_sketch_size as int,
            cells_per_increment,
        ),
        r.encode_time >= initial_encode_time,
{
    let ghost others = others_digests(sets_of(replicas@), replica_id as int);
    let ghost goal = grown(others, initial_sketch_size as int, cells_per_increment);
    let wanted: u128 = cells_per_increment as u128 * MAX_INCREMENTS as u128;
    let limit: usize = if wanted > usize::MAX as u128 {
        usize::MAX
    } else {
        wanted as usize
    };
    let mut sketch_size: usize = initial_sketch_size;
    let mut encode_time: u128 = initial_encode_time;
    let mut decode_time: u128 = 0;
    loop
        invariant
            replica_id < replicas@.len(),
            others == others_digests(sets_of(replicas@), replica_id as int),
            limit == size_limit(cells_per_increment),
            encode_time >= initial_encode_time,
            grown(others, sketch_size as int, cells_per_increment) == goal,
            goal == grown(others, initial_sketch_size as int, cells_per_increment),
        decreases
            if sketch_size < limit {
                limit - sketch_size
            } else {
                0
            },
    {
        let encoding = Stopwatch::start();
        let diff = difference_sketch(replicas, replica_id, sketch_size);
        encode_time = add_u128(encode_time, encoding.nanos());
        let decoding = Stopwatch::start();
        let decoded: Option<Vec<u64>> = diff.try_decode();
        decode_time = add_u128(decode_time, decoding.nanos());
        match decoded {
            Some(digests) => {
                return RibltLoopResult {
                    final_sketch_size: sketch_size,
                    encode_time,
                    decode_time,
                    remote_only_f: digests,
                };
            },
            None => {
                if cells_per_increment == 0 || sketch_size > limit || cells_per_increment > limit
                    - sketch_size {
                    let none: Vec<u64> = Vec::new();
                    assert(none@ =~= Seq::<u64>::empty());
                    return RibltLoopResult {
                        final_sketch_size: sketch_size,
                        encode_time,
                        decode_time,
                        remote_only_f: none,
                    };
                }
                sketch_size = sketch_size + cells_per_increment;
            },
        }
    }
}

/// The first element whose digest has the given residue, looked up in all replicas.
fn find_element(replicas: &Vec<Replica>, d: u64) -> (r: Option<Element>)
    ensures
        r == first_with(elements_of(sets_of(replicas@), replicas@.len()), d),
{
    let ghost sets = sets_of(replicas@);
    let mut i: usize = 0;
    while i < replicas.len()
        invariant
            i <= replicas@.len(),
            sets == sets_of(replicas@),
            first_with(elements_of(sets, i as nat), d) is None,
        decreases replicas@.len() - i,
    {
        let elements = replicas[i].set.elements();
        let ghost before = elements_of(sets, i as nat);
        let mut j: usize = 0;
        assert(before + elements@.take(0) =~= before);
        while j < elements.len()
            invariant
                i < replicas@.len(),
                sets == sets_of(replicas@),
                before == elements_of(sets, i as nat),
                elements@ == replica::listing(sets[i as int]),
                j <= elements@.len(),
                first_with(before + elements@.take(j as int), d) is None,
            decreases elements@.len() - j,
        {
            let e: Element = elements[j];
            assert((before + elements@.take(j + 1)).drop_last() =~= before + elements@.take(
                j as int,
            ));
            if e.digest % P == d {
                proof {
                    let all = before + elements@;
                    assert(all.take(before.len() + j + 1) =~= before + elements@.take(j + 1));
                    lemma_first_stays(all, d, (before.len() + j + 1) as int);
                    assert(all == elements_of(sets, (i + 1) as nat));
                    lemma_elements_prefix(sets, (i + 1) as nat, sets.len());
                    let whole = elements_of(sets, sets.len());
                    lemma_first_stays(whole, d, all.len() as int);
                }
                return Some(e);
            }
            j = j + 1;
        }
        assert(elements@.take(j as int) =~= elements@);
        i = i + 1;
    }
    None
}

proof fn lemma_first_stays(elements: Seq<Element>, d: u64, n: int)
    requires
        0 <= n <= elements.len(),
        first_with(elements.take(n), d) is Some,
    ensures
        first_with(elements, d) == first_with(elements.take(n), d),
    decreases elements.len(),
{
    if n == elements.len() {
        assert(elements.take(n) =~= elements);
    } else {
        assert(elements.drop_last().take(n) =~= elements.take(n));
        lemma_first_stays(elements.drop_last(), d, n);
    }
}

proof fn lemma_elements_prefix(sets: Seq<Set<Element>>, m: nat, n: nat)
    requires
        m <= n,
    ensures
        elements_of(sets, m).len() <= elements_of(sets, n).len(),
        elements_of(sets, n).take(elements_of(sets, m).len() as int) == elements_of(sets, m),
    decreases n,
{
    if m == n {
        assert(elements_of(sets, n).take(elements_of(sets, m).len() as int) =~= elements_of(
            sets,
            m,
        ));
    } else {
        lemma_elements_prefix(sets, m, (n - 1) as nat);
        let k = elements_of(sets, m).len() as int;
        assert(elements_of(sets, n).take(k) =~= elements_of(sets, (n - 1) as nat).take(k));
    }
}

/// Adds to a set, for each of the given residues, the first element that has it among all
/// replicas.
pub fn recover_elements(remote_only_f: &Vec<u64>, replicas: &Vec<Replica>, next_set: &mut ElementSet)
    ensures
        final(next_set)@ == recovered(
            old(next_set)@,
            elements_of(sets_of(replicas@), replicas@.len()),
            remote_only_f@,
        ),
{
    let ghost start = next_set@;
    let ghost all = elements_of(sets_of(replicas@), replicas@.len());
    let mut i: usize = 0;
    assert(remote_only_f@.take(0) =~= Seq::<u64>::empty());
    while i < remote_only_f.len()
        invariant
            i <= remote_only_f@.len(),
            all == elements_of(sets_of(replicas@), replicas@.len()),
            next_set@ == recovered(start, all, remote_only_f@.take(i as int)),
        decreases remote_only_f@.len() - i,
    {
        assert(remote_only_f@.take(i + 1).drop_last() =~= remote_only_f@.take(i as int));
        match find_element(replicas, remote_only_f[i]) {
            Some(e) => {
                next_set.insert(e);
            },
            None => {},
        }
        i = i + 1;
    }
    assert(remote_only_f@.take(i as int) =~= remote_only_f@);
}

/// Decodes the total of all sketches less one's own.
#[derive(Clone, Copy, Debug, PartialEq, Eq, Structural)]
pub struct TopologyAwareRibltProtocol {
    cells_per_increment: usize,
}

impl Default for TopologyAwareRibltProtocol {
    fn default() -> (p: Self)
        ensures
            p.increment() == 1024,
    {
        Self::new()
    }
}

impl TopologyAwareRibltProtocol {
    /// Cells that are added at a time.
    pub closed spec fn increment(self) -> usize {
        self.cells_per_increment
    }

    pub fn new() -> (p: Self)
        ensures
            p.increment() == 1024,
    {
        TopologyAwareRibltProtocol { cells_per_increment: 1024 }
    }

    pub fn with_cells_per_increment(cells_per_increment: usize) -> (p: Self)
        ensures
            p.increment() == cells_per_increment,
    {
        TopologyAwareRibltProtocol { cells_per_increment }
    }

    /// One aggregation round for a replica. Each node exchanges one sketch for each edge.
    pub fn step_replica(&self, replica_id: usize, replicas: &Vec<Replica>, topology: &Topology) -> (r:
        AggregationStep)
        requires
            replica_id < replicas@.len(),
            replica_id < topology.rows().len(),
        ensures
            ({
                let sets = sets_of(replicas@);
                let (size, found) = grown(
                    others_digests(sets, replica_id as int),
                    self.increment() as int,
                    self.increment(),
                );
                let neighbors = topology.rows()[replica_id as int].len();
                &&& r.next_set@ == recovered(
                    sets[replica_id as int],
                    elements_of(sets, sets.len()),
                    found,
                )
                &&& r.metrics.state_bytes == 0
                &&& r.metrics.metadata_bytes == counter::wrap_usize(
                    counter::wrap_usize(neighbors * size) * CELL_BYTES,
                )
                &&& 24 * (neighbors * size) <= usize::MAX ==> r.metrics.metadata_bytes == 24 * (
                neighbors * size)
                &&& r.metrics.false_matches == 0
            }),
    {
        let mut next_set: ElementSet = replicas[replica_id].set.clone();
        let end = run_riblt_loop(
            replicas,
            replica_id,
            self.cells_per_increment,
            self.cells_per_increment,
            0,
        );
        recover_elements(&end.remote_only_f, replicas, &mut next_set);
        let num_neighbors: usize = topology.neighbors(replica_id).len();
        let metadata_bytes: usize = mul_usize(
            mul_usize(num_neighbors, end.final_sketch_size),
            CELL_BYTES,
        );
        proof {
            let product = num_neighbors * end.final_sketch_size;
            assert(product >= 0) by (nonlinear_arith)
                requires
                    product == num_neighbors * end.final_sketch_size,
            ;
            if 24 * product <= usize::MAX {
                counter::lemma_wrap_small(product);
                counter::lemma_wrap_small(product * CELL_BYTES);
            }
        }
        AggregationStep::concluded(&end, next_set, metadata_bytes)
    }
}

proof fn lemma_first_is_one(elements: Seq<Element>, d: u64)
    ensures
        first_with(elements, d) matches Some(e) ==> elements.contains(e) && e.digest as int
            % P as int == d,
    decreases elements.len(),
{
    if elements.len() > 0 {
        let rest = elements.drop_last();
        lemma_first_is_one(rest, d);
        if let Some(e) = first_with(rest, d) {
            let i = choose|i: int| 0 <= i < rest.len() && rest[i] == e;
            assert(elements[i] == e);
        } else {
            assert(elements[elements.len() - 1] == elements.last());
        }
    }
}

/// Recovery keeps what a replica holds, and adds only what some replica holds.
pub proof fn lemma_recovered_bounds(set: Set<Element>, elements: Seq<Element>, digests: Seq<u64>)
    ensures
        set.subset_of(recovered(set, elements, digests)),
        recovered(set, elements, digests).subset_of(set.union(elements.to_set())),
    decreases digests.len(),
{
    if digests.len() > 0 {
        lemma_recovered_bounds(set, elements, digests.drop_last());
        lemma_first_is_one(elements, digests.last());
    }
}

proof fn lemma_elements_of_same(sets: Seq<Set<Element>>, n: nat, set: Set<Element>)
    requires
        n <= sets.len(),
        set.finite(),
        forall|i: int| 0 <= i < sets.len() ==> (#[trigger] sets[i]) == set,
    ensures
        elements_of(sets, n).to_set().subset_of(set),
    decreases n,
{
    if n > 0 {
        lemma_elements_of_same(sets, (n - 1) as nat, set);
        let before = elements_of(sets, (n - 1) as nat);
        let l = replica::listing(set);
        replica::lemma_has_listing(set);
        assert(sets[n - 1] == set);
        assert forall|e: Element| (before + l).to_set().contains(e) implies set.contains(e) by {
            let i = choose|i: int| 0 <= i < (before + l).len() && (before + l)[i] == e;
            if i < before.len() {
                assert(before[i] == e);
                assert(before.to_set().contains(e));
            } else {
                assert(l[i - before.len()] == e);
                assert(l.to_set().contains(e));
            }
        }
    }
}

/// Where all replicas hold the same set, nothing is added to it.
pub proof fn lemma_identical_unchanged(
    sets: Seq<Set<Element>>,
    set: Set<Element>,
    digests: Seq<u64>,
)
    requires
        set.finite(),
        forall|i: int| 0 <= i < sets.len() ==> (#[trigger] sets[i]) == set,
    ensures
        recovered(set, elements_of(sets, sets.len()), digests) == set,
{
    lemma_elements_of_same(sets, sets.len(), set);
    lemma_recovered_bounds(set, elements_of(sets, sets.len()), digests);
    assert(recovered(set, elements_of(sets, sets.len()), digests) =~= set);
}

/// The growing of sketches ends with what the last one decoded to.
pub proof fn lemma_grown_found(digests: Seq<u64>, size: int, increment: usize)
    ensures
        ({
            let (last, found) = grown(digests, size, increment);
            match decoded_at(digests, last as nat) {
                Some(d) => found == d,
                None => found == Seq::<u64>::empty(),
            }
        }),
    decreases
            if size < size_limit(increment) {
                size_limit(increment) - size
            } else {
                0
            },
{
    if decoded_at(digests, size as nat) is None && increment > 0 && size + increment <= size_limit(
        increment,
    ) {
        lemma_grown_found(digests, size + increment, increment);
    }
}

/// Elements of the sets have digests below `P`, and no two different ones share a digest.
pub open spec fn told_apart(sets: Seq<Set<Element>>) -> bool {
    &&& forall|i: int| 0 <= i < sets.len() ==> (#[trigger] sets[i]).finite()
    &&& forall|i: int, e: Element|
        0 <= i < sets.len() && #[trigger] sets[i].contains(e) ==> e.digest < P
    &&& forall|i: int, j: int, e: Element, f: Element|
        0 <= i < sets.len() && 0 <= j < sets.len() && #[trigger] sets[i].contains(e)
            && #[trigger] sets[j].contains(f) && e.digest == f.digest ==> e == f
}

/// A sketch of what the other replicas hold that decodes, without collisions.
pub open spec fn decodes_cleanly(digests: Seq<u64>, size: nat) -> bool {
    &&& decoded_at(digests, size) is Some
    &&& multiparty_sketch::walks_once(digests, size)
    &&& multiparty_sketch::no_collision(digests, size)
}

proof fn lemma_union_has(sets: Seq<Set<Element>>, n: nat, e: Element)
    requires
        n <= sets.len(),
    ensures
        workload::union_of(sets, n).contains(e) <==> exists|k: int|
            0 <= k < n && #[trigger] sets[k].contains(e),
    decreases n,
{
    if n > 0 {
        lemma_union_has(sets, (n - 1) as nat, e);
        if workload::union_of(sets, n).contains(e) && !workload::union_of(
            sets,
            (n - 1) as nat,
        ).contains(e) {
            assert(sets[n - 1].contains(e));
        }
    }
}

proof fn lemma_elements_have(sets: Seq<Set<Element>>, n: nat, e: Element)
    requires
        n <= sets.len(),
        forall|i: int| 0 <= i < sets.len() ==> (#[trigger] sets[i]).finite(),
    ensures
        elements_of(sets, n).contains(e) <==> exists|k: int|
            0 <= k < n && #[trigger] sets[k].contains(e),
    decreases n,
{
    if n > 0 {
        lemma_elements_have(sets, (n - 1) as nat, e);
        let before = elements_of(sets, (n - 1) as nat);
        let l = replica::listing(sets[n - 1]);
        replica::lemma_has_listing(sets[n - 1]);
        assert(l.to_set().contains(e) <==> l.contains(e));
        lemma_either(before, l, e);
        if elements_of(sets, n).contains(e) && !before.contains(e) {
            assert(sets[n - 1].contains(e));
        }
    }
}

proof fn lemma_either<T>(a: Seq<T>, b: Seq<T>, x: T)
    ensures
        (a + b).contains(x) <==> a.contains(x) || b.contains(x),
{
    if a.contains(x) {
        let i = choose|i: int| 0 <= i < a.len() && a[i] == x;
        assert((a + b)[i] == x);
    }
    if b.contains(x) {
        let i = choose|i: int| 0 <= i < b.len() && b[i] == x;
        assert((a + b)[a.len() + i] == x);
    }
    if (a + b).contains(x) {
        let i = choose|i: int| 0 <= i < (a + b).len() && (a + b)[i] == x;
        if i < a.len() {
            assert(a[i] == x);
        } else {
            assert(b[i - a.len()] == x);
        }
    }
}

proof fn lemma_others_have(sets: Seq<Set<Element>>, skip: int, n: nat, d: u64)
    requires
        n <= sets.len(),
        forall|i: int| 0 <= i < sets.len() ==> (#[trigger] sets[i]).finite(),
    ensures
        digests_but(sets, skip, n).contains(d) <==> exists|k: int, e: Element|
            0 <= k < n && k != skip && #[trigger] sets[k].contains(e) && e.digest == d,
    decreases n,
{
    if n > 0 {
        lemma_others_have(sets, skip, (n - 1) as nat, d);
        if n - 1 != skip {
            let before = digests_but(sets, skip, (n - 1) as nat);
            let l = replica::listing(sets[n - 1]);
            let ds = replica::digests_of(sets[n - 1]);
            replica::lemma_has_listing(sets[n - 1]);
            lemma_either(before, ds, d);
            if ds.contains(d) {
                let i = choose|i: int| 0 <= i < ds.len() && ds[i] == d;
                assert(l.contains(l[i]));
                assert(l.to_set().contains(l[i]));
                assert(sets[n - 1].contains(l[i]));
            }
            if exists|e: Element| #[trigger] sets[n - 1].contains(e) && e.digest == d {
                let e = choose|e: Element| #[trigger] sets[n - 1].contains(e) && e.digest == d;
                assert(l.to_set().contains(e));
                let i = choose|i: int| 0 <= i < l.len() && l[i] == e;
                assert(ds[i] == d);
            }
        }
    }
}

proof fn lemma_first_found(elements: Seq<Element>, e: Element, d: u64)
    requires
        elements.contains(e),
        e.digest as int % P as int == d,
    ensures
        first_with(elements, d) is Some,
    decreases elements.len(),
{
    let i = choose|i: int| 0 <= i < elements.len() && elements[i] == e;
    if i < elements.len() - 1 {
        assert(elements.drop_last()[i] == e);
        lemma_first_found(elements.drop_last(), e, d);
    }
}

proof fn lemma_recovers(set: Set<Element>, elements: Seq<Element>, digests: Seq<u64>, e: Element)
    requires
        elements.contains(e),
        digests.contains(e.digest),
        e.digest < P,
        forall|f: Element| #[trigger]
            elements.contains(f) && f.digest as int % P as int == e.digest ==> f == e,
    ensures
        recovered(set, elements, digests).contains(e),
    decreases digests.len(),
{
    let i = choose|i: int| 0 <= i < digests.len() && digests[i] == e.digest;
    if i < digests.len() - 1 {
        assert(digests.drop_last()[i] == e.digest);
        lemma_recovers(set, elements, digests.drop_last(), e);
    } else {
        vstd::arithmetic::div_mod::lemma_small_mod(e.digest as nat, P as nat);
        lemma_first_found(elements, e, e.digest);
        lemma_first_is_one(elements, e.digest);
    }
}

/// Once the others' digests are decoded without collisions, a replica holds the union of all
/// sets.
pub proof fn lemma_union_recovered(
    sets: Seq<Set<Element>>,
    id: int,
    first_size: int,
    increment: usize,
)
    requires
        0 <= id < sets.len(),
        0 < first_size,
        told_apart(sets),
        others_digests(sets, id).len() <= i64::MAX,
        decodes_cleanly(
            others_digests(sets, id),
            grown(others_digests(sets, id), first_size, increment).0 as nat,
        ),
    ensures
        recovered(
            sets[id],
            elements_of(sets, sets.len()),
            grown(others_digests(sets, id), first_size, increment).1,
        ) == workload::union_of(sets, sets.len()),
{
    let others = others_digests(sets, id);
    let (size, found) = grown(others, first_size, increment);
    let all = elements_of(sets, sets.len());
    let union = workload::union_of(sets, sets.len());
    lemma_grown_size(others, first_size, increment);
    lemma_grown_found(others, first_size, increment);
    assert forall|d: u64| #[trigger] others.contains(d) implies d < P by {
        lemma_others_have(sets, id, sets.len(), d);
    }
    multiparty_sketch::lemma_decoded_digests(others, size as nat);
    assert(found == multiparty_sketch::peeled(
        multiparty_sketch::sketch_of(others, size as nat),
    ).inserted);
    lemma_recovered_bounds(sets[id], all, found);
    let result = recovered(sets[id], all, found);
    assert forall|e: Element| #[trigger] result.contains(e) <==> union.contains(e) by {
        lemma_union_has(sets, sets.len(), e);
        lemma_elements_have(sets, sets.len(), e);
        if result.contains(e) {
            if sets[id].contains(e) {
            } else {
                assert(all.to_set().contains(e));
            }
        }
        if union.contains(e) && !sets[id].contains(e) {
            let k = choose|k: int| 0 <= k < sets.len() && #[trigger] sets[k].contains(e);
            lemma_others_have(sets, id, sets.len(), e.digest);
            assert(others.contains(e.digest));
            assert(found.to_set().contains(e.digest));
            assert forall|f: Element| #[trigger]
                all.contains(f) && f.digest as int % P as int == e.digest implies f == e by {
                lemma_elements_have(sets, sets.len(), f);
                let m = choose|m: int| 0 <= m < sets.len() && #[trigger] sets[m].contains(f);
                vstd::arithmetic::div_mod::lemma_small_mod(f.digest as nat, P as nat);
            }
            lemma_recovers(sets[id], all, found, e);
        }
    }
    assert(result =~= union);
}

/// Sketches grow by the increment, and no further than needed: every smaller size of the series
/// was tried and did not decode. Growing is given up only where one more increment would lead
/// past two hundred of them, or past the largest size.
pub proof fn lemma_grown_in_steps(digests: Seq<u64>, size: int, increment: usize, s: int)
    requires
        increment > 0,
    ensures
        ({
            let last = grown(digests, size, increment).0;
            &&& last >= size
            &&& (last - size) % increment as int == 0
            &&& size <= s < last && (s - size) % increment as int == 0 ==> decoded_at(
                digests,
                s as nat,
            ) is None
            &&& decoded_at(digests, last as nat) is None ==> last + increment > 200 * increment
                || last + increment > usize::MAX
        }),
    decreases
            if size < size_limit(increment) {
                size_limit(increment) - size
            } else {
                0
            },
{
    let d = increment as int;
    vstd::arithmetic::div_mod::lemma_mod_self_0(d);
    vstd::arithmetic::div_mod::lemma_small_mod(0, increment as nat);
    if decoded_at(digests, size as nat) is None && size + increment <= size_limit(increment) {
        let next = size + increment;
        lemma_grown_in_steps(digests, next, increment, s);
        let last = grown(digests, size, increment).0;
        vstd::arithmetic::div_mod::lemma_mod_add_multiples_vanish(last - next, d);
        assert(d + (last - next) == last - size);
        if size <= s < last && (s - size) % d == 0 && s != size {
            if s < next {
                vstd::arithmetic::div_mod::lemma_small_mod((s - size) as nat, increment as nat);
            } else {
                vstd::arithmetic::div_mod::lemma_mod_add_multiples_vanish(s - next, d);
                assert(d + (s - next) == s - size);
            }
        }
    }
}

/// The first element with a residue is one that has it, and none before it does.
pub proof fn lemma_first_with(elements: Seq<Element>, d: u64)
    ensures
        match first_with(elements, d) {
            Some(e) => exists|i: int|
                0 <= i < elements.len() && #[trigger] elements[i] == e && e.digest as int
                    % P as int == d && forall|j: int|
                    0 <= j < i ==> (#[trigger] elements[j]).digest as int % P as int != d,
            None => forall|j: int|
                0 <= j < elements.len() ==> (#[trigger] elements[j]).digest as int % P as int
                    != d,
        },
    decreases elements.len(),
{
    if elements.len() > 0 {
        let rest = elements.drop_last();
        lemma_first_with(rest, d);
        match first_with(rest, d) {
            Some(e) => {
                let i = choose|i: int|
                    0 <= i < rest.len() && #[trigger] rest[i] == e && e.digest as int % P as int
                        == d && forall|j: int|
                        0 <= j < i ==> (#[trigger] rest[j]).digest as int % P as int != d;
                assert(elements[i] == e);
                assert forall|j: int| 0 <= j < i implies (#[trigger] elements[j]).digest as int
                    % P as int != d by {
                    assert(rest[j] == elements[j]);
                }
            },
            None => {
                assert forall|j: int| 0 <= j < rest.len() implies (
                #[trigger] elements[j]).digest as int % P as int != d by {
                    assert(rest[j] == elements[j]);
                }
                assert(elements[elements.len() - 1] == elements.last());
            },
        }
    }
}

/// One of the listed digests leads to an element.
pub open spec fn leads_to(elements: Seq<Element>, digests: Seq<u64>, e: Element) -> bool {
    exists|i: int| 0 <= i < digests.len() && first_with(elements, #[trigger] digests[i]) == Some(e)
}

/// Recovery adds, for every listed digest, the first element that has it, and nothing else.
pub proof fn lemma_recovered_exactly(
    set: Set<Element>,
    elements: Seq<Element>,
    digests: Seq<u64>,
    e: Element,
)
    ensures
        recovered(set, elements, digests).contains(e) <==> set.contains(e) || leads_to(
            elements,
            digests,
            e,
        ),
    decreases digests.len(),
{
    if digests.len() > 0 {
        let rest = digests.drop_last();
        lemma_recovered_exactly(set, elements, rest, e);
        if leads_to(elements, rest, e) {
            let i = choose|i: int|
                0 <= i < rest.len() && first_with(elements, #[trigger] rest[i]) == Some(e);
            assert(digests[i] == rest[i]);
            assert(first_with(elements, digests[i]) == Some(e));
        }
        if leads_to(elements, digests, e) {
            let i = choose|i: int|
                0 <= i < digests.len() && first_with(elements, #[trigger] digests[i]) == Some(e);
            if i < rest.len() {
                assert(rest[i] == digests[i]);
                assert(first_with(elements, rest[i]) == Some(e));
            }
        }
        if first_with(elements, digests.last()) == Some(e) {
            assert(first_with(elements, digests[digests.len() - 1]) == Some(e));
        }
    }
}

} // verus!
