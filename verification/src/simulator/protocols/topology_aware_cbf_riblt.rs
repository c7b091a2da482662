//! Reconciliation by aggregation, with sketches sized by an estimate.
//!
//! Before sketches are aggregated, counting filters are. They tell how many elements a replica
//! shares with others, and with that how large the first sketch should be.

use crate::simulator::algorithms::counting_bloom;
use crate::simulator::algorithms::counting_bloom::CountingBf;
use crate::simulator::algorithms::multiparty_sketch::CELL_BYTES;
use crate::simulator::clock::Stopwatch;
use crate::simulator::counter;
use crate::simulator::counter::{add_usize, mul_usize};
use crate::simulator::protocols::topology_aware_riblt;
use crate::simulator::protocols::topology_aware_riblt::{
    recover_elements, run_riblt_loop, AggregationStep,
};
use crate::simulator::replica;
use crate::simulator::replica::{Element, ElementSet, Replica};
use crate::simulator::topology::Topology;
use crate::simulator::workload;
use vstd::prelude::*;

verus! {

/// The counters of a filter of a list of digests.
pub open spec fn counts_of(digests: Seq<u64>, cells: nat, hashes: nat) -> Seq<u32> {
    counting_bloom::inserted_all(Seq::new(cells, |j: int| 0u32), hashes, digests)
}

/// The filters of the first `n` sets, added up.
pub open spec fn total_counts(sets: Seq<Set<Element>>, cells: nat, hashes: nat, n: nat) -> Seq<u32>
    decreases n,
{
    if n == 0 {
        Seq::new(cells, |j: int| 0u32)
    } else {
        counting_bloom::added(
            total_counts(sets, cells, hashes, (n - 1) as nat),
            counts_of(replica::digests_of(sets[n - 1]), cells, hashes),
        )
    }
}

/// The total of all filters less that of one set.
pub open spec fn other_counts(sets: Seq<Set<Element>>, cells: nat, hashes: nat, i: int) -> Seq<u32> {
    counting_bloom::subtracted(
        total_counts(sets, cells, hashes, sets.len()),
        counts_of(replica::digests_of(sets[i]), cells, hashes),
    )
}

/// How many of the digests a filter knows.
pub open spec fn known(counts: Seq<u32>, hashes: nat, digests: Seq<u64>) -> nat
    decreases digests.len(),
{
    if digests.len() == 0 {
        0
    } else {
        known(counts, hashes, digests.drop_last()) + if counting_bloom::query_of(
            counts,
            hashes,
            digests.last(),
        ) >= 1 {
            1nat
        } else {
            0nat
        }
    }
}

/// The cells of a counting filter for a set of the given size.
pub open spec fn filter_cells(set_len: usize, bits_per_elem: usize) -> usize {
    let n = if set_len < 64 {
        64
    } else {
        set_len as int
    };
    let cells = counter::wrap_usize(n * bits_per_elem) / 32;
    if cells < 64 {
        64
    } else {
        cells
    }
}

/// The least multiple that is not smaller, as far as it fits.
pub open spec fn rounded_up(value: usize, multiple: usize) -> usize {
    counter::wrap_usize(
        counter::wrap_usize(counter::wrap_usize(value + multiple) - 1) / multiple * multiple,
    )
}

/// The size of the first sketch: one and a half times the estimate, rounded up to whole
/// increments.
pub open spec fn first_size(shared: usize, set_len: usize, increment: usize) -> usize {
    let estimate = counter::wrap_usize(shared + set_len);
    let raw = counter::wrap_usize(counter::wrap_usize(estimate * 3) + 1) / 2;
    let size = rounded_up(raw as usize, increment);
    if size < increment {
        increment
    } else {
        size
    }
}

/// The least multiple that is not smaller, as far as it fits.
pub fn round_up_to_multiple(value: usize, multiple: usize) -> (r: usize)
    requires
        multiple > 0,
    ensures
        r == rounded_up(value, multiple),
        value + multiple <= usize::MAX ==> value <= r < value + multiple && r as int
            % multiple as int == 0,
{
    let sum: usize = add_usize(value, multiple);
    let less: usize = sum.wrapping_sub(1);
    proof {
        lemma_wrapped_decrement(sum);
        let q = (value + multiple - 1) / multiple as int;
        let m = multiple as int;
        let top = value + multiple - 1;
        if value + multiple <= usize::MAX {
            vstd::arithmetic::div_mod::lemma_fundamental_div_mod(top, m);
            vstd::arithmetic::div_mod::lemma_mod_bound(top, m);
            assert(q * m == m * q) by (nonlinear_arith);
            vstd::arithmetic::div_mod::lemma_mod_multiples_basic(q, m);
            counter::lemma_wrap_small(q * m);
            counter::lemma_wrap_small(value + multiple);
            counter::lemma_wrap_small(value + multiple - 1);
        }
    }
    mul_usize(less / multiple, multiple)
}

proof fn lemma_wrapped_decrement(sum: usize)
    ensures
        sum.wrapping_sub(1) == counter::wrap_usize(sum - 1),
{
    if sum >= 1 {
        counter::lemma_wrap_small(sum - 1);
    } else {
        counter::lemma_wrap_minus_one();
    }
}

/// A counting filter of a set.
fn filter_of_set(set: &ElementSet, cells: usize, hashes: usize) -> (f: CountingBf)
    requires
        cells > 0,
    ensures
        f.counters() == counts_of(replica::digests_of(set@), cells as nat, hashes as nat),
        f.hashes() == hashes,
        f.counters().len() == cells,
{
    let digests: Vec<u64> = set.digest_list();
    let mut f = CountingBf::new(cells, hashes);
    let ghost zero = f.counters();
    let mut i: usize = 0;
    assert(digests@.take(0) =~= Seq::<u64>::empty());
    while i < digests.len()
        invariant
            i <= digests@.len(),
            cells > 0,
            f.hashes() == hashes,
            f.counters().len() == cells,
            f.counters() == counting_bloom::inserted_all(
                zero,
                hashes as nat,
                digests@.take(i as int),
            ),
        decreases digests@.len() - i,
    {
        f.insert(digests[i]);
        assert(digests@.take(i + 1).drop_last() =~= digests@.take(i as int));
        i = i + 1;
    }
    assert(digests@.take(i as int) =~= digests@);
    f
}

/// Aggregation with a preceding round of counting filters.
#[derive(Clone, Copy, Debug, PartialEq, Eq, Structural)]
pub struct TopologyAwareCbfRibltProtocol {
    cells_per_increment: usize,
    cbf_bits_per_elem: usize,
    cbf_num_hashes: usize,
}

impl Default for TopologyAwareCbfRibltProtocol {
    fn default() -> (p: Self)
        ensures
            p.parameters() == (1024usize, 8usize, 3usize),
    {
        Self::new()
    }
}

impl TopologyAwareCbfRibltProtocol {
    /// Cells that are added to a sketch at a time, bits of a counting filter for each element,
    /// and its hash functions.
    pub closed spec fn parameters(self) -> (usize, usize, usize) {
        (self.cells_per_increment, self.cbf_bits_per_elem, self.cbf_num_hashes)
    }

    #[verifier::type_invariant]
    spec fn wf(self) -> bool {
        self.cells_per_increment > 0
    }

    pub fn new() -> (p: Self)
        ensures
            p.parameters() == (1024usize, 8usize, 3usize),
    {
        TopologyAwareCbfRibltProtocol {
            cells_per_increment: 1024,
            cbf_bits_per_elem: 8,
            cbf_num_hashes: 3,
        }
    }

    /// How many elements of a replica the other replicas seem to hold.
    fn shared_count(&self, replica_id: usize, replicas: &Vec<Replica>, cells: usize) -> (n: usize)
        requires
            replica_id < replicas@.len(),
            cells > 0,
        ensures
            ({
                let sets = topology_aware_riblt::sets_of(replicas@);
                let hashes = self.parameters().2 as nat;
                n == known(
                    other_counts(sets, cells as nat, hashes, replica_id as int),
                    hashes,
                    replica::digests_of(sets[replica_id as int]),
                )
            }),
    {
        let ghost sets = topology_aware_riblt::sets_of(replicas@);
        let hashes: usize = self.cbf_num_hashes;
        let mut total = CountingBf::new(cells, hashes);
        let mut i: usize = 0;
        while i < replicas.len()
            invariant
                i <= replicas@.len(),
                sets == topology_aware_riblt::sets_of(replicas@),
                cells > 0,
                total.hashes() == hashes,
                total.counters() == total_counts(sets, cells as nat, hashes as nat, i as nat),
                total.counters().len() == cells,
            decreases replicas@.len() - i,
        {
            let one = filter_of_set(&replicas[i].set, cells, hashes);
            total.add(&one);
            i = i + 1;
        }
        let own = filter_of_set(&replicas[replica_id].set, cells, hashes);
        total.sub(&own);
        let digests: Vec<u64> = replicas[replica_id].set.digest_list();
        let ghost counts = total.counters();
        let mut shared: usize = 0;
        let mut j: usize = 0;
        assert(digests@.take(0) =~= Seq::<u64>::empty());
        while j < digests.len()
            invariant
                j <= digests@.len(),
                shared <= j,
                total.counters() == counts,
                total.hashes() == hashes,
                counts.len() > 0,
                shared == known(counts, hashes as nat, digests@.take(j as int)),
            decreases digests@.len() - j,
        {
            assert(digests@.take(j + 1).drop_last() =~= digests@.take(j as int));
            if total.query(digests[j]) >= 1 {
                shared = shared + 1;
            }
            j = j + 1;
        }
        assert(digests@.take(j as int) =~= digests@);
        shared
    }

    /// One aggregation round for a replica. Each node exchanges one counting filter and one
    /// sketch for each edge.
    pub fn step_replica(&self, replica_id: usize, replicas: &Vec<Replica>, topology: &Topology) -> (r:
        AggregationStep)
        requires
            replica_id < replicas@.len(),
            replica_id < topology.rows().len(),
        ensures
            ({
                let sets = topology_aware_riblt::sets_of(replicas@);
                let set = sets[replica_id as int];
                let (increment, bits, hashes) = self.parameters();
                let cells = filter_cells(set.len() as usize, bits);
                let shared = known(
                    other_counts(sets, cells as nat, hashes as nat, replica_id as int),
                    hashes as nat,
                    replica::digests_of(set),
                );
                let (size, found) = topology_aware_riblt::grown(
                    topology_aware_riblt::others_digests(sets, replica_id as int),
                    first_size(shared as usize, set.len() as usize, increment) as int,
                    increment,
                );
                let neighbors = topology.rows()[replica_id as int].len();
                &&& r.next_set@ == topology_aware_riblt::recovered(
                    set,
                    topology_aware_riblt::elements_of(sets, sets.len()),
                    found,
                )
                &&& r.metrics.state_bytes == 0
                &&& r.metrics.metadata_bytes == counter::wrap_usize(
                    neighbors * counter::wrap_usize(
                        counter::wrap_usize(cells * 4) + counter::wrap_usize(size * CELL_BYTES),
                    ),
                )
                &&& cells * 4 + size * 24 <= usize::MAX && neighbors * (cells * 4 + size * 24)
                    <= usize::MAX ==> r.metrics.metadata_bytes == neighbors * (cells * 4 + size
                    * 24)
                &&& r.metrics.false_matches == 0
            }),
    {
        proof {
            use_type_invariant(self);
        }
        let mut next_set: ElementSet = replicas[replica_id].set.clone();
        let watch = Stopwatch::start();
        let local_size: usize = replicas[replica_id].set.len();
        let wide: usize = if local_size < 64 {
            64
        } else {
            local_size
        };
        let narrow: usize = mul_usize(wide, self.cbf_bits_per_elem) / 32;
        let cells: usize = if narrow < 64 {
            64
        } else {
            narrow
        };
        let shared: usize = self.shared_count(replica_id, replicas, cells);
        let encode_time_cbf: u128 = watch.nanos();
        let estimate: usize = add_usize(shared, local_size);
        let raw: usize = add_usize(mul_usize(estimate, 3), 1) / 2;
        let rounded: usize = round_up_to_multiple(raw, self.cells_per_increment);
        let initial: usize = if rounded < self.cells_per_increment {
            self.cells_per_increment
        } else {
            rounded
        };
        let end = run_riblt_loop(
            replicas,
            replica_id,
            initial,
            self.cells_per_increment,
            encode_time_cbf,
        );
        recover_elements(&end.remote_only_f, replicas, &mut next_set);
        let num_neighbors: usize = topology.neighbors(replica_id).len();
        let cbf_bytes: usize = mul_usize(cells, 4);
        let metadata_bytes: usize = mul_usize(
            num_neighbors,
            add_usize(cbf_bytes, mul_usize(end.final_sketch_size, CELL_BYTES)),
        );
        proof {
            let size = end.final_sketch_size as int;
            let each = cells * 4 + size * 24;
            if each <= usize::MAX && num_neighbors * each <= usize::MAX {
                assert(num_neighbors * each >= 0) by (nonlinear_arith)
                    requires
                        each >= 0,
                ;
                counter::lemma_wrap_small(cells * 4);
                counter::lemma_wrap_small(size * 24);
                counter::lemma_wrap_small(each);
                counter::lemma_wrap_small(num_neighbors * each);
            }
        }
        AggregationStep::concluded(&end, next_set, metadata_bytes)
    }
}

/// With a neighbour to talk to, the counting filters make a step cost more than its sketches
/// alone, as long as the costs fit a machine word.
pub proof fn lemma_filters_cost(neighbors: nat, set_len: usize, bits: usize, size: nat)
    requires
        neighbors > 0,
        neighbors * (filter_cells(set_len, bits) * 4 + size * CELL_BYTES) <= usize::MAX,
    ensures
        counter::wrap_usize(
            (neighbors * counter::wrap_usize(
                counter::wrap_usize(filter_cells(set_len, bits) * 4) + counter::wrap_usize(
                    (size * CELL_BYTES) as int,
                ),
            )) as int,
        ) >= neighbors * (size * CELL_BYTES) + 256 * neighbors,
{
    let cells = filter_cells(set_len, bits) as int;
    let sketch = size * CELL_BYTES;
    let each = cells * 4 + sketch;
    assert(each <= neighbors * each) by (nonlinear_arith)
        requires
            neighbors >= 1,
            each >= 0,
    ;
    counter::lemma_wrap_small(cells * 4);
    counter::lemma_wrap_small(sketch as int);
    counter::lemma_wrap_small(each);
    counter::lemma_wrap_small(neighbors * each);
    assert(neighbors * each >= neighbors * sketch + 256 * neighbors) by (nonlinear_arith)
        requires
            each >= sketch + 256,
            neighbors >= 1,
    ;
}

/// The round of counting filters changes what a step costs, never the set: wherever the first
/// sketch starts, decoding without collisions gives the union of all sets.
pub proof fn lemma_same_set_either_way(
    sets: Seq<Set<Element>>,
    id: int,
    shared: usize,
    increment: usize,
)
    requires
        0 <= id < sets.len(),
        0 < increment,
        topology_aware_riblt::told_apart(sets),
        topology_aware_riblt::others_digests(sets, id).len() <= i64::MAX,
        ({
            let others = topology_aware_riblt::others_digests(sets, id);
            let sized = first_size(shared, sets[id].len() as usize, increment) as int;
            let with_filters = topology_aware_riblt::grown(others, sized, increment).0;
            let without = topology_aware_riblt::grown(others, increment as int, increment).0;
            &&& topology_aware_riblt::decodes_cleanly(others, with_filters as nat)
            &&& topology_aware_riblt::decodes_cleanly(others, without as nat)
        }),
    ensures
        ({
            let others = topology_aware_riblt::others_digests(sets, id);
            let all = topology_aware_riblt::elements_of(sets, sets.len());
            let sized = first_size(shared, sets[id].len() as usize, increment) as int;
            let with_filters = topology_aware_riblt::grown(others, sized, increment).1;
            let without = topology_aware_riblt::grown(others, increment as int, increment).1;
            let union = workload::union_of(sets, sets.len());
            &&& topology_aware_riblt::recovered(sets[id], all, with_filters) == union
            &&& topology_aware_riblt::recovered(sets[id], all, without) == union
        }),
{
    let sized = first_size(shared, sets[id].len() as usize, increment) as int;
    topology_aware_riblt::lemma_union_recovered(sets, id, sized, increment);
    topology_aware_riblt::lemma_union_recovered(sets, id, increment as int, increment);
}

/// The digests that a filter knows are counted one by one.
pub proof fn lemma_known_counts(counts: Seq<u32>, hashes: nat, digests: Seq<u64>)
    ensures
        known(counts, hashes, digests) == digests.filter(
            |d: u64| counting_bloom::query_of(counts, hashes, d) > 0,
        ).len(),
    decreases digests.len(),
{
    reveal(Seq::filter);
    if digests.len() > 0 {
        lemma_known_counts(counts, hashes, digests.drop_last());
    }
}

/// A counting filter has a cell of thirty-two bits for every thirty-two bits that are asked for,
/// counting sets of fewer than sixty-four elements as sets of so many, and never fewer than
/// sixty-four cells.
pub proof fn lemma_filter_cells(set_len: usize, bits_per_elem: usize)
    requires
        set_len * bits_per_elem <= usize::MAX,
        64 * bits_per_elem <= usize::MAX,
    ensures
        ({
            let cells = filter_cells(set_len, bits_per_elem);
            let bits = (if set_len < 64 {
                64int
            } else {
                set_len as int
            }) * bits_per_elem;
            &&& cells >= 64
            &&& bits < 32 * cells + 32
            &&& cells > 64 ==> 32 * cells <= bits
        }),
{
    let n = if set_len < 64 {
        64int
    } else {
        set_len as int
    };
    assert(n * bits_per_elem >= 0) by (nonlinear_arith)
        requires
            n >= 64,
    ;
    counter::lemma_wrap_small(n * bits_per_elem);
}

/// The first sketch is sized by what a replica holds and shares: it is made of whole
/// increments, at least one, as few as give room for one and a half times as many digests.
pub proof fn lemma_first_size(shared: usize, set_len: usize, increment: usize)
    requires
        increment > 0,
        2 * (shared + set_len) + increment + 1 <= usize::MAX,
        3 * (shared + set_len) + 1 <= usize::MAX,
    ensures
        ({
            let size = first_size(shared, set_len, increment);
            let wanted = shared + set_len;
            &&& size as int % increment as int == 0
            &&& size >= increment
            &&& 2 * size >= 3 * wanted
            &&& size > increment ==> 2 * (size - increment) < 3 * wanted
        }),
{
    let e = shared + set_len;
    let raw = (3 * e + 1) / 2;
    let m = increment as int;
    counter::lemma_wrap_small(e);
    counter::lemma_wrap_small(e * 3);
    counter::lemma_wrap_small(e * 3 + 1);
    counter::lemma_wrap_small(raw + increment);
    counter::lemma_wrap_small(raw + increment - 1);
    let top = raw + increment - 1;
    let q = top / m;
    vstd::arithmetic::div_mod::lemma_fundamental_div_mod(top, m);
    vstd::arithmetic::div_mod::lemma_mod_bound(top, m);
    assert(q * m == m * q) by (nonlinear_arith);
    vstd::arithmetic::div_mod::lemma_mod_multiples_basic(q, m);
    vstd::arithmetic::div_mod::lemma_mod_self_0(m);
    counter::lemma_wrap_small(q * m);
}

/// What the filters of the first `n` sets, but for set `skip`, count in one cell.
pub open spec fn cell_sum(
    sets: Seq<Set<Element>>,
    cells: nat,
    hashes: nat,
    n: nat,
    skip: int,
    j: int,
) -> int
    decreases n,
{
    if n == 0 {
        0
    } else {
        cell_sum(sets, cells, hashes, (n - 1) as nat, skip, j) + if n - 1 == skip {
            0
        } else {
            counts_of(replica::digests_of(sets[n - 1]), cells, hashes)[j] as int
        }
    }
}

proof fn lemma_counts_len(cells: Seq<u32>, hashes: nat, digests: Seq<u64>)
    ensures
        counting_bloom::inserted_all(cells, hashes, digests).len() == cells.len(),
    decreases digests.len(),
{
    if digests.len() > 0 {
        lemma_counts_len(cells, hashes, digests.drop_last());
    }
}

proof fn lemma_total_is_sum(
    sets: Seq<Set<Element>>,
    cells: nat,
    hashes: nat,
    n: nat,
    skip: int,
    j: int,
)
    requires
        0 <= j < cells,
        n <= sets.len(),
        0 <= skip < sets.len(),
        cell_sum(sets, cells, hashes, n, -1, j) <= u32::MAX,
    ensures
        total_counts(sets, cells, hashes, n).len() == cells,
        total_counts(sets, cells, hashes, n)[j] == cell_sum(sets, cells, hashes, n, -1, j),
        cell_sum(sets, cells, hashes, n, skip, j) >= 0,
        cell_sum(sets, cells, hashes, n, -1, j) == cell_sum(sets, cells, hashes, n, skip, j) + if skip
            < n {
            counts_of(replica::digests_of(sets[skip]), cells, hashes)[j] as int
        } else {
            0
        },
    decreases n,
{
    if n > 0 {
        lemma_counts_len(
            Seq::new(cells, |j: int| 0u32),
            hashes,
            replica::digests_of(sets[n - 1]),
        );
        lemma_total_is_sum(sets, cells, hashes, (n - 1) as nat, skip, j);
    }
}

/// The total of all filters less one's own is the total of the others: as long as no counter
/// is capped, each holds what the filters of the other sets count there.
pub proof fn lemma_others_counted(
    sets: Seq<Set<Element>>,
    cells: nat,
    hashes: nat,
    i: int,
    j: int,
)
    requires
        0 <= i < sets.len(),
        0 <= j < cells,
        cell_sum(sets, cells, hashes, sets.len(), -1, j) <= u32::MAX,
    ensures
        other_counts(sets, cells, hashes, i)[j] == cell_sum(
            sets,
            cells,
            hashes,
            sets.len(),
            i,
            j,
        ),
{
    lemma_total_is_sum(sets, cells, hashes, sets.len(), i, j);
    lemma_counts_len(Seq::new(cells, |j: int| 0u32), hashes, replica::digests_of(sets[i]));
}

} // verus!
