//! What a run cost, for each replica and in all.

use crate::simulator::counter;
use crate::simulator::counter::{add_u128, add_usize};
use crate::simulator::replica::Replica;
use vstd::prelude::*;

verus! {

/// The counters of one replica. Times are in nanoseconds.
#[derive(Clone, Copy, Debug, PartialEq, Eq, Structural)]
pub struct NodeMetrics {
    pub replica_id: usize,
    pub state_bytes_sent: usize,
    pub metadata_bytes_sent: usize,
    pub encode_time: u128,
    pub decode_time: u128,
    pub elements_added: usize,
}

impl NodeMetrics {
    /// The counters of a replica.
    pub open spec fn of(r: Replica) -> NodeMetrics {
        NodeMetrics {
            replica_id: r.id,
            state_bytes_sent: r.stats.state_bytes_sent,
            metadata_bytes_sent: r.stats.metadata_bytes_sent,
            encode_time: r.stats.encode_time,
            decode_time: r.stats.decode_time,
            elements_added: r.stats.elements_added,
        }
    }
}

impl Default for NodeMetrics {
    fn default() -> (m: Self)
        ensures
            m == (NodeMetrics {
                replica_id: 0,
                state_bytes_sent: 0,
                metadata_bytes_sent: 0,
                encode_time: 0,
                decode_time: 0,
                elements_added: 0,
            }),
    {
        NodeMetrics {
            replica_id: 0,
            state_bytes_sent: 0,
            metadata_bytes_sent: 0,
            encode_time: 0,
            decode_time: 0,
            elements_added: 0,
        }
    }
}

/// The counters of a list of replicas.
pub open spec fn nodes_of(replicas: Seq<Replica>) -> Seq<NodeMetrics> {
    Seq::new(replicas.len(), |i: int| NodeMetrics::of(replicas[i]))
}

/// The sum of the state bytes that the replicas have sent.
pub open spec fn state_sum(nodes: Seq<NodeMetrics>) -> int
    decreases nodes.len(),
{
    if nodes.len() == 0 {
        0
    } else {
        state_sum(nodes.drop_last()) + nodes.last().state_bytes_sent
    }
}

/// The sum of the metadata bytes that the replicas have sent.
pub open spec fn metadata_sum(nodes: Seq<NodeMetrics>) -> int
    decreases nodes.len(),
{
    if nodes.len() == 0 {
        0
    } else {
        metadata_sum(nodes.drop_last()) + nodes.last().metadata_bytes_sent
    }
}

/// The sum of the encoding times.
pub open spec fn encode_sum(nodes: Seq<NodeMetrics>) -> nat
    decreases nodes.len(),
{
    if nodes.len() == 0 {
        0
    } else {
        encode_sum(nodes.drop_last()) + nodes.last().encode_time as nat
    }
}

/// The sum of the decoding times.
pub open spec fn decode_sum(nodes: Seq<NodeMetrics>) -> nat
    decreases nodes.len(),
{
    if nodes.len() == 0 {
        0
    } else {
        decode_sum(nodes.drop_last()) + nodes.last().decode_time as nat
    }
}

/// The sum of the elements added.
pub open spec fn added_sum(nodes: Seq<NodeMetrics>) -> int
    decreases nodes.len(),
{
    if nodes.len() == 0 {
        0
    } else {
        added_sum(nodes.drop_last()) + nodes.last().elements_added
    }
}

/// No replica comes before one with a smaller id.
pub open spec fn by_id(nodes: Seq<NodeMetrics>) -> bool {
    forall|i: int, j: int|
        0 <= i < j < nodes.len() ==> (#[trigger] nodes[i]).replica_id <= (
        #[trigger] nodes[j]).replica_id
}

/// What a run cost. Times are in nanoseconds.
#[derive(Debug)]
pub struct MetricsSnapshot {
    pub rounds: usize,
    pub total_state_bytes_sent: usize,
    pub total_metadata_bytes_sent: usize,
    pub total_encode_time: u128,
    pub total_decode_time: u128,
    pub total_elements_added: usize,
    pub per_node: Vec<NodeMetrics>,
}

impl MetricsSnapshot {
    /// State and metadata bytes together.
    pub fn total_bytes_sent(&self) -> (n: usize)
        ensures
            n == counter::wrap_usize(
                self.total_state_bytes_sent + self.total_metadata_bytes_sent,
            ),
            self.total_state_bytes_sent + self.total_metadata_bytes_sent <= usize::MAX ==> n
                == self.total_state_bytes_sent + self.total_metadata_bytes_sent,
    {
        add_usize(self.total_state_bytes_sent, self.total_metadata_bytes_sent)
    }

    /// Whether the snapshot sums up the given counters: the nodes in order of their ids, and
    /// every total the sum of what the nodes have.
    pub open spec fn sums_up(self, nodes: Seq<NodeMetrics>, rounds: usize) -> bool {
        &&& self.rounds == rounds
        &&& self.per_node@.to_multiset() == nodes.to_multiset()
        &&& by_id(self.per_node@)
        &&& self.total_state_bytes_sent == counter::wrap_usize(state_sum(nodes))
        &&& self.total_metadata_bytes_sent == counter::wrap_usize(metadata_sum(nodes))
        &&& self.total_encode_time == counter::clamp_u128(encode_sum(nodes) as int)
        &&& self.total_decode_time == counter::clamp_u128(decode_sum(nodes) as int)
        &&& self.total_elements_added == counter::wrap_usize(added_sum(nodes))
    }

    /// Sums up the counters of the replicas, which are the only place where they accumulate.
    pub fn from_replicas(replicas: &Vec<Replica>, rounds: usize) -> (m: Self)
        ensures
            m.sums_up(nodes_of(replicas@), rounds),
            m.per_node@.len() == replicas@.len(),
            forall|i: int|
                0 <= i < replicas@.len() ==> exists|k: int|
                    0 <= k < m.per_node@.len() && {
                        let n = #[trigger] m.per_node@[k];
                        let r = #[trigger] replicas@[i];
                        &&& n.replica_id == r.id
                        &&& n.state_bytes_sent == r.stats.state_bytes_sent
                        &&& n.metadata_bytes_sent == r.stats.metadata_bytes_sent
                        &&& n.encode_time == r.stats.encode_time
                        &&& n.decode_time == r.stats.decode_time
                        &&& n.elements_added == r.stats.elements_added
                    },
    {
        let ghost nodes = nodes_of(replicas@);
        let mut per_node: Vec<NodeMetrics> = Vec::new();
        let mut state: usize = 0;
        let mut metadata: usize = 0;
        let mut encode: u128 = 0;
        let mut decode: u128 = 0;
        let mut added: usize = 0;
        let mut i: usize = 0;
        assert(nodes.take(0) =~= Seq::<NodeMetrics>::empty());
        while i < replicas.len()
            invariant
                i <= replicas@.len(),
                nodes == nodes_of(replicas@),
                per_node@.len() == i,
                per_node@.to_multiset() == nodes.take(i as int).to_multiset(),
                by_id(per_node@),
                state == counter::wrap_usize(state_sum(nodes.take(i as int))),
                metadata == counter::wrap_usize(metadata_sum(nodes.take(i as int))),
                encode == counter::clamp_u128(encode_sum(nodes.take(i as int)) as int),
                decode == counter::clamp_u128(decode_sum(nodes.take(i as int)) as int),
                added == counter::wrap_usize(added_sum(nodes.take(i as int))),
            decreases replicas@.len() - i,
        {
            let r = &replicas[i];
            let m = NodeMetrics {
                replica_id: r.id,
                state_bytes_sent: r.stats.state_bytes_sent,
                metadata_bytes_sent: r.stats.metadata_bytes_sent,
                encode_time: r.stats.encode_time,
                decode_time: r.stats.decode_time,
                elements_added: r.stats.elements_added,
            };
            proof {
                let next = nodes.take(i + 1);
                let prev = nodes.take(i as int);
                assert(next =~= prev.push(m));
                assert(next.drop_last() =~= prev);
                counter::lemma_wrap_usize_add(state_sum(prev), m.state_bytes_sent as int);
                counter::lemma_wrap_usize_add(metadata_sum(prev), m.metadata_bytes_sent as int);
                counter::lemma_wrap_usize_add(added_sum(prev), m.elements_added as int);
                counter::lemma_clamp_u128_add(encode_sum(prev) as int, m.encode_time as int);
                counter::lemma_clamp_u128_add(decode_sum(prev) as int, m.decode_time as int);
                prev.to_multiset_ensures();
            }
            state = add_usize(state, m.state_bytes_sent);
            metadata = add_usize(metadata, m.metadata_bytes_sent);
            encode = add_u128(encode, m.encode_time);
            decode = add_u128(decode, m.decode_time);
            added = add_usize(added, m.elements_added);
            insert_by_id(&mut per_node, m);
            i = i + 1;
        }
        assert(nodes.take(i as int) =~= nodes);
        proof {
            nodes.to_multiset_ensures();
            per_node@.to_multiset_ensures();
            assert forall|j: int| 0 <= j < replicas@.len() implies exists|k: int|
                0 <= k < per_node@.len() && {
                    let n = #[trigger] per_node@[k];
                    let r = #[trigger] replicas@[j];
                    &&& n.replica_id == r.id
                    &&& n.state_bytes_sent == r.stats.state_bytes_sent
                    &&& n.metadata_bytes_sent == r.stats.metadata_bytes_sent
                    &&& n.encode_time == r.stats.encode_time
                    &&& n.decode_time == r.stats.decode_time
                    &&& n.elements_added == r.stats.elements_added
                } by {
                let n = nodes[j];
                assert(nodes.contains(n));
                assert(nodes.to_multiset().count(n) > 0);
                assert(per_node@.contains(n));
                let k = choose|k: int| 0 <= k < per_node@.len() && per_node@[k] == n;
                assert(per_node@[k].replica_id == replicas@[j].id);
            }
        }
        MetricsSnapshot {
            rounds,
            total_state_bytes_sent: state,
            total_metadata_bytes_sent: metadata,
            total_encode_time: encode,
            total_decode_time: decode,
            total_elements_added: added,
            per_node,
        }
    }
}

/// Adds the counters of a replica, behind those of smaller and equal ids.
fn insert_by_id(nodes: &mut Vec<NodeMetrics>, m: NodeMetrics)
    requires
        by_id(old(nodes)@),
    ensures
        by_id(final(nodes)@),
        final(nodes)@.to_multiset() == old(nodes)@.to_multiset().insert(m),
        final(nodes)@.len() == old(nodes)@.len() + 1,
{
    let ghost before = nodes@;
    let mut at: usize = nodes.len();
    while at > 0 && nodes[at - 1].replica_id > m.replica_id
        invariant
            at <= nodes@.len(),
            nodes@ == before,
            by_id(before),
            forall|j: int| at <= j < before.len() ==> (#[trigger] before[j]).replica_id
                > m.replica_id,
        decreases at,
    {
        at = at - 1;
    }
    nodes.insert(at, m);
    proof {
        let after = nodes@;
        assert forall|i: int, j: int| 0 <= i < j < after.len() implies (
        #[trigger] after[i]).replica_id <= (#[trigger] after[j]).replica_id by {
            let i0 = if i < at {
                i
            } else {
                i - 1
            };
            let j0 = if j < at {
                j
            } else {
                j - 1
            };
            if i != at && j != at {
                assert(before[i0].replica_id <= before[j0].replica_id);
            } else if j == at {
                if at > 0 && i < at - 1 {
                    assert(before[i].replica_id <= before[at - 1].replica_id);
                }
            } else {
                assert(before[j0].replica_id > m.replica_id);
            }
        }
        before.to_multiset_ensures();
        after.to_multiset_ensures();
        assert(after.remove(at as int) =~= before);
        assert(after.to_multiset().remove(m) =~= before.to_multiset());
        assert(after.to_multiset().count(m) > 0) by {
            assert(after[at as int] == m);
            assert(after.contains(m));
        }
        assert(after.to_multiset() =~= before.to_multiset().insert(m));
    }
}

/// Every total counts each replica once: one more replica adds exactly its own counters, and
/// without replicas there is nothing to count.
pub proof fn lemma_sums_count_each(nodes: Seq<NodeMetrics>, n: NodeMetrics)
    ensures
        state_sum(Seq::empty()) == 0,
        metadata_sum(Seq::empty()) == 0,
        encode_sum(Seq::empty()) == 0,
        decode_sum(Seq::empty()) == 0,
        added_sum(Seq::empty()) == 0,
        state_sum(nodes.push(n)) == state_sum(nodes) + n.state_bytes_sent,
        metadata_sum(nodes.push(n)) == metadata_sum(nodes) + n.metadata_bytes_sent,
        encode_sum(nodes.push(n)) == encode_sum(nodes) + n.encode_time,
        decode_sum(nodes.push(n)) == decode_sum(nodes) + n.decode_time,
        added_sum(nodes.push(n)) == added_sum(nodes) + n.elements_added,
{
    assert(nodes.push(n).drop_last() =~= nodes);
}

/// A snapshot of one replica more has totals that are larger by that replica's counters, unless
/// they overflow, each total by its own counter; and it has as many nodes as replicas.
pub proof fn lemma_totals_grow(
    before: MetricsSnapshot,
    after: MetricsSnapshot,
    nodes: Seq<NodeMetrics>,
    n: NodeMetrics,
    rounds: usize,
)
    requires
        before.sums_up(nodes, rounds),
        after.sums_up(nodes.push(n), rounds),
    ensures
        after.total_state_bytes_sent == counter::wrap_usize(
            before.total_state_bytes_sent + n.state_bytes_sent,
        ),
        after.total_metadata_bytes_sent == counter::wrap_usize(
            before.total_metadata_bytes_sent + n.metadata_bytes_sent,
        ),
        after.total_encode_time == counter::clamp_u128(before.total_encode_time + n.encode_time),
        after.total_decode_time == counter::clamp_u128(before.total_decode_time + n.decode_time),
        after.total_elements_added == counter::wrap_usize(
            before.total_elements_added + n.elements_added,
        ),
        nodes.len() == 0 ==> {
            &&& before.total_state_bytes_sent == 0
            &&& before.total_metadata_bytes_sent == 0
            &&& before.total_encode_time == 0
            &&& before.total_decode_time == 0
            &&& before.total_elements_added == 0
        },
        before.per_node@.len() == nodes.len(),
        after.per_node@.len() == nodes.len() + 1,
        after.rounds == rounds,
{
    lemma_sums_count_each(nodes, n);
    counter::lemma_wrap_usize_add(state_sum(nodes), n.state_bytes_sent as int);
    counter::lemma_wrap_usize_add(metadata_sum(nodes), n.metadata_bytes_sent as int);
    counter::lemma_wrap_usize_add(added_sum(nodes), n.elements_added as int);
    counter::lemma_clamp_u128_add(encode_sum(nodes) as int, n.encode_time as int);
    counter::lemma_clamp_u128_add(decode_sum(nodes) as int, n.decode_time as int);
    nodes.to_multiset_ensures();
    nodes.push(n).to_multiset_ensures();
    before.per_node@.to_multiset_ensures();
    after.per_node@.to_multiset_ensures();
}

} // verus!
