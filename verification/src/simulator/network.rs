//! The billing model, and the boundary between protocols and the engine.
//!
//! State bytes are billed when a message is sent. Metadata bytes are billed after the message
//! was received, because sketches and filters grow while they are decoded.

use crate::simulator::algorithms::bloom::{BloomFilter, Filter};
use crate::simulator::algorithms::hashing::HashKey;
use crate::simulator::algorithms::rateless_bloom;
use crate::simulator::algorithms::rateless_bloom::{RatelessBF, Slices, StoppingStrategy};
use crate::simulator::algorithms::riblt::{Coded, RatelessIBLT};
use crate::simulator::counter;
use crate::simulator::counter::{add_u64, add_usize, mul_usize};
use crate::simulator::replica::Element;
use crate::simulator::topology;
use crate::simulator::topology::{list_contains, Topology};
use vstd::prelude::*;

verus! {

/// Bytes of a message on the wire: payload, and everything else.
pub trait WireSized {
    /// Whether messages of this type cost what `state_cost` and `metadata_cost` say. Types
    /// that do not say so promise nothing.
    open spec fn obeys_costs() -> bool {
        false
    }

    open spec fn state_cost(&self) -> u64 {
        0
    }

    open spec fn metadata_cost(&self) -> u64 {
        0
    }

    fn state_bytes(&self) -> (n: u64)
        ensures
            Self::obeys_costs() ==> n == self.state_cost(),
    ;

    fn metadata_bytes(&self) -> (n: u64)
        ensures
            Self::obeys_costs() ==> n == self.metadata_cost(),
    ;
}

/// What has been billed, in all and to each node.
#[derive(Debug)]
pub struct NetworkStats {
    pub bytes_state: u64,
    pub bytes_metadata: u64,
    pub per_node_state: Vec<u64>,
    pub per_node_metadata: Vec<u64>,
}

/// The sum of a list of numbers.
pub open spec fn sum_of(s: Seq<u64>) -> int
    decreases s.len(),
{
    if s.len() == 0 {
        0
    } else {
        sum_of(s.drop_last()) + s.last()
    }
}

/// The sum of the amounts billed to one node.
pub open spec fn billed_to(bills: Seq<(usize, u64)>, node: int) -> int
    decreases bills.len(),
{
    if bills.len() == 0 {
        0
    } else {
        billed_to(bills.drop_last(), node) + if bills.last().0 == node {
            bills.last().1 as int
        } else {
            0
        }
    }
}

/// The sum of all amounts billed.
pub open spec fn billed(bills: Seq<(usize, u64)>) -> int
    decreases bills.len(),
{
    if bills.len() == 0 {
        0
    } else {
        billed(bills.drop_last()) + bills.last().1
    }
}

/// The amounts after the bills were added, each to its node.
pub open spec fn charged(amounts: Seq<u64>, bills: Seq<(usize, u64)>) -> Seq<u64> {
    Seq::new(amounts.len(), |i: int| counter::wrap_u64(amounts[i] + billed_to(bills, i)))
}

/// Who can talk to whom, what is under way, and what has been billed.
#[verifier::ext_equal]
pub struct Traffic<M> {
    pub links: Seq<Seq<usize>>,
    pub inboxes: Seq<Seq<(usize, M)>>,
    pub state: u64,
    pub metadata: u64,
    pub node_state: Seq<u64>,
    pub node_metadata: Seq<u64>,
}

impl<M> Traffic<M> {
    /// One inbox and one account for each node, every message under way comes from a
    /// neighbour, and the totals are the sums of the accounts.
    pub open spec fn wf(self) -> bool {
        &&& topology::is_graph(self.links)
        &&& self.inboxes.len() == self.links.len()
        &&& self.node_state.len() == self.links.len()
        &&& self.node_metadata.len() == self.links.len()
        &&& self.links.len() <= usize::MAX
        &&& forall|to: int, i: int|
            0 <= to < self.inboxes.len() && 0 <= i < self.inboxes[to].len()
                ==> from_neighbor(self.links, to, (#[trigger] self.inboxes[to][i]).0)
        &&& self.state == counter::wrap_u64(sum_of(self.node_state))
        &&& self.metadata == counter::wrap_u64(sum_of(self.node_metadata))
    }

    /// No messages and no bills.
    pub open spec fn quiet(links: Seq<Seq<usize>>) -> Traffic<M> {
        Traffic {
            links,
            inboxes: Seq::new(links.len(), |i: int| Seq::empty()),
            state: 0,
            metadata: 0,
            node_state: Seq::new(links.len(), |i: int| 0u64),
            node_metadata: Seq::new(links.len(), |i: int| 0u64),
        }
    }

    /// A message was sent: it is in the receiver's inbox, and its payload is billed to the
    /// sender.
    pub open spec fn sent(self, from: int, to: int, msg: M, cost: u64) -> Traffic<M> {
        Traffic {
            inboxes: self.inboxes.update(to, self.inboxes[to].push((from as usize, msg))),
            state: counter::wrap_u64(self.state + cost),
            node_state: self.node_state.update(
                from,
                counter::wrap_u64(self.node_state[from] + cost),
            ),
            ..self
        }
    }

    /// A node has taken all its messages.
    pub open spec fn drained(self, node: int) -> Traffic<M> {
        Traffic { inboxes: self.inboxes.update(node, Seq::empty()), ..self }
    }

    /// Metadata bytes were billed.
    pub open spec fn with_bills(self, bills: Seq<(usize, u64)>) -> Traffic<M> {
        Traffic {
            metadata: counter::wrap_u64(self.metadata + billed(bills)),
            node_metadata: charged(self.node_metadata, bills),
            ..self
        }
    }
}

/// `from` is a node that can talk to `to`.
pub open spec fn from_neighbor(links: Seq<Seq<usize>>, to: int, from: usize) -> bool {
    from < links.len() && links[from as int].contains(to as usize)
}

/// Each message of an inbox comes from a neighbour of its owner.
pub open spec fn inbox_wf<M>(links: Seq<Seq<usize>>, to: int, inbox: Seq<(usize, M)>) -> bool {
    forall|i: int| 0 <= i < inbox.len() ==> from_neighbor(links, to, (#[trigger] inbox[i]).0)
}

/// One bill for each message, to its sender.
pub open spec fn bills_for<M>(bills: Seq<(usize, u64)>, inbox: Seq<(usize, M)>) -> bool {
    bills.len() == inbox.len() && forall|i: int|
        0 <= i < bills.len() ==> (#[trigger] bills[i]).0 == inbox[i].0
}

/// The metadata bills for a list of messages.
pub open spec fn metadata_bills<Msg: WireSized>(inbox: Seq<(usize, Msg)>) -> Seq<(usize, u64)> {
    Seq::new(inbox.len(), |i: int| (inbox[i].0, inbox[i].1.metadata_cost()))
}

proof fn lemma_sum_update(s: Seq<u64>, i: int, x: u64)
    requires
        0 <= i < s.len(),
    ensures
        sum_of(s.update(i, x)) == sum_of(s) - s[i] + x,
    decreases s.len(),
{
    let t = s.update(i, x);
    if i == s.len() - 1 {
        assert(t.drop_last() =~= s.drop_last());
    } else {
        assert(t.drop_last() =~= s.drop_last().update(i, x));
        lemma_sum_update(s.drop_last(), i, x);
    }
}

proof fn lemma_sum_zero(n: nat)
    ensures
        sum_of(Seq::new(n, |i: int| 0u64)) == 0,
    decreases n,
{
    if n > 0 {
        assert(Seq::new(n, |i: int| 0u64).drop_last() =~= Seq::new((n - 1) as nat, |i: int| 0u64));
        lemma_sum_zero((n - 1) as nat);
    }
}

proof fn lemma_bills_add_up(amounts: Seq<u64>, bills: Seq<(usize, u64)>)
    requires
        forall|i: int| 0 <= i < bills.len() ==> (#[trigger] bills[i]).0 < amounts.len(),
    ensures
        counter::wrap_u64(sum_of(charged(amounts, bills))) == counter::wrap_u64(
            sum_of(amounts) + billed(bills),
        ),
    decreases bills.len(),
{
    if bills.len() == 0 {
        assert(charged(amounts, bills) =~= amounts);
    } else {
        let rest = bills.drop_last();
        let (node, x) = bills.last();
        assert(bills[bills.len() - 1].0 < amounts.len());
        assert forall|i: int| 0 <= i < rest.len() implies (#[trigger] rest[i]).0
            < amounts.len() by {
            assert(rest[i] == bills[i]);
        }
        lemma_bills_add_up(amounts, rest);
        let before = charged(amounts, rest);
        let y = counter::wrap_u64(before[node as int] + x);
        assert forall|i: int| 0 <= i < amounts.len() implies charged(amounts, bills)[i]
            == before.update(node as int, y)[i] by {
            if i == node {
                counter::lemma_wrap_u64_add(amounts[i] + billed_to(rest, i), x as int);
            }
        }
        assert(charged(amounts, bills) =~= before.update(node as int, y));
        lemma_sum_update(before, node as int, y);
        let s = sum_of(before) - before[node as int];
        counter::lemma_wrap_u64_add(s, before[node as int] + x);
        counter::lemma_wrap_u64_add(sum_of(before), x as int);
        counter::lemma_wrap_u64_add(sum_of(amounts) + billed(rest), x as int);
    }
}

/// Sending keeps the totals equal to the sums of the accounts.
proof fn lemma_sent_wf<M>(t: Traffic<M>, from: int, to: int, msg: M, cost: u64)
    requires
        t.wf(),
        0 <= from < t.links.len(),
        t.links[from].contains(to as usize),
        0 <= to <= usize::MAX,
    ensures
        to < t.links.len(),
        t.sent(from, to, msg, cost).wf(),
{
    let n = t.sent(from, to, msg, cost);
    lemma_sum_update(t.node_state, from, counter::wrap_u64(t.node_state[from] + cost));
    let s = sum_of(t.node_state) - t.node_state[from];
    counter::lemma_wrap_u64_add(s, t.node_state[from] + cost);
    counter::lemma_wrap_u64_add(sum_of(t.node_state), cost as int);
    assert(to < t.links.len());
    assert forall|k: int, i: int|
        0 <= k < n.inboxes.len() && 0 <= i < n.inboxes[k].len() implies from_neighbor(
        n.links,
        k,
        (#[trigger] n.inboxes[k][i]).0,
    ) by {
        if k == to && i == t.inboxes[k].len() {
        } else {
            assert(n.inboxes[k][i] == t.inboxes[k][i]);
        }
    }
}

/// A simulated point-to-point network: one inbox for each node, filled by its neighbours.
pub struct Network<Msg: WireSized> {
    inboxes: Vec<Vec<(usize, Msg)>>,
    neighbors: Vec<Vec<usize>>,
    bytes_state: u64,
    bytes_metadata: u64,
    per_node_state: Vec<u64>,
    per_node_metadata: Vec<u64>,
}

impl<Msg: WireSized> View for Network<Msg> {
    type V = Traffic<Msg>;

    closed spec fn view(&self) -> Traffic<Msg> {
        Traffic {
            links: topology::views(self.neighbors@),
            inboxes: Seq::new(self.inboxes@.len(), |i: int| self.inboxes@[i]@),
            state: self.bytes_state,
            metadata: self.bytes_metadata,
            node_state: self.per_node_state@,
            node_metadata: self.per_node_metadata@,
        }
    }
}

fn zeros(n: usize) -> (r: Vec<u64>)
    ensures
        r@ == Seq::new(n as nat, |i: int| 0u64),
{
    let mut r: Vec<u64> = Vec::new();
    let mut i: usize = 0;
    while i < n
        invariant
            i <= n,
            r@ == Seq::new(i as nat, |i: int| 0u64),
        decreases n - i,
    {
        r.push(0);
        i = i + 1;
    }
    r
}

fn copy_list(v: &Vec<usize>) -> (r: Vec<usize>)
    ensures
        r@ == v@,
{
    let r = v.clone();
    assert(r@ =~= v@);
    r
}

fn copy_counts(v: &Vec<u64>) -> (r: Vec<u64>)
    ensures
        r@ == v@,
{
    let r = v.clone();
    assert(r@ =~= v@);
    r
}

impl<Msg: WireSized> Network<Msg> {
    /// A quiet network that connects the neighbours of a topology.
    pub fn from_topology(topology: &Topology) -> (r: Self)
        ensures
            r@ == Traffic::<Msg>::quiet(topology.rows()),
            r@.wf(),
    {
        let n: usize = topology.node_count();
        proof {
            topology::lemma_topology_is_graph(topology.shape(), topology.size());
            lemma_sum_zero(n as nat);
        }
        let mut inboxes: Vec<Vec<(usize, Msg)>> = Vec::new();
        let mut neighbors: Vec<Vec<usize>> = Vec::new();
        let mut id: usize = 0;
        while id < n
            invariant
                id <= n == topology.rows().len(),
                inboxes@.len() == id,
                neighbors@.len() == id,
                forall|i: int|
                    0 <= i < id ==> (#[trigger] inboxes@[i])@ == Seq::<(usize, Msg)>::empty(),
                forall|i: int| 0 <= i < id ==> (#[trigger] neighbors@[i])@ == topology.rows()[i],
            decreases n - id,
        {
            neighbors.push(copy_list(topology.neighbors(id)));
            inboxes.push(Vec::new());
            id = id + 1;
        }
        let r = Network {
            inboxes,
            neighbors,
            bytes_state: 0,
            bytes_metadata: 0,
            per_node_state: zeros(n),
            per_node_metadata: zeros(n),
        };
        assert(r@.links =~= topology.rows());
        assert(r@ =~= Traffic::<Msg>::quiet(topology.rows()));
        r
    }

    /// Delivers a message to a neighbour and bills its payload to the sender, whatever the
    /// message says that this costs. Its metadata is billed after it was received.
    pub fn send(&mut self, from: usize, to: usize, msg: Msg)
        requires
            old(self)@.wf(),
            from < old(self)@.links.len(),
            old(self)@.links[from as int].contains(to),
        ensures
            exists|cost: u64|
                final(self)@ == #[trigger] old(self)@.sent(from as int, to as int, msg, cost),
            Msg::obeys_costs() ==> final(self)@ == old(self)@.sent(
                from as int,
                to as int,
                msg,
                msg.state_cost(),
            ),
            final(self)@.wf(),
    {
        let ghost before = self@;
        let s: u64 = msg.state_bytes();
        proof {
            lemma_sent_wf(self@, from as int, to as int, msg, s);
        }
        self.bytes_state = add_u64(self.bytes_state, s);
        let billed: u64 = add_u64(self.per_node_state[from], s);
        self.per_node_state.set(from, billed);
        self.inboxes[to].push((from, msg));
        assert(self@ =~= before.sent(from as int, to as int, msg, s)) by {
            assert(self@.inboxes =~= before.sent(from as int, to as int, msg, s).inboxes);
        }
    }

    /// Takes all messages of a node.
    pub fn drain_inbox(&mut self, node: usize) -> (r: Vec<(usize, Msg)>)
        requires
            old(self)@.wf(),
            node < old(self)@.links.len(),
        ensures
            r@ == old(self)@.inboxes[node as int],
            inbox_wf(old(self)@.links, node as int, r@),
            final(self)@ == old(self)@.drained(node as int),
            final(self)@.wf(),
    {
        let ghost before = self@;
        let mut taken: Vec<(usize, Msg)> = Vec::new();
        std::mem::swap(&mut taken, &mut self.inboxes[node]);
        assert(self@ =~= before.drained(node as int)) by {
            assert(self@.inboxes =~= before.drained(node as int).inboxes);
        }
        assert forall|i: int| 0 <= i < taken@.len() implies from_neighbor(
            before.links,
            node as int,
            (#[trigger] taken@[i]).0,
        ) by {
            assert(taken@[i] == before.inboxes[node as int][i]);
        }
        assert forall|k: int, i: int|
            0 <= k < self@.inboxes.len() && 0 <= i < self@.inboxes[k].len() implies from_neighbor(
            self@.links,
            k,
            (#[trigger] self@.inboxes[k][i]).0,
        ) by {
            assert(self@.inboxes[k][i] == before.inboxes[k][i]);
        }
        taken
    }

    /// Bills the metadata of every message to its sender, whatever the message says that this
    /// costs.
    pub fn bill_metadata_post_recv(&mut self, inbox: &Vec<(usize, Msg)>)
        requires
            old(self)@.wf(),
            forall|i: int|
                0 <= i < inbox@.len() ==> (#[trigger] inbox@[i]).0 < old(self)@.links.len(),
        ensures
            exists|bills: Seq<(usize, u64)>|
                bills_for(bills, inbox@) && final(self)@ == #[trigger] old(self)@.with_bills(bills),
            Msg::obeys_costs() ==> final(self)@ == old(self)@.with_bills(metadata_bills(inbox@)),
            final(self)@.wf(),
    {
        let ghost before = self@;
        let ghost mut bills: Seq<(usize, u64)> = Seq::empty();
        let mut i: usize = 0;
        assert(charged(before.node_metadata, bills) =~= before.node_metadata);
        while i < inbox.len()
            invariant
                i <= inbox@.len(),
                before.wf(),
                bills.len() == i,
                forall|j: int| 0 <= j < i ==> (#[trigger] bills[j]).0 == inbox@[j].0,
                Msg::obeys_costs() ==> forall|j: int|
                    0 <= j < i ==> (#[trigger] bills[j]).1 == inbox@[j].1.metadata_cost(),
                forall|j: int|
                    0 <= j < inbox@.len() ==> (#[trigger] inbox@[j]).0 < before.links.len(),
                self@ == before.with_bills(bills),
            decreases inbox@.len() - i,
        {
            let from: usize = inbox[i].0;
            let m: u64 = inbox[i].1.metadata_bytes();
            let ghost more = bills.push((from, m));
            proof {
                assert(inbox@[i as int].0 < before.links.len());
                assert(more.drop_last() =~= bills);
                counter::lemma_wrap_u64_add(before.metadata + billed(bills), m as int);
            }
            self.bytes_metadata = add_u64(self.bytes_metadata, m);
            let sum: u64 = add_u64(self.per_node_metadata[from], m);
            self.per_node_metadata.set(from, sum);
            proof {
                assert forall|k: int| 0 <= k < before.node_metadata.len() implies (
                #[trigger] self@.node_metadata[k]) == charged(before.node_metadata, more)[k] by {
                    counter::lemma_wrap_u64_add(
                        before.node_metadata[k] + billed_to(bills, k),
                        m as int,
                    );
                }
                assert(self@.node_metadata =~= charged(before.node_metadata, more));
                bills = more;
            }
            i = i + 1;
            assert(self@ =~= before.with_bills(bills));
        }
        proof {
            assert(bills_for(bills, inbox@));
            if Msg::obeys_costs() {
                assert(bills =~= metadata_bills(inbox@));
            }
            assert forall|j: int| 0 <= j < bills.len() implies (#[trigger] bills[j]).0
                < before.node_metadata.len() by {
                assert(inbox@[j].0 < before.links.len());
            }
            lemma_bills_add_up(before.node_metadata, bills);
            counter::lemma_wrap_u64_add(sum_of(before.node_metadata), billed(bills));
            assert forall|k: int, l: int|
                0 <= k < self@.inboxes.len() && 0 <= l < self@.inboxes[k].len() implies from_neighbor(
                self@.links,
                k,
                (#[trigger] self@.inboxes[k][l]).0,
            ) by {
                assert(self@.inboxes[k][l] == before.inboxes[k][l]);
            }
        }
    }

    /// What has been billed so far.
    pub fn stats(&self) -> (r: NetworkStats)
        ensures
            r.bytes_state == self@.state,
            r.bytes_metadata == self@.metadata,
            r.per_node_state@ == self@.node_state,
            r.per_node_metadata@ == self@.node_metadata,
    {
        NetworkStats {
            bytes_state: self.bytes_state,
            bytes_metadata: self.bytes_metadata,
            per_node_state: copy_counts(&self.per_node_state),
            per_node_metadata: copy_counts(&self.per_node_metadata),
        }
    }

    /// Forgets all messages and bills.
    pub fn reset(&mut self)
        requires
            old(self)@.wf(),
        ensures
            final(self)@ == Traffic::<Msg>::quiet(old(self)@.links),
            final(self)@.wf(),
    {
        let ghost links = self@.links;
        let n: usize = self.neighbors.len();
        let mut inboxes: Vec<Vec<(usize, Msg)>> = Vec::new();
        let mut i: usize = 0;
        while i < n
            invariant
                i <= n,
                inboxes@.len() == i,
                forall|j: int|
                    0 <= j < i ==> (#[trigger] inboxes@[j])@ == Seq::<(usize, Msg)>::empty(),
            decreases n - i,
        {
            inboxes.push(Vec::new());
            i = i + 1;
        }
        self.inboxes = inboxes;
        self.bytes_state = 0;
        self.bytes_metadata = 0;
        self.per_node_state = zeros(n);
        self.per_node_metadata = zeros(n);
        proof {
            lemma_sum_zero(n as nat);
            assert(self@.links =~= links);
            assert(self@ =~= Traffic::<Msg>::quiet(links));
        }
    }

    /// Whether a node can send to another.
    pub fn can_reach(&self, from: usize, to: usize) -> (r: bool)
        requires
            from < self@.links.len(),
        ensures
            r == self@.links[from as int].contains(to),
    {
        list_contains(&self.neighbors[from], to)
    }
}

/// A coded list on its way. Receivers decode it, and pay for every symbol they consume.
#[derive(Debug)]
pub struct RibltMsg {
    inner: RatelessIBLT,
}

impl View for RibltMsg {
    type V = Coded;

    closed spec fn view(&self) -> Coded {
        self.inner@
    }
}

impl RibltMsg {
    fn new(inner: RatelessIBLT) -> (r: Self)
        ensures
            r@ == inner@,
    {
        RibltMsg { inner }
    }

    /// Decodes against the receiver's own list; the number of consumed symbols.
    pub fn decode_against(&mut self, local: &mut RatelessIBLT) -> (n: usize)
        ensures
            final(self)@ == old(self)@.against(old(local)@.symbols),
            final(self)@.local_only.to_set() == old(self)@.symbols.to_set().difference(
                old(local)@.symbols.to_set(),
            ),
            final(self)@.remote_only.to_set() == old(local)@.symbols.to_set().difference(
                old(self)@.symbols.to_set(),
            ),
            final(self)@.local_only.no_duplicates(),
            final(self)@.remote_only.no_duplicates(),
            n == final(self)@.consumed,
            *final(local) == *old(local),
            final(self).times().0 >= old(self).times().0,
            final(self).times().1 >= old(self).times().1,
    {
        self.inner.find_all_differences(local)
    }

    pub fn consumed_symbols(&self) -> (n: usize)
        ensures
            n == self@.consumed,
    {
        self.inner.consumed_symbols()
    }

    /// Digests that the sender has alone.
    pub fn local_only(&self) -> (r: Vec<u64>)
        ensures
            r@ == self@.local_only,
    {
        self.inner.get_local_only_symbols()
    }

    /// Digests that the receiver has alone.
    pub fn remote_only(&self) -> (r: Vec<u64>)
        ensures
            r@ == self@.remote_only,
    {
        self.inner.get_remote_only_symbols()
    }

    /// Nanoseconds spent on coding and on decoding.
    pub closed spec fn times(self) -> (u128, u128) {
        self.inner.times()
    }

    pub fn t_enc(&self) -> (t: u128)
        ensures
            t == self.times().0,
    {
        self.inner.t_enc()
    }

    pub fn t_dec(&self) -> (t: u128)
        ensures
            t == self.times().1,
    {
        self.inner.t_dec()
    }
}

/// A Bloom filter on its way.
#[derive(Debug)]
pub struct BloomMsg {
    inner: BloomFilter<u64>,
}

impl View for BloomMsg {
    type V = Filter;

    closed spec fn view(&self) -> Filter {
        self.inner@
    }
}

impl BloomMsg {
    fn new(inner: BloomFilter<u64>) -> (r: Self)
        ensures
            r@ == inner@,
    {
        BloomMsg { inner }
    }

    pub fn contains(&mut self, digest: &u64) -> (r: bool)
        ensures
            r == old(self)@.has(digest.hash_writes()),
            final(self)@ == old(self)@,
            final(self).times().0 == old(self).times().0,
            final(self).times().1 >= old(self).times().1,
    {
        self.inner.timed_contains(digest)
    }

    pub fn byte_len(&self) -> (n: usize)
        ensures
            n == (self@.bits.len() + 7) / 8,
    {
        self.inner.byte_len()
    }

    /// Nanoseconds spent on insertions and on queries.
    pub closed spec fn times(self) -> (u128, u128) {
        (self.inner.encode_time(), self.inner.decode_time())
    }

    pub fn t_enc(&self) -> (t: u128)
        ensures
            t == self.times().0,
    {
        self.inner.t_enc()
    }

    pub fn t_dec(&self) -> (t: u128)
        ensures
            t == self.times().1,
    {
        self.inner.t_dec()
    }
}

/// A growing filter on its way. Receivers make it grow, and pay for every slice.
#[derive(Debug)]
pub struct RatelessBloomMsg {
    inner: RatelessBF<u64>,
}

impl View for RatelessBloomMsg {
    type V = Slices<u64>;

    closed spec fn view(&self) -> Slices<u64> {
        self.inner@
    }
}

impl RatelessBloomMsg {
    fn new(inner: RatelessBF<u64>) -> (r: Self)
        ensures
            r@ == inner@,
    {
        RatelessBloomMsg { inner }
    }

    pub fn bits_per_filter(&self) -> (n: usize)
        ensures
            n == self@.bits,
    {
        self.inner.bits_per_filter()
    }

    pub fn source_size(&self) -> (n: usize)
        ensures
            n == self@.data.len(),
    {
        self.inner.source_size()
    }

    pub fn extend_until<S: StoppingStrategy<u64>>(&mut self, strategy: S) -> (r: (
        Vec<u64>,
        Vec<u64>,
    ))
        ensures
            S::obeys_verdict() ==> {
                &&& (final(self)@, (r.0@, r.1@)) == rateless_bloom::extended_until::<u64, S>(
                    old(self)@,
                    strategy.state(),
                )
                &&& final(self).times().0 >= old(self).times().0
                &&& final(self).times().1 >= old(self).times().1
            },
    {
        self.inner.extend_until(strategy)
    }

    pub fn size_of(&self) -> (n: usize)
        ensures
            n == self@.wire(),
    {
        self.inner.size_of()
    }

    /// Nanoseconds spent on adding slices and on deciding.
    pub closed spec fn times(self) -> (u128, u128) {
        self.inner.times()
    }

    pub fn t_enc(&self) -> (t: u128)
        ensures
            t == self.times().0,
    {
        self.inner.t_enc()
    }

    pub fn t_dec(&self) -> (t: u128)
        ensures
            t == self.times().1,
    {
        self.inner.t_dec()
    }
}

/// A message, without the times it took.
pub enum Packet {
    /// Elements, and the marker that may travel along with them.
    Elements(Seq<Element>, Option<Element>),
    Riblt(Coded),
    Bloom(Filter),
    RatelessBloom(Slices<u64>),
    BloomRiblt { filter: Filter, riblt: Coded },
    RatelessBloomRiblt { slices: Slices<u64>, riblt: Coded },
}

/// The wire sizes of a list of elements, added up.
pub open spec fn payload(elements: Seq<Element>) -> u64
    decreases elements.len(),
{
    if elements.len() == 0 {
        0
    } else {
        counter::wrap_u64(payload(elements.drop_last()) + elements.last().wire())
    }
}

/// Bytes of a machine word.
pub open spec fn word_bytes() -> int {
    usize::BITS as int / 8
}

/// Eight bytes for each consumed symbol.
pub open spec fn riblt_wire(c: Coded) -> u64 {
    counter::wrap_usize((c.consumed * 8) as int) as u64
}

/// The filter's bits, a length header and a seed.
pub open spec fn bloom_wire(f: Filter) -> u64 {
    counter::wrap_usize(
        counter::wrap_usize((f.bits.len() + 7) / 8 + word_bytes()) + 8,
    ) as u64
}

impl Packet {
    /// The marker that travels along, if there is one.
    pub open spec fn marker(self) -> Option<Element> {
        match self {
            Packet::Elements(_, marker) => marker,
            _ => None,
        }
    }

    /// Only elements carry payload. A marker is billed like any element.
    pub open spec fn state_cost(self) -> u64 {
        match self {
            Packet::Elements(els, Some(marker)) => counter::wrap_u64(
                payload(els) + marker.wire(),
            ),
            Packet::Elements(els, None) => payload(els),
            _ => 0,
        }
    }

    /// Everything but elements is metadata.
    pub open spec fn metadata_cost(self) -> u64 {
        match self {
            Packet::Elements(_, _) => 0,
            Packet::Riblt(r) => riblt_wire(r),
            Packet::Bloom(b) => bloom_wire(b),
            Packet::RatelessBloom(r) => r.wire() as u64,
            Packet::BloomRiblt { filter, riblt } => counter::wrap_u64(
                bloom_wire(filter) + riblt_wire(riblt),
            ),
            Packet::RatelessBloomRiblt { slices, riblt } => counter::wrap_u64(
                slices.wire() as u64 + riblt_wire(riblt),
            ),
        }
    }
}

/// The times that the filter and the code of a message took, in nanoseconds; zero where it has
/// none.
#[verifier::ext_equal]
pub struct Stamps {
    pub filter_encode: u128,
    pub filter_decode: u128,
    pub code_encode: u128,
    pub code_decode: u128,
}

impl Stamps {
    /// The stamps of a filter and a code that took the given times.
    pub open spec fn of(filter: (u128, u128), code: (u128, u128)) -> Stamps {
        Stamps {
            filter_encode: filter.0,
            filter_decode: filter.1,
            code_encode: code.0,
            code_decode: code.1,
        }
    }
}

/// The stamps of the messages of an inbox.
pub open spec fn stamps_of(inbox: Seq<(usize, ProtocolMsg)>) -> Seq<Stamps> {
    Seq::new(inbox.len(), |i: int| inbox[i].1.stamps())
}

/// A sealed message. Only an outbox makes one, and what it holds can be used but not replaced.
#[derive(Debug)]
pub struct ProtocolMsg {
    inner: ProtocolMsgInner,
}

#[derive(Debug)]
enum ProtocolMsgInner {
    Elements(Vec<Element>, Option<Element>),
    Riblt(RibltMsg),
    Bloom(BloomMsg),
    RatelessBloom(RatelessBloomMsg),
    BloomRiblt { filter: BloomMsg, riblt: RibltMsg },
    RatelessBloomRiblt { slices: RatelessBloomMsg, riblt: RibltMsg },
}

impl View for ProtocolMsg {
    type V = Packet;

    closed spec fn view(&self) -> Packet {
        match self.inner {
            ProtocolMsgInner::Elements(v, marker) => Packet::Elements(v@, marker),
            ProtocolMsgInner::Riblt(r) => Packet::Riblt(r@),
            ProtocolMsgInner::Bloom(b) => Packet::Bloom(b@),
            ProtocolMsgInner::RatelessBloom(r) => Packet::RatelessBloom(r@),
            ProtocolMsgInner::BloomRiblt { filter, riblt } => Packet::BloomRiblt {
                filter: filter@,
                riblt: riblt@,
            },
            ProtocolMsgInner::RatelessBloomRiblt { slices, riblt } => Packet::RatelessBloomRiblt {
                slices: slices@,
                riblt: riblt@,
            },
        }
    }
}

impl ProtocolMsg {
    /// The times that its filter and its code took.
    pub closed spec fn stamps(self) -> Stamps {
        let none = (0u128, 0u128);
        match self.inner {
            ProtocolMsgInner::Elements(_, _) => Stamps::of(none, none),
            ProtocolMsgInner::Riblt(r) => Stamps::of(none, r.times()),
            ProtocolMsgInner::Bloom(b) => Stamps::of(b.times(), none),
            ProtocolMsgInner::RatelessBloom(r) => Stamps::of(r.times(), none),
            ProtocolMsgInner::BloomRiblt { filter, riblt } => Stamps::of(
                filter.times(),
                riblt.times(),
            ),
            ProtocolMsgInner::RatelessBloomRiblt { slices, riblt } => Stamps::of(
                slices.times(),
                riblt.times(),
            ),
        }
    }

    /// The marker that travels along, if there is one.
    pub fn marker(&self) -> (r: Option<Element>)
        ensures
            r == self@.marker(),
    {
        match &self.inner {
            ProtocolMsgInner::Elements(_, marker) => *marker,
            _ => None,
        }
    }

    /// Takes the elements out, leaving none behind but the marker; `None` for other messages.
    pub fn take_elements(&mut self) -> (r: Option<Vec<Element>>)
        ensures
            match r {
                Some(v) => old(self)@ == Packet::Elements(v@, old(self)@.marker())
                    && final(self)@ == Packet::Elements(Seq::empty(), old(self)@.marker()),
                None => !(old(self)@ is Elements) && *final(self) == *old(self),
            },
    {
        match &mut self.inner {
            ProtocolMsgInner::Elements(v, _) => {
                let mut taken: Vec<Element> = Vec::new();
                std::mem::swap(&mut taken, v);
                Some(taken)
            },
            _ => None,
        }
    }

    pub fn as_riblt(&mut self) -> (r: Option<&mut RibltMsg>)
        ensures
            match r {
                Some(p) => old(self)@ == Packet::Riblt(p@) && final(self)@ == Packet::Riblt(
                    (*final(p))@,
                ) && final(self).stamps() == Stamps::of((0, 0), (*final(p)).times()),
                None => !(old(self)@ is Riblt) && *final(self) == *old(self),
            },
    {
        match &mut self.inner {
            ProtocolMsgInner::Riblt(r) => Some(r),
            _ => None,
        }
    }

    pub fn as_bloom(&mut self) -> (r: Option<&mut BloomMsg>)
        ensures
            match r {
                Some(p) => old(self)@ == Packet::Bloom(p@) && final(self)@ == Packet::Bloom(
                    (*final(p))@,
                ) && final(self).stamps() == Stamps::of((*final(p)).times(), (0, 0)),
                None => !(old(self)@ is Bloom) && *final(self) == *old(self),
            },
    {
        match &mut self.inner {
            ProtocolMsgInner::Bloom(b) => Some(b),
            _ => None,
        }
    }

    pub fn as_rateless_bloom(&mut self) -> (r: Option<&mut RatelessBloomMsg>)
        ensures
            match r {
                Some(p) => old(self)@ == Packet::RatelessBloom(p@) && final(self)@
                    == Packet::RatelessBloom((*final(p))@) && final(self).stamps() == Stamps::of(
                    (*final(p)).times(),
                    (0, 0),
                ),
                None => !(old(self)@ is RatelessBloom) && *final(self) == *old(self),
            },
    {
        match &mut self.inner {
            ProtocolMsgInner::RatelessBloom(r) => Some(r),
            _ => None,
        }
    }

    pub fn as_bloom_riblt(&mut self) -> (r: Option<(&mut BloomMsg, &mut RibltMsg)>)
        ensures
            match r {
                Some((p, q)) => old(self)@ == (Packet::BloomRiblt { filter: p@, riblt: q@ })
                    && final(self)@ == (Packet::BloomRiblt {
                    filter: (*final(p))@,
                    riblt: (*final(q))@,
                }) && final(self).stamps() == Stamps::of((*final(p)).times(), (*final(q)).times()),
                None => !(old(self)@ is BloomRiblt) && *final(self) == *old(self),
            },
    {
        match &mut self.inner {
            ProtocolMsgInner::BloomRiblt { filter, riblt } => Some((filter, riblt)),
            _ => None,
        }
    }

    pub fn as_rateless_bloom_riblt(&mut self) -> (r: Option<
        (&mut RatelessBloomMsg, &mut RibltMsg),
    >)
        ensures
            match r {
                Some((p, q)) => old(self)@ == (Packet::RatelessBloomRiblt { slices: p@, riblt: q@ })
                    && final(self)@ == (Packet::RatelessBloomRiblt {
                    slices: (*final(p))@,
                    riblt: (*final(q))@,
                }) && final(self).stamps() == Stamps::of((*final(p)).times(), (*final(q)).times()),
                None => !(old(self)@ is RatelessBloomRiblt) && *final(self) == *old(self),
            },
    {
        match &mut self.inner {
            ProtocolMsgInner::RatelessBloomRiblt { slices, riblt } => Some((slices, riblt)),
            _ => None,
        }
    }
}

/// The wire sizes of a list of elements, added up.
pub fn payload_bytes(elements: &Vec<Element>) -> (n: u64)
    ensures
        n == payload(elements@),
{
    let mut n: u64 = 0;
    let mut i: usize = 0;
    assert(elements@.take(0) =~= Seq::<Element>::empty());
    while i < elements.len()
        invariant
            i <= elements@.len(),
            n == payload(elements@.take(i as int)),
        decreases elements@.len() - i,
    {
        n = add_u64(n, elements[i].wire_size() as u64);
        assert(elements@.take(i + 1).drop_last() =~= elements@.take(i as int));
        i = i + 1;
    }
    assert(elements@.take(i as int) =~= elements@);
    n
}

fn riblt_wire_bytes(r: &RibltMsg) -> (n: u64)
    ensures
        n == riblt_wire(r@),
{
    mul_usize(r.consumed_symbols(), 8) as u64
}

fn bloom_wire_bytes(b: &BloomMsg) -> (n: u64)
    ensures
        n == bloom_wire(b@),
{
    add_usize(add_usize(b.byte_len(), (usize::BITS / 8) as usize), 8) as u64
}

fn rateless_bloom_wire_bytes(r: &RatelessBloomMsg) -> (n: u64)
    ensures
        n == r@.wire(),
{
    r.size_of() as u64
}

impl WireSized for ProtocolMsg {
    open spec fn obeys_costs() -> bool {
        true
    }

    open spec fn state_cost(&self) -> u64 {
        self@.state_cost()
    }

    open spec fn metadata_cost(&self) -> u64 {
        self@.metadata_cost()
    }

    fn state_bytes(&self) -> u64 {
        match &self.inner {
            ProtocolMsgInner::Elements(els, marker) => match marker {
                Some(m) => add_u64(payload_bytes(els), m.wire_size() as u64),
                None => payload_bytes(els),
            },
            _ => 0,
        }
    }

    fn metadata_bytes(&self) -> u64 {
        match &self.inner {
            ProtocolMsgInner::Elements(_, _) => 0,
            ProtocolMsgInner::Riblt(r) => riblt_wire_bytes(r),
            ProtocolMsgInner::Bloom(b) => bloom_wire_bytes(b),
            ProtocolMsgInner::RatelessBloom(r) => rateless_bloom_wire_bytes(r),
            ProtocolMsgInner::BloomRiblt { filter, riblt } => add_u64(
                bloom_wire_bytes(filter),
                riblt_wire_bytes(riblt),
            ),
            ProtocolMsgInner::RatelessBloomRiblt { slices, riblt } => add_u64(
                rateless_bloom_wire_bytes(slices),
                riblt_wire_bytes(riblt),
            ),
        }
    }
}

/// The messages of an inbox, without the times they took.
pub open spec fn packets(inbox: Seq<(usize, ProtocolMsg)>) -> Seq<(usize, Packet)> {
    Seq::new(inbox.len(), |i: int| (inbox[i].0, inbox[i].1@))
}

/// The traffic of a network, without the times that its messages took.
pub open spec fn flow(t: Traffic<ProtocolMsg>) -> Traffic<Packet> {
    Traffic {
        links: t.links,
        inboxes: Seq::new(t.inboxes.len(), |i: int| packets(t.inboxes[i])),
        state: t.state,
        metadata: t.metadata,
        node_state: t.node_state,
        node_metadata: t.node_metadata,
    }
}

/// The only way for a protocol to send. It is bound to a sender when it is made.
pub struct Outbox {
    network: Network<ProtocolMsg>,
    from: usize,
}

impl Outbox {
    /// The network that the outbox sends to.
    pub closed spec fn traffic(self) -> Traffic<ProtocolMsg> {
        self.network@
    }

    /// The sender of all messages.
    pub closed spec fn sender(self) -> usize {
        self.from
    }

    /// The sender is a node of a sound network.
    pub open spec fn wf(self) -> bool {
        self.traffic().wf() && self.sender() < self.traffic().links.len()
    }

    /// Whether the sender can reach a node.
    pub open spec fn reaches(self, to: usize) -> bool {
        self.traffic().links[self.sender() as int].contains(to)
    }

    /// The outbox after a message was sent.
    pub open spec fn after(self, to: usize, p: Packet, next: Outbox) -> bool {
        &&& next.wf()
        &&& next.sender() == self.sender()
        &&& flow(next.traffic()) == flow(self.traffic()).sent(
            self.sender() as int,
            to as int,
            p,
            p.state_cost(),
        )
    }

    /// Binds an outbox to its sender.
    pub fn for_replica(network: Network<ProtocolMsg>, from: usize) -> (r: Self)
        ensures
            r.traffic() == network@,
            r.sender() == from,
    {
        Outbox { network, from }
    }

    /// Gives the network back.
    pub fn into_network(self) -> (r: Network<ProtocolMsg>)
        ensures
            r@ == self.traffic(),
    {
        self.network
    }

    fn send(&mut self, to: usize, inner: ProtocolMsgInner)
        requires
            old(self).wf(),
            old(self).reaches(to),
        ensures
            old(self).after(to, (ProtocolMsg { inner })@, *final(self)),
    {
        let msg = ProtocolMsg { inner };
        let ghost before = self.traffic();
        let ghost from = self.from as int;
        self.network.send(self.from, to, msg);
        proof {
            let a = flow(self.traffic());
            let b = flow(before).sent(from, to as int, msg@, msg@.state_cost());
            assert forall|i: int| 0 <= i < a.inboxes.len() implies a.inboxes[i] == b.inboxes[i] by {
                assert(a.inboxes[i] =~= b.inboxes[i]);
            }
            assert(a.inboxes =~= b.inboxes);
            assert(a =~= b);
        }
    }

    pub fn send_elements(&mut self, to: usize, elements: Vec<Element>)
        requires
            old(self).wf(),
            old(self).reaches(to),
        ensures
            old(self).after(to, Packet::Elements(elements@, None), *final(self)),
    {
        self.send(to, ProtocolMsgInner::Elements(elements, None));
    }

    /// Sends elements, and a marker along with them.
    pub fn send_marked(&mut self, to: usize, elements: Vec<Element>, marker: Element)
        requires
            old(self).wf(),
            old(self).reaches(to),
        ensures
            old(self).after(to, Packet::Elements(elements@, Some(marker)), *final(self)),
    {
        self.send(to, ProtocolMsgInner::Elements(elements, Some(marker)));
    }

    pub fn send_riblt(&mut self, to: usize, riblt: RatelessIBLT)
        requires
            old(self).wf(),
            old(self).reaches(to),
        ensures
            old(self).after(to, Packet::Riblt(riblt@), *final(self)),
    {
        self.send(to, ProtocolMsgInner::Riblt(RibltMsg::new(riblt)));
    }

    pub fn send_bloom(&mut self, to: usize, bloom: BloomFilter<u64>)
        requires
            old(self).wf(),
            old(self).reaches(to),
        ensures
            old(self).after(to, Packet::Bloom(bloom@), *final(self)),
    {
        self.send(to, ProtocolMsgInner::Bloom(BloomMsg::new(bloom)));
    }

    pub fn send_rateless_bloom(&mut self, to: usize, bf: RatelessBF<u64>)
        requires
            old(self).wf(),
            old(self).reaches(to),
        ensures
            old(self).after(to, Packet::RatelessBloom(bf@), *final(self)),
    {
        self.send(to, ProtocolMsgInner::RatelessBloom(RatelessBloomMsg::new(bf)));
    }

    pub fn send_bloom_riblt(&mut self, to: usize, bloom: BloomFilter<u64>, riblt: RatelessIBLT)
        requires
            old(self).wf(),
            old(self).reaches(to),
        ensures
            old(self).after(
                to,
                (Packet::BloomRiblt { filter: bloom@, riblt: riblt@ }),
                *final(self),
            ),
    {
        self.send(
            to,
            ProtocolMsgInner::BloomRiblt {
                filter: BloomMsg::new(bloom),
                riblt: RibltMsg::new(riblt),
            },
        );
    }

    pub fn send_rateless_bloom_riblt(
        &mut self,
        to: usize,
        bf: RatelessBF<u64>,
        riblt: RatelessIBLT,
    )
        requires
            old(self).wf(),
            old(self).reaches(to),
        ensures
            old(self).after(
                to,
                (Packet::RatelessBloomRiblt { slices: bf@, riblt: riblt@ }),
                *final(self),
            ),
    {
        self.send(
            to,
            ProtocolMsgInner::RatelessBloomRiblt {
                slices: RatelessBloomMsg::new(bf),
                riblt: RibltMsg::new(riblt),
            },
        );
    }
}

/// What can happen to a network.
pub enum Event<M> {
    /// A message was sent, and its payload billed to the sender.
    Sent { from: usize, to: usize, msg: M, cost: u64 },
    /// A node took its messages.
    Drained(usize),
    /// Metadata was billed.
    Billed(Seq<(usize, u64)>),
    /// All messages and bills were forgotten.
    Reset,
}

/// The event concerns nodes of the network.
pub open spec fn event_ok<M>(nodes: int, e: Event<M>) -> bool {
    match e {
        Event::Sent { from, to, .. } => from < nodes && to < nodes,
        Event::Drained(node) => node < nodes,
        Event::Billed(bills) => forall|i: int|
            0 <= i < bills.len() ==> (#[trigger] bills[i]).0 < nodes,
        Event::Reset => true,
    }
}

/// All events concern nodes of the network.
pub open spec fn history_ok<M>(nodes: int, events: Seq<Event<M>>) -> bool {
    forall|i: int| 0 <= i < events.len() ==> event_ok(nodes, #[trigger] events[i])
}

/// A network after all events since it was made.
pub open spec fn after<M>(links: Seq<Seq<usize>>, events: Seq<Event<M>>) -> Traffic<M>
    decreases events.len(),
{
    if events.len() == 0 {
        Traffic::quiet(links)
    } else {
        let t = after(links, events.drop_last());
        match events.last() {
            Event::Sent { from, to, msg, cost } => t.sent(from as int, to as int, msg, cost),
            Event::Drained(node) => t.drained(node as int),
            Event::Billed(bills) => t.with_bills(bills),
            Event::Reset => Traffic::quiet(links),
        }
    }
}

/// How many events there were up to the last reset, which is the last of them.
pub open spec fn reset_at<M>(events: Seq<Event<M>>) -> nat
    decreases events.len(),
{
    if events.len() == 0 {
        0
    } else if events.last() is Reset {
        events.len()
    } else {
        reset_at(events.drop_last())
    }
}

/// How many events there were until the inbox of a node was last emptied, by a reset or by
/// the node.
pub open spec fn emptied_at<M>(events: Seq<Event<M>>, node: usize) -> nat
    decreases events.len(),
{
    if events.len() == 0 {
        0
    } else if events.last() is Reset || events.last() == Event::<M>::Drained(node) {
        events.len()
    } else {
        emptied_at(events.drop_last(), node)
    }
}

/// The messages sent to a node, with their senders, in the order in which they were sent.
pub open spec fn messages_to<M>(events: Seq<Event<M>>, node: usize) -> Seq<(usize, M)>
    decreases events.len(),
{
    if events.len() == 0 {
        Seq::empty()
    } else {
        let before = messages_to(events.drop_last(), node);
        match events.last() {
            Event::Sent { from, to, msg, .. } => if to == node {
                before.push((from, msg))
            } else {
                before
            },
            _ => before,
        }
    }
}

/// What a node has taken out of its inbox since the last reset.
pub open spec fn taken_out<M>(
    links: Seq<Seq<usize>>,
    events: Seq<Event<M>>,
    node: usize,
) -> Seq<(usize, M)>
    decreases events.len(),
{
    if events.len() == 0 {
        Seq::empty()
    } else {
        let before = taken_out(links, events.drop_last(), node);
        if events.last() is Reset {
            Seq::empty()
        } else if events.last() == Event::<M>::Drained(node) {
            before + after(links, events.drop_last()).inboxes[node as int]
        } else {
            before
        }
    }
}

/// The payload bytes of the messages that a node sent.
pub open spec fn state_due<M>(events: Seq<Event<M>>, node: int) -> int
    decreases events.len(),
{
    if events.len() == 0 {
        0
    } else {
        state_due(events.drop_last(), node) + match events.last() {
            Event::Sent { from, cost, .. } => if from == node {
                cost as int
            } else {
                0
            },
            _ => 0,
        }
    }
}

/// The payload bytes of all messages.
pub open spec fn state_due_in_all<M>(events: Seq<Event<M>>) -> int
    decreases events.len(),
{
    if events.len() == 0 {
        0
    } else {
        state_due_in_all(events.drop_last()) + match events.last() {
            Event::Sent { cost, .. } => cost as int,
            _ => 0,
        }
    }
}

/// The metadata bytes billed to a node.
pub open spec fn metadata_due<M>(events: Seq<Event<M>>, node: int) -> int
    decreases events.len(),
{
    if events.len() == 0 {
        0
    } else {
        metadata_due(events.drop_last(), node) + match events.last() {
            Event::Billed(bills) => billed_to(bills, node),
            _ => 0,
        }
    }
}

/// The metadata bytes billed in all.
pub open spec fn metadata_due_in_all<M>(events: Seq<Event<M>>) -> int
    decreases events.len(),
{
    if events.len() == 0 {
        0
    } else {
        metadata_due_in_all(events.drop_last()) + match events.last() {
            Event::Billed(bills) => billed(bills),
            _ => 0,
        }
    }
}

proof fn lemma_skip_last<M>(events: Seq<Event<M>>, n: nat)
    requires
        n < events.len(),
    ensures
        events.skip(n as int).drop_last() == events.drop_last().skip(n as int),
        events.skip(n as int).last() == events.last(),
{
    assert(events.skip(n as int).drop_last() =~= events.drop_last().skip(n as int));
}

proof fn lemma_history<M>(nodes: int, events: Seq<Event<M>>)
    requires
        history_ok(nodes, events),
        events.len() > 0,
    ensures
        history_ok(nodes, events.drop_last()),
        event_ok(nodes, events.last()),
{
    let rest = events.drop_last();
    assert forall|i: int| 0 <= i < rest.len() implies event_ok(nodes, #[trigger] rest[i]) by {
        assert(rest[i] == events[i]);
    }
    assert(event_ok(nodes, events[events.len() - 1]));
}

proof fn lemma_shape<M>(links: Seq<Seq<usize>>, events: Seq<Event<M>>)
    requires
        history_ok(links.len() as int, events),
    ensures
        events.len() > 0 && !(events.last() is Reset) ==> reset_at(events) < events.len(),
        forall|node: usize|
            events.len() > 0 && !(events.last() is Reset) && events.last() != Event::<M>::Drained(
                node,
            ) ==> #[trigger] emptied_at(events, node) < events.len(),
        after(links, events).links == links,
        after(links, events).inboxes.len() == links.len(),
        after(links, events).node_state.len() == links.len(),
        after(links, events).node_metadata.len() == links.len(),
        reset_at(events) <= events.len(),
        forall|node: usize| #[trigger] emptied_at(events, node) <= events.len(),
        forall|node: usize| reset_at(events) <= #[trigger] emptied_at(events, node),
    decreases events.len(),
{
    if events.len() > 0 {
        lemma_history(links.len() as int, events);
        lemma_shape(links, events.drop_last());
        assert forall|node: usize| #[trigger] emptied_at(events, node) <= events.len() && reset_at(
            events,
        ) <= emptied_at(events, node) by {
            assert(emptied_at(events.drop_last(), node) <= events.drop_last().len());
        }
        assert forall|node: usize|
            !(events.last() is Reset) && events.last() != Event::<M>::Drained(
                node,
            ) implies #[trigger] emptied_at(events, node) < events.len() by {
            assert(emptied_at(events.drop_last(), node) <= events.drop_last().len());
        }
    }
}

/// Whatever happened to a network, the inbox of a node holds the messages sent to it since it
/// last took them, or since the last reset: all of them, in the order in which they were sent.
pub proof fn lemma_inbox_holds_what_came<M>(
    links: Seq<Seq<usize>>,
    events: Seq<Event<M>>,
    node: usize,
)
    requires
        history_ok(links.len() as int, events),
        node < links.len(),
    ensures
        after(links, events).inboxes[node as int] == messages_to(
            events.skip(emptied_at(events, node) as int),
            node,
        ),
    decreases events.len(),
{
    let n = emptied_at(events, node);
    let since = events.skip(n as int);
    lemma_shape(links, events);
    if n == events.len() {
        assert(since.len() == 0);
        assert(after(links, events).inboxes[node as int] =~= Seq::empty()) by {
            if n > 0 {
                lemma_history(links.len() as int, events);
                lemma_shape(links, events.drop_last());
            }
        }
    } else {
        let rest = events.drop_last();
        lemma_history(links.len() as int, events);
        lemma_inbox_holds_what_came(links, rest, node);
        lemma_shape(links, rest);
        lemma_skip_last(events, n);
    }
}

/// No message is lost or handed out twice: since the last reset, what a node took and what
/// lies in its inbox are together the messages sent to it, in the order in which they were
/// sent.
pub proof fn lemma_messages_arrive_once<M>(
    links: Seq<Seq<usize>>,
    events: Seq<Event<M>>,
    node: usize,
)
    requires
        history_ok(links.len() as int, events),
        node < links.len(),
    ensures
        taken_out(links, events, node) + after(links, events).inboxes[node as int]
            == messages_to(events.skip(reset_at(events) as int), node),
    decreases events.len(),
{
    let n = reset_at(events);
    let since = events.skip(n as int);
    let (out, inbox) = (
        taken_out(links, events, node),
        after(links, events).inboxes[node as int],
    );
    lemma_shape(links, events);
    if n == events.len() {
        assert(since.len() == 0);
        assert(out + inbox =~= Seq::empty());
    } else {
        let rest = events.drop_last();
        lemma_history(links.len() as int, events);
        lemma_messages_arrive_once(links, rest, node);
        lemma_shape(links, rest);
        lemma_skip_last(events, n);
        let (was, held) = (
            taken_out(links, rest, node),
            after(links, rest).inboxes[node as int],
        );
        match events.last() {
            Event::Sent { from, to, msg, cost } => {
                if to == node {
                    assert(out + inbox =~= (was + held).push((from, msg)));
                }
            },
            Event::Drained(other) => {
                if other == node {
                    assert(out + inbox =~= was + held);
                }
            },
            _ => {},
        }
    }
}

/// Taking its messages leaves a node none, so taking them again gives none; nothing else
/// changes.
pub proof fn lemma_second_drain_is_empty<M>(
    links: Seq<Seq<usize>>,
    events: Seq<Event<M>>,
    node: usize,
)
    requires
        history_ok(links.len() as int, events),
        node < links.len(),
    ensures
        ({
            let t = after(links, events);
            let next = after(links, events.push(Event::Drained(node)));
            &&& next.inboxes[node as int] == Seq::<(usize, M)>::empty()
            &&& next.drained(node as int) == next
            &&& forall|other: int|
                0 <= other < links.len() && other != node ==> #[trigger] next.inboxes[other]
                    == t.inboxes[other]
            &&& next.links == t.links
            &&& next.state == t.state
            &&& next.metadata == t.metadata
            &&& next.node_state == t.node_state
            &&& next.node_metadata == t.node_metadata
        }),
{
    lemma_shape(links, events);
    assert(events.push(Event::Drained(node)).drop_last() =~= events);
    let next = after(links, events.push(Event::Drained(node)));
    assert(next.drained(node as int).inboxes =~= next.inboxes);
    assert(next.drained(node as int) =~= next);
}

/// Whatever happened to a network since the last reset, its counters are the sums of the
/// payload bytes of all messages sent and of all metadata bytes billed, in all and for each
/// node.
#[verifier::rlimit(60)]
#[verifier::spinoff_prover]
pub proof fn lemma_counters_are_sums<M>(
    links: Seq<Seq<usize>>,
    events: Seq<Event<M>>,
    node: int,
)
    requires
        history_ok(links.len() as int, events),
        0 <= node < links.len(),
    ensures
        ({
            let t = after(links, events);
            let since = events.skip(reset_at(events) as int);
            &&& t.node_state.len() == links.len()
            &&& t.node_metadata.len() == links.len()
            &&& t.node_state[node] == counter::wrap_u64(state_due(since, node))
            &&& t.node_metadata[node] == counter::wrap_u64(metadata_due(since, node))
            &&& t.state == counter::wrap_u64(state_due_in_all(since))
            &&& t.metadata == counter::wrap_u64(metadata_due_in_all(since))
            &&& state_due(since, node) <= u64::MAX ==> t.node_state[node] == state_due(since, node)
            &&& metadata_due(since, node) <= u64::MAX ==> t.node_metadata[node] == metadata_due(
                since,
                node,
            )
            &&& state_due_in_all(since) <= u64::MAX ==> t.state == state_due_in_all(since)
            &&& metadata_due_in_all(since) <= u64::MAX ==> t.metadata == metadata_due_in_all(since)
        }),
    decreases events.len(),
{
    let n = reset_at(events);
    let since = events.skip(n as int);
    lemma_shape(links, events);
    lemma_dues_positive(since, node);
    if n == events.len() {
        assert(since.len() == 0);
    } else {
        let rest = events.drop_last();
        lemma_history(links.len() as int, events);
        lemma_counters_are_sums(links, rest, node);
        lemma_shape(links, rest);
        lemma_skip_last(events, n);
        let before = rest.skip(n as int);
        match events.last() {
            Event::Sent { from, to, msg, cost } => {
                counter::lemma_wrap_u64_add(state_due(before, node), cost as int);
                counter::lemma_wrap_u64_add(state_due_in_all(before), cost as int);
            },
            Event::Billed(bills) => {
                counter::lemma_wrap_u64_add(metadata_due(before, node), billed_to(bills, node));
                counter::lemma_wrap_u64_add(metadata_due_in_all(before), billed(bills));
            },
            _ => {},
        }
    }
}

proof fn lemma_bills_positive(bills: Seq<(usize, u64)>, node: int)
    ensures
        billed_to(bills, node) >= 0,
        billed(bills) >= 0,
    decreases bills.len(),
{
    if bills.len() > 0 {
        lemma_bills_positive(bills.drop_last(), node);
    }
}

proof fn lemma_dues_positive<M>(events: Seq<Event<M>>, node: int)
    ensures
        state_due(events, node) >= 0,
        state_due_in_all(events) >= 0,
        metadata_due(events, node) >= 0,
        metadata_due_in_all(events) >= 0,
    decreases events.len(),
{
    if events.len() > 0 {
        lemma_dues_positive(events.drop_last(), node);
        if let Event::Billed(bills) = events.last() {
            lemma_bills_positive(bills, node);
        }
    }
}

/// Elements are billed one by one: each costs its payload and eight bytes for its digest, as
/// long as the counter does not overflow, and a marker costs what it would cost as one element
/// more. An empty message is free, and elements are no metadata.
pub proof fn lemma_elements_cost(elements: Seq<Element>, e: Element, marker: Option<Element>)
    requires
        e.payload_len + 8 <= usize::MAX,
        Packet::Elements(elements, None).state_cost() + e.payload_len + 8 <= u64::MAX,
    ensures
        Packet::Elements(Seq::empty(), None).state_cost() == 0,
        Packet::Elements(elements.push(e), None).state_cost() == Packet::Elements(
            elements,
            None,
        ).state_cost() + e.payload_len + 8,
        Packet::Elements(elements, Some(e)).state_cost() == Packet::Elements(
            elements.push(e),
            None,
        ).state_cost(),
        Packet::Elements(elements, marker).metadata_cost() == 0,
{
    assert(elements.push(e).drop_last() =~= elements);
    counter::lemma_wrap_small(8 + e.payload_len);
    assert(e.wire() == 8 + e.payload_len);
}

/// Sketches carry no payload. A code costs eight bytes for each symbol that its receiver
/// consumed, so nothing before it was decoded. A filter costs a byte for every eight of its
/// bits or fewer, a machine word for its length and eight bytes for its seed. A message of two
/// parts costs what the parts cost.
pub proof fn lemma_sketches_cost(filter: Filter, slices: Slices<u64>, riblt: Coded)
    requires
        riblt.consumed * 8 <= usize::MAX,
        filter.bits.len() + 7 <= usize::MAX,
        filter.bits.len() / 8 + 64 <= usize::MAX,
        Packet::Bloom(filter).metadata_cost() + Packet::Riblt(riblt).metadata_cost() <= u64::MAX,
        Packet::RatelessBloom(slices).metadata_cost() + Packet::Riblt(riblt).metadata_cost()
            <= u64::MAX,
    ensures
        Packet::Riblt(riblt).metadata_cost() == 8 * riblt.consumed,
        Packet::RatelessBloom(slices).metadata_cost() == slices.wire(),
        ({
            let bytes = Packet::Bloom(filter).metadata_cost() - usize::BITS / 8 - 8;
            8 * bytes - 8 < filter.bits.len() <= 8 * bytes
        }),
        (Packet::BloomRiblt { filter, riblt }).metadata_cost() == Packet::Bloom(
            filter,
        ).metadata_cost() + Packet::Riblt(riblt).metadata_cost(),
        (Packet::RatelessBloomRiblt { slices, riblt }).metadata_cost() == Packet::RatelessBloom(
            slices,
        ).metadata_cost() + Packet::Riblt(riblt).metadata_cost(),
        Packet::Riblt(riblt).state_cost() == 0,
        Packet::Bloom(filter).state_cost() == 0,
        Packet::RatelessBloom(slices).state_cost() == 0,
        (Packet::BloomRiblt { filter, riblt }).state_cost() == 0,
        (Packet::RatelessBloomRiblt { slices, riblt }).state_cost() == 0,
{
    counter::lemma_wrap_small((riblt.consumed * 8) as int);
    let bytes = (filter.bits.len() + 7) / 8;
    counter::lemma_wrap_small(bytes + word_bytes());
    counter::lemma_wrap_small(bytes + word_bytes() + 8);
}

/// The receiver's bills are those of its messages: one more message adds what it costs to the
/// bill of its sender, and to no other.
pub proof fn lemma_each_message_is_billed<Msg: WireSized>(
    inbox: Seq<(usize, Msg)>,
    from: usize,
    msg: Msg,
    node: int,
)
    ensures
        billed(metadata_bills(Seq::<(usize, Msg)>::empty())) == 0,
        billed_to(metadata_bills(Seq::<(usize, Msg)>::empty()), node) == 0,
        billed(metadata_bills(inbox.push((from, msg)))) == billed(metadata_bills(inbox))
            + msg.metadata_cost(),
        billed_to(metadata_bills(inbox.push((from, msg))), node) == billed_to(
            metadata_bills(inbox),
            node,
        ) + (if node == from {
            msg.metadata_cost() as int
        } else {
            0
        }),
{
    let more = metadata_bills(inbox.push((from, msg)));
    assert(more.drop_last() =~= metadata_bills(inbox));
    assert(more.last() == (from, msg.metadata_cost()));
}

} // verus!
