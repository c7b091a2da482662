//! Two-round reconciliation with a growing Bloom filter and rateless coding.
//!
//! In the first round every replica ships a filter that can grow and a coded list of its
//! digests to its neighbours. Receivers make the filter grow until that no longer pays, and
//! let the code tell which of the remaining candidates are false positives. In the second
//! round the elements found are delivered.

use crate::simulator::algorithms::bits::MAX_BITS;
use crate::simulator::algorithms::rateless_bloom;
use crate::simulator::algorithms::rateless_bloom::expected_cost;
use crate::simulator::algorithms::rateless_bloom::expected_cost::{
    ExpectedCost, ExpectedCostFactory, Sieve, RATELESS_SET_RECONCILIATION_OVERHEAD,
};
use crate::simulator::algorithms::rateless_bloom::{
    RatelessBF, Slices, StoppingStrategyFactory,
};
use crate::simulator::algorithms::riblt::{Coded, RatelessIBLT};
use crate::simulator::binary64;
use crate::simulator::binary64::Binary64;
use crate::simulator::counter;
use crate::simulator::counter::add_u128;
use crate::simulator::network;
use crate::simulator::network::{Outbox, Packet, ProtocolMsg};
use crate::simulator::protocols;
use crate::simulator::protocols::{bf_iblt, full_state_transfer};
use crate::simulator::protocols::{
    deliver_pending, queue, select_by_digest, Carry, Gathered, LocalMetrics, PendingElements,
    Protocol, ProtocolKind, ProtocolStepResult, Received, Site,
};
use crate::simulator::replica;
use crate::simulator::replica::{Element, ElementSet, ReplicaView};
use crate::simulator::topology;
use crate::simulator::topology::Topology;
use vstd::prelude::*;

verus! {

/// Bits of a slice for `n` digests at the given ratio of bits to digests: the
/// double-precision value of `ceil(n * ratio)`, and enough that a slice can pay for itself.
pub open spec fn slice_bits(ratio: Binary64, n: nat) -> nat {
    let asked = Binary64::of(Binary64::of(binary64::nearest(n, 0)).product(ratio)).ceiling();
    let least = 8 * RATELESS_SET_RECONCILIATION_OVERHEAD as int;
    if asked < least {
        least as nat
    } else if asked > usize::MAX {
        usize::MAX as nat
    } else {
        asked as nat
    }
}

/// Bits of a slice for `n` digests at the given ratio of bits to digests.
pub fn bloom_bits(ratio: Binary64, n: usize) -> (bits: usize)
    requires
        ratio.wf(),
        -1200 <= ratio.exp <= 1200,
    ensures
        bits == slice_bits(ratio, n as nat),
{
    let requested: usize = Binary64::from_u64(n as u64).times(ratio).ceil_usize();
    let minimum: usize = RATELESS_SET_RECONCILIATION_OVERHEAD * 8;
    if requested < minimum {
        minimum
    } else {
        requested
    }
}

/// What sifting the receiver's digests with a growing filter comes to: the filter, the
/// digests that may be common, and those that the sender lacks.
pub open spec fn sifted(slices: Slices<u64>, digests: Seq<u64>) -> (
    Slices<u64>,
    (Seq<u64>, Seq<u64>),
) {
    rateless_bloom::extended_until::<u64, ExpectedCost>(
        slices,
        Sieve { common: digests, missing: Seq::empty(), ruled_out: 0 },
    )
}

#[derive(Clone, Copy, Debug, PartialEq, Eq, Structural)]
pub struct HybridRbfRibltProtocol {
    m_ratio: Binary64,
}

impl Default for HybridRbfRibltProtocol {
    fn default() -> (p: Self)
        ensures
            p.ratio().parts() == (0x10_0000_0000_0000int, -53int),
    {
        Self::new()
    }
}

impl HybridRbfRibltProtocol {
    /// Bits of a slice for each digest.
    pub closed spec fn ratio(self) -> Binary64 {
        self.m_ratio
    }

    #[verifier::type_invariant]
    spec fn wf(self) -> bool {
        self.m_ratio.wf() && -1200 <= self.m_ratio.exp <= 1200
    }

    /// Half a bit for each digest.
    pub fn new() -> (p: Self)
        ensures
            p.ratio().parts() == (0x10_0000_0000_0000int, -53int),
    {
        HybridRbfRibltProtocol { m_ratio: Binary64 { mant: 0x10_0000_0000_0000, exp: -53 } }
    }

    pub fn with_m_ratio(m_ratio: Binary64) -> (p: Self)
        requires
            m_ratio.wf(),
            m_ratio.mant > 0,
            -1200 <= m_ratio.exp <= 1200,
        ensures
            p.ratio() == m_ratio,
    {
        HybridRbfRibltProtocol { m_ratio }
    }

    /// Bits of a slice for `n` digests.
    pub fn bloom_bits_for(&self, n: usize) -> (bits: usize)
        ensures
            bits == slice_bits(self.ratio(), n as nat),
    {
        proof {
            use_type_invariant(self);
        }
        bloom_bits(self.m_ratio, n)
    }

    /// What one message adds.
    pub open spec fn absorbed(site: Site, acc: Gathered, from: usize, p: Packet) -> Gathered {
        match p {
            Packet::Elements(els, marker) => acc.with(
                from,
                els.to_set(),
                Seq::empty(),
                Packet::Elements(Seq::empty(), marker),
                0,
            ),
            Packet::RatelessBloomRiblt { slices, riblt } => {
                let (grown, (common, missing)) = sifted(slices, replica::digests_of(site.set));
                acc.with(
                    from,
                    Set::empty(),
                    protocols::with_digests(
                        replica::listing(site.set),
                        missing + bf_iblt::exposed(riblt, common),
                    ),
                    Packet::RatelessBloomRiblt {
                        slices: grown,
                        riblt: bf_iblt::checked(riblt, common),
                    },
                    0,
                )
            },
            other => acc.with(from, Set::empty(), Seq::empty(), other, 0),
        }
    }

    /// What the first `n` messages add up to.
    pub open spec fn gathered(site: Site, inbox: Seq<(usize, Packet)>, n: nat) -> Gathered
        decreases n,
    {
        if n == 0 {
            Gathered::start(site.set)
        } else {
            let m = inbox[n - 1];
            Self::absorbed(site, Self::gathered(site, inbox, (n - 1) as nat), m.0, m.1)
        }
    }
}

impl Protocol for HybridRbfRibltProtocol {
    open spec fn is_kind(&self) -> ProtocolKind {
        ProtocolKind::HybridRbfRiblt
    }

    open spec fn sends(&self, site: Site, carry: Option<Carry>) -> Seq<(usize, Packet)> {
        let pending = protocols::contents(carry);
        if pending.len() == 0 {
            full_state_transfer::to_all(
                site.neighbors(),
                Packet::RatelessBloomRiblt {
                    slices: Slices::start(
                        replica::digests_of(site.set),
                        slice_bits(self.ratio(), replica::digests_of(site.set).len()),
                    ),
                    riblt: Coded::of(replica::digests_of(site.set)),
                },
            )
        } else {
            protocols::deliveries(pending)
        }
    }

    open spec fn receives(&self, site: Site, inbox: Seq<(usize, Packet)>) -> Received {
        Self::gathered(site, inbox, inbox.len()).received()
    }

    open spec fn uses(&self, site: Site, p: Packet) -> (bool, bool) {
        match p {
            Packet::RatelessBloomRiblt { slices, riblt } => (
                true,
                sifted(slices, replica::digests_of(site.set)).1.0.len() > 0,
            ),
            _ => (false, false),
        }
    }

    fn kind(&self) -> ProtocolKind {
        ProtocolKind::HybridRbfRiblt
    }

    fn send_phase(
        &self,
        local: ReplicaView<'_>,
        topology: &Topology,
        outbox: &mut Outbox,
        carry: Option<PendingElements>,
    ) {
        let pending = PendingElements::of(carry);
        if !pending.is_empty() {
            deliver_pending(outbox, &pending);
            return;
        }
        let neighbors = topology.neighbors(local.id);
        let ghost start = network::flow(outbox.traffic());
        let ghost links = outbox.traffic().links;
        let ghost packet = (Packet::RatelessBloomRiblt {
            slices: Slices::start(
                replica::digests_of(local.set@),
                slice_bits(self.ratio(), replica::digests_of(local.set@).len()),
            ),
            riblt: Coded::of(replica::digests_of(local.set@)),
        });
        let ghost goal = full_state_transfer::to_all(neighbors@, packet);
        let mut i: usize = 0;
        assert(goal.take(0) =~= Seq::<(usize, Packet)>::empty());
        while i < neighbors.len()
            invariant
                i <= neighbors@.len(),
                outbox.wf(),
                outbox.sender() == local.id,
                outbox.traffic().links == links,
                links[local.id as int] == neighbors@,
                packet == (Packet::RatelessBloomRiblt {
                    slices: Slices::start(
                        replica::digests_of(local.set@),
                        slice_bits(self.ratio(), replica::digests_of(local.set@).len()),
                    ),
                    riblt: Coded::of(replica::digests_of(local.set@)),
                }),
                goal == full_state_transfer::to_all(neighbors@, packet),
                network::flow(outbox.traffic()) == protocols::delivered(
                    start,
                    local.id as int,
                    goal.take(i as int),
                ),
            decreases neighbors@.len() - i,
        {
            let to: usize = neighbors[i];
            assert(neighbors@.contains(to));
            let digests: Vec<u64> = local.set.digest_list();
            let bits: usize = self.bloom_bits_for(digests.len());
            let bf: RatelessBF<u64> = RatelessBF::new(local.set.digest_list(), bits);
            outbox.send_rateless_bloom_riblt(to, bf, RatelessIBLT::riblt_from(digests));
            proof {
                assert(goal.take(i + 1).drop_last() =~= goal.take(i as int));
                assert(goal.take(i + 1).last() == (to, packet));
            }
            i = i + 1;
        }
        assert(goal.take(i as int) =~= goal);
    }

    fn recv_phase(
        &self,
        local: ReplicaView<'_>,
        topology: &Topology,
        inbox: &mut Vec<(usize, ProtocolMsg)>,
    ) -> (r: ProtocolStepResult) {
        let ghost before = inbox@;
        let ghost start = network::packets(inbox@);
        let ghost site = protocols::site_of(local, topology);
        let ghost links = topology.rows();
        let size: usize = topology.node_count();
        proof {
            topology::lemma_topology_is_graph(topology.shape(), topology.size());
        }
        let mut next_set: ElementSet = local.snapshot_set();
        let ghost uses = Seq::new(start.len(), |i: int| self.uses(site, start[i].1));
        let mut encode_time: u128 = 0;
        let mut decode_time: u128 = 0;
        let mut pending = PendingElements::new();
        let mut i: usize = 0;
        while i < inbox.len()
            invariant
                i <= inbox@.len(),
                inbox@.len() == before.len(),
                start == network::packets(before),
                site == protocols::site_of(local, topology),
                links == topology.rows(),
                topology::is_graph(links),
                links.len() == size,
                local.id < size,
                network::inbox_wf(links, local.id as int, before),
                protocols::keys_distinct(pending@),
                protocols::keys_reachable(pending@, links, local.id as int),
                ({
                    let g = Self::gathered(site, start, i as nat);
                    &&& g.next == next_set@
                    &&& g.pending == pending@
                    &&& g.inbox == network::packets(inbox@).take(i as int)
                    &&& g.false_matches == 0
                }),
                uses == Seq::new(start.len(), |i: int| self.uses(site, start[i].1)),
                encode_time == counter::clamp_u128(
                    protocols::encode_total(uses, network::stamps_of(inbox@), i as nat) as int,
                ),
                decode_time == counter::clamp_u128(
                    protocols::decode_total(uses, network::stamps_of(inbox@), i as nat) as int,
                ),
                forall|j: int| 0 <= j < inbox@.len() ==> (#[trigger] inbox@[j]).0 == before[j].0,
                forall|j: int| i <= j < inbox@.len() ==> (#[trigger] inbox@[j]) == before[j],
            decreases inbox@.len() - i,
        {
            let from: usize = inbox[i].0;
            assert(inbox@[i as int] == before[i as int]);
            assert(network::from_neighbor(links, local.id as int, before[i as int].0));
            let ghost step = inbox@;
            match inbox[i].1.take_elements() {
                Some(els) => {
                    next_set.insert_all(&els);
                },
                None => {
                    match inbox[i].1.as_rateless_bloom_riblt() {
                        Some((sender_filter, sender_riblt)) => {
                            let sender_size: usize = sender_filter.source_size();
                            let local_digests: Vec<u64> = local.set.digest_list();
                            let strategy: ExpectedCost = ExpectedCostFactory::new().create(
                                local_digests,
                                sender_size,
                            );
                            let ghost slices = sender_filter@;
                            let ghost coded = sender_riblt@;
                            let (common, definitely_missing): (Vec<u64>, Vec<u64>) =
                                sender_filter.extend_until(strategy);
                            encode_time = add_u128(encode_time, sender_filter.t_enc());
                            decode_time = add_u128(decode_time, sender_filter.t_dec());
                            let ghost found = common@;
                            let ghost gone = definitely_missing@;
                            let mut recovered: Vec<u64> = definitely_missing;
                            if common.len() > 0 {
                                let mut common_riblt = RatelessIBLT::riblt_from(common);
                                sender_riblt.decode_against(&mut common_riblt);
                                encode_time = add_u128(encode_time, sender_riblt.t_enc());
                                decode_time = add_u128(decode_time, sender_riblt.t_dec());
                                let mut wrong: Vec<u64> = sender_riblt.remote_only();
                                recovered.append(&mut wrong);
                            }
                            assert(recovered@ =~= gone + bf_iblt::exposed(coded, found));
                            let to_send: Vec<Element> = select_by_digest(local.set, &recovered);
                            queue(
                                &mut pending,
                                from,
                                to_send,
                                Ghost(links),
                                Ghost(local.id as int),
                            );
                        },
                        None => {},
                    }
                },
            }
            i = i + 1;
            proof {
                let g = Self::gathered(site, start, (i - 1) as nat);
                let h = Self::gathered(site, start, i as nat);
                let now = network::packets(inbox@);
                assert(now.take(i as int) =~= g.inbox.push(now[i - 1]));
                assert(g.next.union(Set::empty()) =~= g.next);
                assert(h.next =~= next_set@);
                protocols::lemma_totals_same(
                    uses,
                    network::stamps_of(step),
                    network::stamps_of(inbox@),
                    (i - 1) as nat,
                );
            }
        }
        let r = ProtocolStepResult {
            next_set,
            metrics: LocalMetrics { encode_time, decode_time, false_matches: 0 },
            carry: pending.into_carry(),
        };
        assert(network::packets(inbox@).take(i as int) =~= network::packets(inbox@));
        assert(r.received(network::packets(inbox@)) =~= self.receives(site, start));
        r
    }
}

/// What is queued for a neighbour after its growing filter and its code came are the elements
/// that it lacks: those that the slices rule out, and those that the code exposes, make up all
/// whose digests the neighbour has not.
pub proof fn lemma_answer(site: Site, acc: Gathered, from: usize, other: Set<Element>, bits: nat)
    ensures
        HybridRbfRibltProtocol::absorbed(
            site,
            acc,
            from,
            Packet::RatelessBloomRiblt {
                slices: Slices::start(replica::digests_of(other), bits),
                riblt: Coded::of(replica::digests_of(other)),
            },
        ).pending == protocols::queued(
            acc.pending,
            from,
            protocols::lacking_elements(site.set, other),
        ),
{
    let (ours, theirs) = (replica::digests_of(site.set), replica::digests_of(other));
    let start = Slices::start(theirs, bits);
    let sieve = Sieve { common: ours, missing: Seq::empty(), ruled_out: 0 };
    let (grown, (common, missing)) = sifted(start, ours);
    let wrong = bf_iblt::exposed(Coded::of(theirs), common);
    let listed = missing + wrong;
    expected_cost::lemma_missing_is_missing(start, sieve);
    assert forall|d: u64| #[trigger] ours.contains(d) implies (listed.contains(d)
        <==> !theirs.contains(d)) by {
        expected_cost::lemma_parted(start, sieve, d);
        bf_iblt::lemma_exposed(theirs, common, d);
        bf_iblt::lemma_either(missing, wrong, d);
        if missing.contains(d) {
            let i = choose|i: int| 0 <= i < missing.len() && missing[i] == d;
            assert(!theirs.contains(missing[i]));
        }
    }
    protocols::lemma_lacking_elements(site.set, other, listed);
}

/// Filter and code together tell which digests the sender has not.
pub(crate) proof fn lemma_told_apart(ours: Seq<u64>, theirs: Seq<u64>, bits: nat, d: u64)
    requires
        ours.contains(d),
    ensures
        ({
            let (grown, (common, missing)) = sifted(Slices::start(theirs, bits), ours);
            (missing + bf_iblt::exposed(Coded::of(theirs), common)).contains(d)
                <==> !theirs.contains(d)
        }),
{
    let start = Slices::start(theirs, bits);
    let sieve = Sieve { common: ours, missing: Seq::empty(), ruled_out: 0 };
    let (grown, (common, missing)) = sifted(start, ours);
    let wrong = bf_iblt::exposed(Coded::of(theirs), common);
    expected_cost::lemma_missing_is_missing(start, sieve);
    expected_cost::lemma_parted(start, sieve, d);
    bf_iblt::lemma_exposed(theirs, common, d);
    bf_iblt::lemma_either(missing, wrong, d);
    if missing.contains(d) {
        let i = choose|i: int| 0 <= i < missing.len() && missing[i] == d;
        assert(!theirs.contains(missing[i]));
    }
}

/// A replica that receives one sketch carries over for its sender exactly the elements
/// that the sender lacks.
pub proof fn lemma_one_sketch(p: HybridRbfRibltProtocol, site: Site, from: usize, other: Set<Element>)
    ensures
        ({
            let packet = Packet::RatelessBloomRiblt {
                slices: Slices::start(
                    replica::digests_of(other),
                    slice_bits(p.ratio(), replica::digests_of(other).len()),
                ),
                riblt: Coded::of(replica::digests_of(other)),
            };
            p.receives(site, seq![(from, packet)]).carry == protocols::carried(
                protocols::queued(
                    Seq::empty(),
                    from,
                    protocols::lacking_elements(site.set, other),
                ),
            )
        }),
{
    let packet = Packet::RatelessBloomRiblt {
                slices: Slices::start(
                    replica::digests_of(other),
                    slice_bits(p.ratio(), replica::digests_of(other).len()),
                ),
                riblt: Coded::of(replica::digests_of(other)),
            };
    let inbox = seq![(from, packet)];
    let start = Gathered::start(site.set);
    lemma_answer(
        site,
        start,
        from,
        other,
        slice_bits(p.ratio(), replica::digests_of(other).len()),
    );
    assert(HybridRbfRibltProtocol::gathered(site, inbox, 0) == start);
    assert(HybridRbfRibltProtocol::gathered(site, inbox, 1) == HybridRbfRibltProtocol::absorbed(site, start, from, packet));
}

proof fn lemma_left(site: Site, inbox: Seq<(usize, Packet)>, n: nat, k: int)
    requires
        0 <= k < n <= inbox.len(),
    ensures
        HybridRbfRibltProtocol::gathered(site, inbox, n).inbox.len() == n,
        HybridRbfRibltProtocol::gathered(site, inbox, n).inbox[k]
            == HybridRbfRibltProtocol::absorbed(
            site,
            Gathered::start(site.set),
            inbox[k].0,
            inbox[k].1,
        ).inbox[0],
    decreases n,
{
    let g = HybridRbfRibltProtocol::gathered(site, inbox, (n - 1) as nat);
    if k < n - 1 {
        lemma_left(site, inbox, (n - 1) as nat, k);
        assert(HybridRbfRibltProtocol::gathered(site, inbox, n).inbox.drop_last() =~= g.inbox);
    } else {
        if n > 1 {
            lemma_left(site, inbox, (n - 1) as nat, 0);
        }
        assert(g.inbox.len() == n - 1);
    }
}

/// What a receiver leaves of a sketch: the filter has grown behind its first slices, as long as
/// that paid, and the code was decoded against exactly those of the receiver's digests that no
/// added slice rules out. So the filter alone settles the others, and they cost the code no
/// symbol. Without such digests the code is left as it came.
pub proof fn lemma_code_sees_the_rest(
    p: HybridRbfRibltProtocol,
    site: Site,
    inbox: Seq<(usize, Packet)>,
    k: int,
    slices: Slices<u64>,
    riblt: Coded,
)
    requires
        0 <= k < inbox.len(),
        inbox[k].1 == (Packet::RatelessBloomRiblt { slices, riblt }),
    ensures
        ({
            let left = p.receives(site, inbox).inbox;
            let end = left[k].1->RatelessBloomRiblt_slices;
            let code = left[k].1->RatelessBloomRiblt_riblt;
            let (n, m) = (slices.filters.len() as int, end.filters.len() as int);
            let ours = replica::digests_of(site.set);
            let rest = ours.filter(|d: u64| expected_cost::stands(end, n, m, d));
            &&& left.len() == inbox.len()
            &&& left[k].0 == inbox[k].0
            &&& left[k].1 is RatelessBloomRiblt
            &&& m > n
            &&& end.bits == slices.bits
            &&& end.data == slices.data
            &&& end.filters.take(n) == slices.filters
            &&& forall|i: int|
                n <= i < m ==> rateless_bloom::full_slice(
                    #[trigger] end.filters[i],
                    slices.bits,
                    slices.data,
                )
            &&& forall|i: int|
                n <= i < m ==> (expected_cost::pays_off(
                    slices.bits,
                    expected_cost::standing(ours, end, n, i).len() - (
                    #[trigger] expected_cost::standing(ours, end, n, i + 1)).len(),
                ) <==> i < m - 1)
            &&& rest.len() == 0 ==> code == riblt
            &&& rest.len() > 0 ==> code == riblt.against(rest)
            &&& p.uses(site, inbox[k].1) == (true, rest.len() > 0)
        }),
{
    lemma_left(site, inbox, inbox.len(), k);
    let ours = replica::digests_of(site.set);
    let sieve = Sieve { common: ours, missing: Seq::empty(), ruled_out: 0 };
    expected_cost::lemma_sifting_keeps(slices, sieve);
    expected_cost::lemma_sifting_pays(slices, sieve);
}

/// Where the receiver holds all digests of the sender and the slices rule out every other one,
/// the code has nothing left to tell apart and consumes one symbol.
pub proof fn lemma_filter_settles_all(
    p: HybridRbfRibltProtocol,
    site: Site,
    inbox: Seq<(usize, Packet)>,
    k: int,
    theirs: Seq<u64>,
    bits: nat,
)
    requires
        0 <= k < inbox.len(),
        theirs.len() > 0,
        inbox[k].1 == (Packet::RatelessBloomRiblt {
            slices: Slices::start(theirs, bits),
            riblt: Coded::of(theirs),
        }),
        forall|d: u64| #[trigger]
            theirs.contains(d) ==> replica::digests_of(site.set).contains(d),
        ({
            let end = p.receives(site, inbox).inbox[k].1->RatelessBloomRiblt_slices;
            forall|d: u64| #[trigger]
                replica::digests_of(site.set).contains(d) && !theirs.contains(d) ==> !end.has(d)
        }),
    ensures
        (p.receives(site, inbox).inbox[k].1->RatelessBloomRiblt_riblt).consumed == 1,
{
    let slices = Slices::start(theirs, bits);
    lemma_code_sees_the_rest(p, site, inbox, k, slices, Coded::of(theirs));
    let end = p.receives(site, inbox).inbox[k].1->RatelessBloomRiblt_slices;
    let m = end.filters.len() as int;
    let ours = replica::digests_of(site.set);
    let keep = |d: u64| expected_cost::stands(end, 0, m, d);
    let rest = ours.filter(keep);
    assert forall|d: u64| rest.contains(d) <==> theirs.contains(d) by {
        if rest.contains(d) {
            let i = choose|i: int| 0 <= i < rest.len() && rest[i] == d;
            ours.lemma_filter_pred(keep, i);
            bf_iblt::lemma_kept_is_listed(ours, keep, d);
            assert(end.has(d));
        }
        if theirs.contains(d) {
            let i = choose|i: int| 0 <= i < theirs.len() && theirs[i] == d;
            assert(rateless_bloom::grown(end));
            rateless_bloom::lemma_values_are_found(end, i);
            assert(keep(d));
            let j = choose|j: int| 0 <= j < ours.len() && ours[j] == d;
            ours.lemma_filter_contains(keep, j);
        }
    }
    assert(rest.contains(theirs[0]));
    assert(rest.to_set() =~= theirs.to_set()) by {
        assert forall|d: u64| rest.to_set().contains(d) == theirs.to_set().contains(d) by {
            assert(rest.to_set().contains(d) == rest.contains(d));
            assert(theirs.to_set().contains(d) == theirs.contains(d));
        }
    }
    crate::simulator::algorithms::riblt::lemma_same_lists(theirs, rest);
}

/// With nothing to deliver, a replica ships every neighbour a filter of its digests without a
/// slice yet, and a fresh code of them. Otherwise it ships what is pending and no sketch.
pub proof fn lemma_ships(p: HybridRbfRibltProtocol, site: Site, carry: Option<Carry>)
    ensures
        ({
            let ours = replica::digests_of(site.set);
            let sends = p.sends(site, carry);
            let idle = protocols::contents(carry).len() == 0;
            &&& idle ==> sends.len() == site.neighbors().len()
            &&& idle ==> forall|i: int|
                0 <= i < site.neighbors().len() ==> {
                    let m = #[trigger] sends[i];
                    let f = m.1->RatelessBloomRiblt_slices;
                    &&& m.0 == site.neighbors()[i]
                    &&& m.1 is RatelessBloomRiblt
                    &&& m.1->RatelessBloomRiblt_riblt.symbols == ours
                    &&& m.1->RatelessBloomRiblt_riblt.consumed == 0
                    &&& f.data == ours
                    &&& f.filters.len() == 0
                    &&& f.bits >= 88
                    &&& slice_bits(p.ratio(), ours.len()) <= MAX_BITS ==> f.bits == slice_bits(
                        p.ratio(),
                        ours.len(),
                    )
                    &&& m.1.metadata_cost() == 0
                }
            &&& !idle ==> sends == protocols::deliveries(protocols::contents(carry))
        }),
{
    counter::lemma_wrap_small(0);
}

/// What is asked for before it is held to the bounds.
spec fn asked_bits(ratio: Binary64, n: nat) -> int {
    Binary64::of(Binary64::of(binary64::nearest(n, 0)).product(ratio)).ceiling()
}

proof fn lemma_asked_double(ratio: Binary64, twice: Binary64, n: nat)
    requires
        ratio.wf(),
        ratio.mant > 0,
        -1200 <= ratio.exp <= 1199,
        twice.mant == ratio.mant,
        twice.exp == ratio.exp + 1,
        0 < n,
        2 * n <= u64::MAX,
    ensures
        asked_bits(ratio, n) >= 1,
        2 * asked_bits(ratio, n) - 1 <= asked_bits(ratio, 2 * n) <= 2 * asked_bits(ratio, n),
        asked_bits(twice, n) == asked_bits(ratio, 2 * n),
{
    binary64::lemma_nearest_range(n, 0);
    binary64::lemma_nearest_double(n, 0);
    let a = Binary64::of(binary64::nearest(n, 0));
    let b = Binary64::of(binary64::nearest(2 * n, 0));
    let x = a.mant * ratio.mant;
    assert(0 < x < binary64::MANT_END * binary64::MANT_END) by (nonlinear_arith)
        requires
            0 < a.mant < binary64::MANT_END,
            0 < ratio.mant < binary64::MANT_END,
            x == a.mant * ratio.mant,
    ;
    binary64::lemma_nearest_range(x as nat, a.exp + ratio.exp);
    binary64::lemma_nearest_double(x as nat, a.exp + ratio.exp);
    let p = Binary64::of(a.product(ratio));
    let q = Binary64::of(b.product(ratio));
    assert(b.mant == a.mant && b.exp == a.exp + 1);
    assert(q.mant == p.mant && q.exp == p.exp + 1);
    assert(a.product(twice) == b.product(ratio));
    binary64::lemma_ceiling_double(p, q);
    binary64::lemma_ceiling_positive(p);
}

/// The bits of a slice go with the number of digests and with the ratio: twice as many digests,
/// or twice the ratio, take twice as many bits, or one less, between the eighty-eight bits that
/// a slice always has and the most that there can be.
pub proof fn lemma_slice_bits_double(ratio: Binary64, twice: Binary64, n: nat)
    requires
        ratio.wf(),
        ratio.mant > 0,
        -1200 <= ratio.exp <= 1199,
        twice.mant == ratio.mant,
        twice.exp == ratio.exp + 1,
        0 < n,
        2 * n <= u64::MAX,
    ensures
        ({
            let (a, b) = (slice_bits(ratio, n), slice_bits(ratio, 2 * n));
            &&& slice_bits(twice, n) == b
            &&& 88 <= a <= b
            &&& a == 88 ==> b <= 176
            &&& a > 88 ==> b == usize::MAX || 2 * a - 1 <= b <= 2 * a
        }),
{
    lemma_asked_double(ratio, twice, n);
}

/// A sketch as it is sent: filter and code are of the same digests, and no slice was added yet.
pub open spec fn as_sent(p: Packet) -> bool {
    p is RatelessBloomRiblt ==> p->RatelessBloomRiblt_slices == Slices::start(
        (p->RatelessBloomRiblt_riblt).symbols,
        (p->RatelessBloomRiblt_slices).bits,
    )
}

/// One of the first `n` messages is a sketch of the node, of digests without the given one.
pub open spec fn lacks(inbox: Seq<(usize, Packet)>, n: nat, to: usize, d: u64) -> bool {
    exists|k: int|
        0 <= k < n && (#[trigger] inbox[k]).0 == to && inbox[k].1 is RatelessBloomRiblt && !(
        inbox[k].1->RatelessBloomRiblt_riblt).symbols.contains(d)
}

proof fn lemma_pending(site: Site, inbox: Seq<(usize, Packet)>, n: nat, to: usize, e: Element)
    requires
        site.set.finite(),
        n <= inbox.len(),
        forall|k: int| 0 <= k < inbox.len() ==> as_sent((#[trigger] inbox[k]).1),
    ensures
        protocols::keys_distinct(HybridRbfRibltProtocol::gathered(site, inbox, n).pending),
        protocols::pends(HybridRbfRibltProtocol::gathered(site, inbox, n).pending, to, e)
            <==> site.set.contains(e) && lacks(inbox, n, to, e.digest),
    decreases n,
{
    if n > 0 {
        lemma_pending(site, inbox, (n - 1) as nat, to, e);
        let g = HybridRbfRibltProtocol::gathered(site, inbox, (n - 1) as nat);
        let m = inbox[n - 1];
        let d = e.digest;
        let ours = replica::digests_of(site.set);
        let listed = match m.1 {
            Packet::RatelessBloomRiblt { slices, riblt } => {
                let (grown, (common, missing)) = sifted(slices, ours);
                missing + bf_iblt::exposed(riblt, common)
            },
            _ => Seq::empty(),
        };
        let back = if m.1 is RatelessBloomRiblt {
            protocols::with_digests(replica::listing(site.set), listed)
        } else {
            Seq::empty()
        };
        protocols::lemma_queued_pends(g.pending, m.0, back, to, e);
        assert(protocols::queued(g.pending, m.0, Seq::<Element>::empty()) == g.pending);
        if let Packet::RatelessBloomRiblt { slices, riblt } = m.1 {
            assert(as_sent(m.1));
            protocols::lemma_with_digests(site.set, listed, e);
            let (grown, (common, missing)) = sifted(slices, ours);
            assert(bf_iblt::exposed(riblt, common) == bf_iblt::exposed(
                Coded::of(riblt.symbols),
                common,
            ));
            if site.set.contains(e) {
                lemma_told_apart(ours, riblt.symbols, slices.bits, d);
            }
        }
        let here = m.0 == to && m.1 is RatelessBloomRiblt && !(
        m.1->RatelessBloomRiblt_riblt).symbols.contains(d);
        if lacks(inbox, (n - 1) as nat, to, d) {
            let k = choose|k: int|
                0 <= k < n - 1 && (#[trigger] inbox[k]).0 == to && inbox[k].1 is RatelessBloomRiblt
                    && !(inbox[k].1->RatelessBloomRiblt_riblt).symbols.contains(d);
            assert(inbox[k].0 == to);
        }
        if lacks(inbox, n, to, d) && !here {
            let k = choose|k: int|
                0 <= k < n && (#[trigger] inbox[k]).0 == to && inbox[k].1 is RatelessBloomRiblt
                    && !(inbox[k].1->RatelessBloomRiblt_riblt).symbols.contains(d);
            assert(k < n - 1);
            assert(inbox[k].0 == to);
            assert(lacks(inbox, (n - 1) as nat, to, d));
        }
        if here {
            assert(inbox[n - 1].0 == to);
            assert(lacks(inbox, n, to, d));
        }
    } else {
        assert(!lacks(inbox, 0, to, e.digest));
    }
}

/// Whatever came along with it, every sketch is answered: pending for a node afterwards are
/// exactly the elements of the replica whose digests a sketch of the node is without.
pub proof fn lemma_sketches_are_answered(
    p: HybridRbfRibltProtocol,
    site: Site,
    inbox: Seq<(usize, Packet)>,
    to: usize,
    e: Element,
)
    requires
        site.set.finite(),
        forall|k: int| 0 <= k < inbox.len() ==> as_sent((#[trigger] inbox[k]).1),
    ensures
        protocols::pends(protocols::contents(p.receives(site, inbox).carry), to, e)
            <==> site.set.contains(e) && lacks(inbox, inbox.len(), to, e.digest),
{
    lemma_pending(site, inbox, inbox.len(), to, e);
}

} // verus!
