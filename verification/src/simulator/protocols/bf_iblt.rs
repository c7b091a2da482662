//! Two-round reconciliation with a Bloom filter and rateless coding.
//!
//! In the first round every replica ships a filter and a coded list of its digests to its
//! neighbours. What the filter rules out the sender lacks; the code tells which of the rest
//! are false positives. In the second round the elements found are delivered.

use crate::simulator::algorithms::bloom::{FalsePositiveRate, Filter};
use crate::simulator::algorithms::hashing::HashKey;
use crate::simulator::algorithms::riblt::{Coded, RatelessIBLT};
use crate::simulator::binary64::Binary64;
use crate::simulator::counter;
use crate::simulator::counter::{add_u128, add_usize};
use crate::simulator::network;
use crate::simulator::network::{Outbox, Packet, ProtocolMsg};
use crate::simulator::protocols;
use crate::simulator::protocols::full_state_transfer;
use crate::simulator::protocols::{
    build_filter, deliver_pending, queue, select_by_digest, Carry, Gathered, LocalMetrics, PendingElements,
    Protocol, ProtocolKind, ProtocolStepResult, Received, Site,
};
use crate::simulator::replica;
use crate::simulator::replica::{Element, ElementSet, ReplicaView};
use crate::simulator::topology;
use crate::simulator::topology::Topology;
use vstd::prelude::*;

verus! {

#[derive(Clone, Copy, Debug, PartialEq, Eq, Structural)]
pub struct StaticBfIbltProtocol {
    false_positive_rate: FalsePositiveRate,
}

impl Default for StaticBfIbltProtocol {
    fn default() -> (p: Self)
        ensures
            p.rate().neg_ln().parts() == (0x12_6bb1_bbb5_5515int, -50int),
    {
        Self::new()
    }
}

/// Those of the digests that a filter has.
pub open spec fn had(f: Filter, digests: Seq<u64>) -> Seq<u64> {
    digests.filter(|d: u64| f.has(d.hash_writes()))
}

/// Those of the digests that a filter does not have.
pub open spec fn lacked(f: Filter, digests: Seq<u64>) -> Seq<u64> {
    digests.filter(|d: u64| !f.has(d.hash_writes()))
}

/// The code after it was decoded against the candidates, if there are any.
pub open spec fn checked(coded: Coded, candidates: Seq<u64>) -> Coded {
    if candidates.len() == 0 {
        coded
    } else {
        coded.against(candidates)
    }
}

/// The candidates that turned out to be false positives, if there are any candidates.
pub open spec fn exposed(coded: Coded, candidates: Seq<u64>) -> Seq<u64> {
    if candidates.len() == 0 {
        Seq::empty()
    } else {
        coded.against(candidates).remote_only
    }
}

/// A digest that the sender's filter rules out is none of the sender's.
pub proof fn lemma_lacked_is_lacking(digests: Seq<u64>, theirs: Seq<u64>, neg_ln: Binary64, d: u64)
    requires
        lacked(protocols::filter_of(theirs, neg_ln), digests).contains(d),
    ensures
        !theirs.contains(d),
{
    let f = protocols::filter_of(theirs, neg_ln);
    let keep = |x: u64| !f.has(x.hash_writes());
    let out = digests.filter(keep);
    let i = choose|i: int| 0 <= i < out.len() && out[i] == d;
    digests.lemma_filter_pred(keep, i);
    if theirs.contains(d) {
        let j = choose|j: int| 0 <= j < theirs.len() && theirs[j] == d;
        protocols::lemma_filter_finds(theirs, neg_ln, j);
    }
}

proof fn lemma_keep_all(s: Seq<u64>, keep: spec_fn(u64) -> bool)
    requires
        forall|i: int| 0 <= i < s.len() ==> keep(#[trigger] s[i]),
    ensures
        s.filter(keep) == s,
    decreases s.len(),
{
    reveal(Seq::filter);
    if s.len() > 0 {
        let rest = s.drop_last();
        assert forall|i: int| 0 <= i < rest.len() implies keep(#[trigger] rest[i]) by {
            assert(rest[i] == s[i]);
        }
        lemma_keep_all(rest, keep);
        assert(keep(s[s.len() - 1]));
        assert(rest.push(s.last()) =~= s);
    } else {
        assert(s.filter(keep) =~= s);
    }
}

proof fn lemma_keep_none(s: Seq<u64>, keep: spec_fn(u64) -> bool)
    requires
        forall|i: int| 0 <= i < s.len() ==> !keep(#[trigger] s[i]),
    ensures
        s.filter(keep) == Seq::<u64>::empty(),
    decreases s.len(),
{
    reveal(Seq::filter);
    if s.len() > 0 {
        let rest = s.drop_last();
        assert forall|i: int| 0 <= i < rest.len() implies !keep(#[trigger] rest[i]) by {
            assert(rest[i] == s[i]);
        }
        lemma_keep_none(rest, keep);
        assert(!keep(s[s.len() - 1]));
    } else {
        assert(s.filter(keep) =~= Seq::<u64>::empty());
    }
}

/// A receiver with the sender's digests finds none that the sender lacks.
pub proof fn lemma_same_digests(digests: Seq<u64>, neg_ln: Binary64)
    ensures
        ({
            let f = protocols::filter_of(digests, neg_ln);
            &&& had(f, digests) == digests
            &&& lacked(f, digests) == Seq::<u64>::empty()
            &&& exposed(Coded::of(digests), digests) == Seq::<u64>::empty()
        }),
{
    let f = protocols::filter_of(digests, neg_ln);
    assert forall|i: int| 0 <= i < digests.len() implies f.has(
        (#[trigger] digests[i]).hash_writes(),
    ) by {
        protocols::lemma_filter_finds(digests, neg_ln, i);
    }
    lemma_keep_all(digests, |d: u64| f.has(d.hash_writes()));
    lemma_keep_none(digests, |d: u64| !f.has(d.hash_writes()));
    crate::simulator::algorithms::riblt::lemma_same_lists(digests, digests);
}

impl StaticBfIbltProtocol {
    /// The false-positive rate of the filters.
    pub closed spec fn rate(self) -> FalsePositiveRate {
        self.false_positive_rate
    }

    /// One false positive in a hundred.
    pub fn new() -> (p: Self)
        ensures
            p.rate().neg_ln().parts() == (0x12_6bb1_bbb5_5515int, -50int),
    {
        StaticBfIbltProtocol { false_positive_rate: FalsePositiveRate::one_in_100() }
    }

    pub fn with_false_positive_rate(false_positive_rate: FalsePositiveRate) -> (p: Self)
        ensures
            p.rate() == false_positive_rate,
    {
        StaticBfIbltProtocol { false_positive_rate }
    }

    /// What one message adds.
    pub open spec fn absorbed(site: Site, acc: Gathered, from: usize, p: Packet) -> Gathered {
        match p {
            Packet::Elements(els, marker) => acc.with(
                from,
                els.to_set(),
                Seq::empty(),
                Packet::Elements(Seq::empty(), marker),
                0,
            ),
            Packet::BloomRiblt { filter, riblt } => {
                let digests = replica::digests_of(site.set);
                let candidates = had(filter, digests);
                let wrong = exposed(riblt, candidates);
                acc.with(
                    from,
                    Set::empty(),
                    protocols::with_digests(
                        replica::listing(site.set),
                        lacked(filter, digests) + wrong,
                    ),
                    Packet::BloomRiblt { filter, riblt: checked(riblt, candidates) },
                    wrong.len() as int,
                )
            },
            other => acc.with(from, Set::empty(), Seq::empty(), other, 0),
        }
    }

    /// What the first `n` messages add up to.
    pub open spec fn gathered(site: Site, inbox: Seq<(usize, Packet)>, n: nat) -> Gathered
        decreases n,
    {
        if n == 0 {
            Gathered::start(site.set)
        } else {
            let m = inbox[n - 1];
            Self::absorbed(site, Self::gathered(site, inbox, (n - 1) as nat), m.0, m.1)
        }
    }
}

impl Protocol for StaticBfIbltProtocol {
    open spec fn is_kind(&self) -> ProtocolKind {
        ProtocolKind::StaticBfIblt
    }

    open spec fn sends(&self, site: Site, carry: Option<Carry>) -> Seq<(usize, Packet)> {
        let pending = protocols::contents(carry);
        if pending.len() == 0 {
            full_state_transfer::to_all(
                site.neighbors(),
                Packet::BloomRiblt {
                    filter: protocols::filter_of(replica::digests_of(site.set), self.rate().neg_ln()),
                    riblt: Coded::of(replica::digests_of(site.set)),
                },
            )
        } else {
            protocols::deliveries(pending)
        }
    }

    open spec fn receives(&self, site: Site, inbox: Seq<(usize, Packet)>) -> Received {
        Self::gathered(site, inbox, inbox.len()).received()
    }

    open spec fn uses(&self, site: Site, p: Packet) -> (bool, bool) {
        match p {
            Packet::BloomRiblt { filter, riblt } => (
                true,
                had(filter, replica::digests_of(site.set)).len() > 0,
            ),
            _ => (false, false),
        }
    }

    fn kind(&self) -> ProtocolKind {
        ProtocolKind::StaticBfIblt
    }

    fn send_phase(
        &self,
        local: ReplicaView<'_>,
        topology: &Topology,
        outbox: &mut Outbox,
        carry: Option<PendingElements>,
    ) {
        let pending = PendingElements::of(carry);
        if !pending.is_empty() {
            deliver_pending(outbox, &pending);
            return;
        }
        let neighbors = topology.neighbors(local.id);
        let ghost start = network::flow(outbox.traffic());
        let ghost links = outbox.traffic().links;
        let ghost packet = (Packet::BloomRiblt {
            filter: protocols::filter_of(replica::digests_of(local.set@), self.rate().neg_ln()),
            riblt: Coded::of(replica::digests_of(local.set@)),
        });
        let ghost goal = full_state_transfer::to_all(neighbors@, packet);
        let mut i: usize = 0;
        assert(goal.take(0) =~= Seq::<(usize, Packet)>::empty());
        while i < neighbors.len()
            invariant
                i <= neighbors@.len(),
                outbox.wf(),
                outbox.sender() == local.id,
                outbox.traffic().links == links,
                links[local.id as int] == neighbors@,
                packet == (Packet::BloomRiblt {
                    filter: protocols::filter_of(replica::digests_of(local.set@), self.rate().neg_ln()),
                    riblt: Coded::of(replica::digests_of(local.set@)),
                }),
                goal == full_state_transfer::to_all(neighbors@, packet),
                network::flow(outbox.traffic()) == protocols::delivered(
                    start,
                    local.id as int,
                    goal.take(i as int),
                ),
            decreases neighbors@.len() - i,
        {
            let to: usize = neighbors[i];
            assert(neighbors@.contains(to));
            let digests: Vec<u64> = local.set.digest_list();
            let bf = build_filter(&digests, self.false_positive_rate);
            outbox.send_bloom_riblt(to, bf, RatelessIBLT::riblt_from(digests));
            proof {
                assert(goal.take(i + 1).drop_last() =~= goal.take(i as int));
                assert(goal.take(i + 1).last() == (to, packet));
            }
            i = i + 1;
        }
        assert(goal.take(i as int) =~= goal);
    }

    fn recv_phase(
        &self,
        local: ReplicaView<'_>,
        topology: &Topology,
        inbox: &mut Vec<(usize, ProtocolMsg)>,
    ) -> (r: ProtocolStepResult) {
        let ghost before = inbox@;
        let ghost start = network::packets(inbox@);
        let ghost site = protocols::site_of(local, topology);
        let ghost links = topology.rows();
        let size: usize = topology.node_count();
        proof {
            topology::lemma_topology_is_graph(topology.shape(), topology.size());
        }
        let mut next_set: ElementSet = local.snapshot_set();
        let ghost uses = Seq::new(start.len(), |i: int| self.uses(site, start[i].1));
        let mut encode_time: u128 = 0;
        let mut decode_time: u128 = 0;
        let mut false_matches: usize = 0;
        let mut pending = PendingElements::new();
        let mut i: usize = 0;
        while i < inbox.len()
            invariant
                i <= inbox@.len(),
                inbox@.len() == before.len(),
                start == network::packets(before),
                site == protocols::site_of(local, topology),
                links == topology.rows(),
                topology::is_graph(links),
                links.len() == size,
                local.id < size,
                network::inbox_wf(links, local.id as int, before),
                protocols::keys_distinct(pending@),
                protocols::keys_reachable(pending@, links, local.id as int),
                ({
                    let g = Self::gathered(site, start, i as nat);
                    &&& g.next == next_set@
                    &&& g.pending == pending@
                    &&& g.inbox == network::packets(inbox@).take(i as int)
                    &&& g.false_matches == false_matches
                }),
                uses == Seq::new(start.len(), |i: int| self.uses(site, start[i].1)),
                encode_time == counter::clamp_u128(
                    protocols::encode_total(uses, network::stamps_of(inbox@), i as nat) as int,
                ),
                decode_time == counter::clamp_u128(
                    protocols::decode_total(uses, network::stamps_of(inbox@), i as nat) as int,
                ),
                forall|j: int| 0 <= j < inbox@.len() ==> (#[trigger] inbox@[j]).0 == before[j].0,
                forall|j: int| i <= j < inbox@.len() ==> (#[trigger] inbox@[j]) == before[j],
            decreases inbox@.len() - i,
        {
            let from: usize = inbox[i].0;
            assert(inbox@[i as int] == before[i as int]);
            assert(network::from_neighbor(links, local.id as int, before[i as int].0));
            let ghost step = inbox@;
            match inbox[i].1.take_elements() {
                Some(els) => {
                    next_set.insert_all(&els);
                },
                None => {
                    match inbox[i].1.as_bloom_riblt() {
                        Some((bloom, sender_riblt)) => {
                            let local_digests: Vec<u64> = local.set.digest_list();
                            let mut recovered: Vec<u64> = Vec::new();
                            let mut candidates: Vec<u64> = Vec::new();
                            let ghost f = bloom@;
                            let mut k: usize = 0;
                            proof {
                                reveal(Seq::filter);
                                assert(had(f, local_digests@.take(0)) =~= Seq::<u64>::empty());
                                assert(lacked(f, local_digests@.take(0)) =~= Seq::<u64>::empty());
                            }
                            while k < local_digests.len()
                                invariant
                                    k <= local_digests@.len(),
                                    bloom@ == f,
                                    candidates@ == had(f, local_digests@.take(k as int)),
                                    recovered@ == lacked(f, local_digests@.take(k as int)),
                                decreases local_digests@.len() - k,
                            {
                                let digest: u64 = local_digests[k];
                                proof {
                                    let next = local_digests@.take(k + 1);
                                    assert(next.drop_last() =~= local_digests@.take(k as int));
                                    assert(next.last() == digest);
                                    reveal(Seq::filter);
                                }
                                if bloom.contains(&digest) {
                                    candidates.push(digest);
                                } else {
                                    recovered.push(digest);
                                }
                                k = k + 1;
                            }
                            assert(local_digests@.take(k as int) =~= local_digests@);
                            encode_time = add_u128(encode_time, bloom.t_enc());
                            decode_time = add_u128(decode_time, bloom.t_dec());
                            let ghost coded = sender_riblt@;
                            let ghost found = candidates@;
                            if candidates.len() > 0 {
                                let mut candidate_riblt = RatelessIBLT::riblt_from(candidates);
                                sender_riblt.decode_against(&mut candidate_riblt);
                                encode_time = add_u128(encode_time, sender_riblt.t_enc());
                                decode_time = add_u128(decode_time, sender_riblt.t_dec());
                                let mut wrong: Vec<u64> = sender_riblt.remote_only();
                                false_matches = add_usize(false_matches, wrong.len());
                                recovered.append(&mut wrong);
                            }
                            assert(recovered@ =~= lacked(f, local_digests@) + exposed(coded, found));
                            let to_send: Vec<Element> = select_by_digest(local.set, &recovered);
                            queue(
                                &mut pending,
                                from,
                                to_send,
                                Ghost(links),
                                Ghost(local.id as int),
                            );
                        },
                        None => {},
                    }
                },
            }
            i = i + 1;
            proof {
                let g = Self::gathered(site, start, (i - 1) as nat);
                let h = Self::gathered(site, start, i as nat);
                let now = network::packets(inbox@);
                assert(now.take(i as int) =~= g.inbox.push(now[i - 1]));
                assert(g.next.union(Set::empty()) =~= g.next);
                assert(h.next =~= next_set@);
                protocols::lemma_totals_same(
                    uses,
                    network::stamps_of(step),
                    network::stamps_of(inbox@),
                    (i - 1) as nat,
                );
            }
        }
        let r = ProtocolStepResult {
            next_set,
            metrics: LocalMetrics { encode_time, decode_time, false_matches },
            carry: pending.into_carry(),
        };
        assert(network::packets(inbox@).take(i as int) =~= network::packets(inbox@));
        assert(r.received(network::packets(inbox@)) =~= self.receives(site, start));
        r
    }
}

/// Of candidates, those are exposed that the sender has not coded.
pub proof fn lemma_exposed(theirs: Seq<u64>, candidates: Seq<u64>, d: u64)
    ensures
        exposed(Coded::of(theirs), candidates).contains(d) <==> candidates.contains(d)
            && !theirs.contains(d),
{
    if candidates.len() > 0 {
        let out = Coded::of(theirs).against(candidates).remote_only;
        crate::simulator::algorithms::riblt::lemma_reported_is_the_difference(theirs, candidates);
        assert(out.to_set().contains(d) == out.contains(d));
        assert(candidates.to_set().contains(d) == candidates.contains(d));
        assert(theirs.to_set().contains(d) == theirs.contains(d));
    }
}

proof fn lemma_kept(s: Seq<u64>, keep: spec_fn(u64) -> bool, d: u64)
    requires
        s.contains(d),
    ensures
        s.filter(keep).contains(d) <==> keep(d),
{
    let i = choose|i: int| 0 <= i < s.len() && s[i] == d;
    if keep(d) {
        s.lemma_filter_contains(keep, i);
    } else if s.filter(keep).contains(d) {
        let out = s.filter(keep);
        let j = choose|j: int| 0 <= j < out.len() && out[j] == d;
        s.lemma_filter_pred(keep, j);
    }
}

/// What is queued for a neighbour after its filter and its code came are the elements that it
/// lacks: those that the filter rules out, and those that the code exposes, make up all whose
/// digests the neighbour has not.
pub proof fn lemma_answer(
    site: Site,
    acc: Gathered,
    from: usize,
    other: Set<Element>,
    neg_ln: Binary64,
)
    ensures
        StaticBfIbltProtocol::absorbed(
            site,
            acc,
            from,
            Packet::BloomRiblt {
                filter: protocols::filter_of(replica::digests_of(other), neg_ln),
                riblt: Coded::of(replica::digests_of(other)),
            },
        ).pending == protocols::queued(
            acc.pending,
            from,
            protocols::lacking_elements(site.set, other),
        ),
{
    let (ours, theirs) = (replica::digests_of(site.set), replica::digests_of(other));
    let f = protocols::filter_of(theirs, neg_ln);
    let (candidates, out) = (had(f, ours), lacked(f, ours));
    let wrong = exposed(Coded::of(theirs), candidates);
    let listed = out + wrong;
    assert forall|d: u64| #[trigger] ours.contains(d) implies (listed.contains(d)
        <==> !theirs.contains(d)) by {
        lemma_kept(ours, |x: u64| f.has(x.hash_writes()), d);
        lemma_kept(ours, |x: u64| !f.has(x.hash_writes()), d);
        lemma_exposed(theirs, candidates, d);
        if theirs.contains(d) {
            let j = choose|j: int| 0 <= j < theirs.len() && theirs[j] == d;
            protocols::lemma_filter_finds(theirs, neg_ln, j);
        }
        lemma_either(out, wrong, d);
    }
    protocols::lemma_lacking_elements(site.set, other, listed);
}

/// A digest is in two lists joined if it is in one of them.
pub(crate) proof fn lemma_either(a: Seq<u64>, b: Seq<u64>, d: u64)
    ensures
        (a + b).contains(d) <==> a.contains(d) || b.contains(d),
{
    let ab = a + b;
    if a.contains(d) {
        let i = choose|i: int| 0 <= i < a.len() && a[i] == d;
        assert(ab[i] == d);
    }
    if b.contains(d) {
        let i = choose|i: int| 0 <= i < b.len() && b[i] == d;
        assert(ab[a.len() + i] == d);
    }
    if ab.contains(d) {
        let i = choose|i: int| 0 <= i < ab.len() && ab[i] == d;
        if i < a.len() {
            assert(a[i] == d);
        } else {
            assert(b[i - a.len()] == d);
        }
    }
}

/// Every false positive is counted once: there are as many as candidates that the sender has
/// not coded, however often those are listed.
pub proof fn lemma_exposed_once(theirs: Seq<u64>, candidates: Seq<u64>)
    ensures
        exposed(Coded::of(theirs), candidates).no_duplicates(),
        exposed(Coded::of(theirs), candidates).len() == candidates.to_set().difference(
            theirs.to_set(),
        ).len(),
{
    let out = exposed(Coded::of(theirs), candidates);
    if candidates.len() > 0 {
        crate::simulator::algorithms::riblt::lemma_reported_is_the_difference(theirs, candidates);
    }
    out.unique_seq_to_set();
    assert(out.to_set() =~= candidates.to_set().difference(theirs.to_set()));
}

/// A replica that receives one sketch carries over for its sender exactly the elements
/// that the sender lacks.
pub proof fn lemma_one_sketch(p: StaticBfIbltProtocol, site: Site, from: usize, other: Set<Element>)
    ensures
        ({
            let packet = Packet::BloomRiblt {
                filter: protocols::filter_of(replica::digests_of(other), p.rate().neg_ln()),
                riblt: Coded::of(replica::digests_of(other)),
            };
            p.receives(site, seq![(from, packet)]).carry == protocols::carried(
                protocols::queued(
                    Seq::empty(),
                    from,
                    protocols::lacking_elements(site.set, other),
                ),
            )
        }),
{
    let packet = Packet::BloomRiblt {
                filter: protocols::filter_of(replica::digests_of(other), p.rate().neg_ln()),
                riblt: Coded::of(replica::digests_of(other)),
            };
    let inbox = seq![(from, packet)];
    let start = Gathered::start(site.set);
    lemma_answer(site, start, from, other, p.rate().neg_ln());
    assert(StaticBfIbltProtocol::gathered(site, inbox, 0) == start);
    assert(StaticBfIbltProtocol::gathered(site, inbox, 1) == StaticBfIbltProtocol::absorbed(site, start, from, packet));
}

/// What was kept of a list is in the list.
pub(crate) proof fn lemma_kept_is_listed(s: Seq<u64>, keep: spec_fn(u64) -> bool, d: u64)
    requires
        s.filter(keep).contains(d),
    ensures
        s.contains(d),
    decreases s.len(),
{
    reveal(Seq::filter);
    if s.len() > 0 {
        let rest = s.drop_last();
        let out = s.filter(keep);
        let i = choose|i: int| 0 <= i < out.len() && out[i] == d;
        if i < rest.filter(keep).len() {
            assert(rest.filter(keep)[i] == d);
            lemma_kept_is_listed(rest, keep, d);
            let j = choose|j: int| 0 <= j < rest.len() && rest[j] == d;
            assert(s[j] == d);
        } else {
            assert(s[s.len() - 1] == d);
        }
    }
}

proof fn lemma_left(site: Site, inbox: Seq<(usize, Packet)>, n: nat, k: int)
    requires
        0 <= k < n <= inbox.len(),
    ensures
        StaticBfIbltProtocol::gathered(site, inbox, n).inbox.len() == n,
        StaticBfIbltProtocol::gathered(site, inbox, n).inbox[k] == StaticBfIbltProtocol::absorbed(
            site,
            Gathered::start(site.set),
            inbox[k].0,
            inbox[k].1,
        ).inbox[0],
    decreases n,
{
    let g = StaticBfIbltProtocol::gathered(site, inbox, (n - 1) as nat);
    if k < n - 1 {
        lemma_left(site, inbox, (n - 1) as nat, k);
        assert(StaticBfIbltProtocol::gathered(site, inbox, n).inbox.drop_last() =~= g.inbox);
    } else {
        if n > 1 {
            lemma_left(site, inbox, (n - 1) as nat, 0);
        }
        assert(g.inbox.len() == n - 1);
    }
}

/// What a receiver leaves of a sketch: the filter as it came, and the code decoded against
/// exactly those of the receiver's digests that the filter does not rule out. So the filter
/// alone settles the others, and they cost the code no symbol. Without such digests the code is
/// left as it came.
pub proof fn lemma_code_sees_the_rest(
    p: StaticBfIbltProtocol,
    site: Site,
    inbox: Seq<(usize, Packet)>,
    k: int,
    filter: Filter,
    riblt: Coded,
)
    requires
        0 <= k < inbox.len(),
        inbox[k].1 == (Packet::BloomRiblt { filter, riblt }),
    ensures
        ({
            let left = p.receives(site, inbox).inbox;
            let code = left[k].1->BloomRiblt_riblt;
            let rest = replica::digests_of(site.set).filter(
                |d: u64| filter.has(d.hash_writes()),
            );
            &&& left.len() == inbox.len()
            &&& left[k].0 == inbox[k].0
            &&& left[k].1 is BloomRiblt
            &&& left[k].1->BloomRiblt_filter == filter
            &&& rest.len() == 0 ==> code == riblt
            &&& rest.len() > 0 ==> code == riblt.against(rest)
            &&& p.uses(site, inbox[k].1) == (true, rest.len() > 0)
        }),
{
    lemma_left(site, inbox, inbox.len(), k);
}

/// Where the receiver holds all digests of the sender and the filter rules out every other one,
/// the code has nothing left to tell apart and consumes one symbol.
pub proof fn lemma_filter_settles_all(
    p: StaticBfIbltProtocol,
    site: Site,
    inbox: Seq<(usize, Packet)>,
    k: int,
    theirs: Seq<u64>,
    neg_ln: Binary64,
)
    requires
        0 <= k < inbox.len(),
        theirs.len() > 0,
        inbox[k].1 == (Packet::BloomRiblt {
            filter: protocols::filter_of(theirs, neg_ln),
            riblt: Coded::of(theirs),
        }),
        forall|d: u64| #[trigger]
            theirs.contains(d) ==> replica::digests_of(site.set).contains(d),
        forall|d: u64| #[trigger]
            replica::digests_of(site.set).contains(d) && !theirs.contains(d)
                ==> !protocols::filter_of(theirs, neg_ln).has(d.hash_writes()),
    ensures
        (p.receives(site, inbox).inbox[k].1->BloomRiblt_riblt).consumed == 1,
{
    let f = protocols::filter_of(theirs, neg_ln);
    lemma_code_sees_the_rest(p, site, inbox, k, f, Coded::of(theirs));
    let ours = replica::digests_of(site.set);
    let keep = |d: u64| f.has(d.hash_writes());
    let rest = ours.filter(keep);
    assert forall|d: u64| rest.contains(d) <==> theirs.contains(d) by {
        if rest.contains(d) {
            let i = choose|i: int| 0 <= i < rest.len() && rest[i] == d;
            ours.lemma_filter_pred(keep, i);
            lemma_kept_is_listed(ours, keep, d);
        }
        if theirs.contains(d) {
            let i = choose|i: int| 0 <= i < theirs.len() && theirs[i] == d;
            protocols::lemma_filter_finds(theirs, neg_ln, i);
            assert(keep(d));
            let j = choose|j: int| 0 <= j < ours.len() && ours[j] == d;
            ours.lemma_filter_contains(keep, j);
        }
    }
    assert(rest.contains(theirs[0]));
    assert(rest.to_set() =~= theirs.to_set()) by {
        assert forall|d: u64| rest.to_set().contains(d) == theirs.to_set().contains(d) by {
            assert(rest.to_set().contains(d) == rest.contains(d));
            assert(theirs.to_set().contains(d) == theirs.contains(d));
        }
    }
    crate::simulator::algorithms::riblt::lemma_same_lists(theirs, rest);
}

/// With nothing to deliver, a replica ships every neighbour a filter that has all its digests,
/// as large as its rate asks for, and a fresh code of them. Otherwise it ships what is pending
/// and no sketch.
pub proof fn lemma_ships(p: StaticBfIbltProtocol, site: Site, carry: Option<Carry>)
    ensures
        ({
            let ours = replica::digests_of(site.set);
            let sends = p.sends(site, carry);
            let idle = protocols::contents(carry).len() == 0;
            &&& idle ==> sends.len() == site.neighbors().len()
            &&& idle ==> forall|i: int|
                0 <= i < site.neighbors().len() ==> {
                    let m = #[trigger] sends[i];
                    let f = m.1->BloomRiblt_filter;
                    &&& m.0 == site.neighbors()[i]
                    &&& m.1 is BloomRiblt
                    &&& m.1->BloomRiblt_riblt.symbols == ours
                    &&& m.1->BloomRiblt_riblt.consumed == 0
                    &&& ours.len() > 0 ==> f.bits.len() == p.rate().bits_for(ours.len()) as nat
                    &&& f.hashes == p.rate().hashes_for() as u64
                    &&& forall|d: u64| #[trigger] ours.contains(d) ==> f.has(d.hash_writes())
                }
            &&& !idle ==> sends == protocols::deliveries(protocols::contents(carry))
        }),
{
    let ours = replica::digests_of(site.set);
    let f = protocols::filter_of(ours, p.rate().neg_ln());
    assert forall|d: u64| #[trigger] ours.contains(d) implies f.has(d.hash_writes()) by {
        let i = choose|i: int| 0 <= i < ours.len() && ours[i] == d;
        protocols::lemma_filter_finds(ours, p.rate().neg_ln(), i);
    }
    let capacity: nat = if ours.len() < 1 {
        1
    } else {
        ours.len()
    };
    crate::simulator::algorithms::bloom::lemma_with_all_shape(
        Filter::empty(
            crate::simulator::algorithms::bloom::bits_at(p.rate().neg_ln(), capacity) as nat,
            crate::simulator::algorithms::bloom::slice_hashers(0),
            crate::simulator::algorithms::bloom::hashes_at(p.rate().neg_ln()) as u64,
        ),
        ours,
    );
}

proof fn lemma_prefix(site: Site, inbox: Seq<(usize, Packet)>, m: (usize, Packet), n: nat)
    requires
        n <= inbox.len(),
    ensures
        StaticBfIbltProtocol::gathered(site, inbox.push(m), n) == StaticBfIbltProtocol::gathered(
            site,
            inbox,
            n,
        ),
    decreases n,
{
    if n > 0 {
        lemma_prefix(site, inbox, m, (n - 1) as nat);
        assert(inbox.push(m)[n - 1] == inbox[n - 1]);
    }
}

/// A false match is a digest of the receiver that the filter has and the sender has not. Each
/// message adds those that it caused, every one of them once; messages without a sketch add
/// none.
pub proof fn lemma_false_matches(
    p: StaticBfIbltProtocol,
    site: Site,
    inbox: Seq<(usize, Packet)>,
    from: usize,
    filter: Filter,
    theirs: Seq<u64>,
    other: Packet,
)
    requires
        !(other is BloomRiblt),
    ensures
        ({
            let sketch = Packet::BloomRiblt { filter, riblt: Coded::of(theirs) };
            let wrong = replica::digests_of(site.set).filter(
                |d: u64| filter.has(d.hash_writes()),
            ).to_set().difference(theirs.to_set());
            &&& p.receives(site, Seq::empty()).false_matches == 0
            &&& p.receives(site, inbox.push((from, sketch))).false_matches
                == counter::wrap_usize(p.receives(site, inbox).false_matches + wrong.len())
            &&& p.receives(site, inbox.push((from, other))).false_matches
                == counter::wrap_usize(p.receives(site, inbox).false_matches as int)
        }),
{
    let sketch = Packet::BloomRiblt { filter, riblt: Coded::of(theirs) };
    lemma_prefix(site, inbox, (from, sketch), inbox.len());
    lemma_prefix(site, inbox, (from, other), inbox.len());
    lemma_exposed_once(theirs, had(filter, replica::digests_of(site.set)));
}

/// One of the first `n` messages is a sketch of the node whose filter or whose code lacks the
/// digest.
pub open spec fn lacks(inbox: Seq<(usize, Packet)>, n: nat, to: usize, d: u64) -> bool {
    exists|k: int| 0 <= k < n && (#[trigger] inbox[k]).0 == to && sketch_lacks(inbox[k].1, d)
}

/// The message is a sketch whose filter or whose code lacks the digest.
pub open spec fn sketch_lacks(p: Packet, d: u64) -> bool {
    p is BloomRiblt && (!(p->BloomRiblt_filter).has(d.hash_writes()) || !(
    p->BloomRiblt_riblt).symbols.contains(d))
}

proof fn lemma_listed(f: Filter, c: Coded, ours: Seq<u64>, d: u64)
    requires
        ours.contains(d),
    ensures
        (lacked(f, ours) + exposed(c, had(f, ours))).contains(d) <==> !f.has(d.hash_writes())
            || !c.symbols.contains(d),
{
    let out = |x: u64| !f.has(x.hash_writes());
    let into = |x: u64| f.has(x.hash_writes());
    let (a, candidates) = (lacked(f, ours), had(f, ours));
    let b = exposed(c, candidates);
    lemma_either(a, b, d);
    let j = choose|j: int| 0 <= j < ours.len() && ours[j] == d;
    if out(d) {
        ours.lemma_filter_contains(out, j);
    } else {
        ours.lemma_filter_contains(into, j);
    }
    if a.contains(d) {
        let i = choose|i: int| 0 <= i < a.len() && a[i] == d;
        ours.lemma_filter_pred(out, i);
    }
    if candidates.contains(d) {
        let i = choose|i: int| 0 <= i < candidates.len() && candidates[i] == d;
        ours.lemma_filter_pred(into, i);
    }
    lemma_exposed(c.symbols, candidates, d);
    assert(exposed(Coded::of(c.symbols), candidates) == b);
}

proof fn lemma_pending(site: Site, inbox: Seq<(usize, Packet)>, n: nat, to: usize, e: Element)
    requires
        site.set.finite(),
        n <= inbox.len(),
    ensures
        protocols::keys_distinct(StaticBfIbltProtocol::gathered(site, inbox, n).pending),
        protocols::pends(StaticBfIbltProtocol::gathered(site, inbox, n).pending, to, e)
            <==> site.set.contains(e) && lacks(inbox, n, to, e.digest),
    decreases n,
{
    if n > 0 {
        lemma_pending(site, inbox, (n - 1) as nat, to, e);
        let g = StaticBfIbltProtocol::gathered(site, inbox, (n - 1) as nat);
        let m = inbox[n - 1];
        let d = e.digest;
        let ours = replica::digests_of(site.set);
        let back = match m.1 {
            Packet::BloomRiblt { filter, riblt } => protocols::with_digests(
                replica::listing(site.set),
                lacked(filter, ours) + exposed(riblt, had(filter, ours)),
            ),
            _ => Seq::empty(),
        };
        protocols::lemma_queued_pends(g.pending, m.0, back, to, e);
        assert(protocols::queued(g.pending, m.0, Seq::<Element>::empty()) == g.pending);
        if let Packet::BloomRiblt { filter, riblt } = m.1 {
            let listed = lacked(filter, ours) + exposed(riblt, had(filter, ours));
            protocols::lemma_with_digests(site.set, listed, e);
            if site.set.contains(e) {
                lemma_listed(filter, riblt, ours, d);
            }
        }
        let here = m.0 == to && sketch_lacks(m.1, d);
        if lacks(inbox, (n - 1) as nat, to, d) {
            let k = choose|k: int|
                0 <= k < n - 1 && (#[trigger] inbox[k]).0 == to && sketch_lacks(inbox[k].1, d);
            assert(inbox[k].0 == to);
        }
        if lacks(inbox, n, to, d) && !here {
            let k = choose|k: int|
                0 <= k < n && (#[trigger] inbox[k]).0 == to && sketch_lacks(inbox[k].1, d);
            assert(k < n - 1);
            assert(inbox[k].0 == to);
            assert(lacks(inbox, (n - 1) as nat, to, d));
        }
        if here {
            assert(inbox[n - 1].0 == to);
            assert(lacks(inbox, n, to, d));
        }
    } else {
        assert(!lacks(inbox, 0, to, e.digest));
    }
}

/// Whatever came along with it, every sketch is answered: pending for a node afterwards are
/// exactly the elements of the replica whose digests the filter or the code of a sketch of the
/// node lacks.
pub proof fn lemma_sketches_are_answered(
    p: StaticBfIbltProtocol,
    site: Site,
    inbox: Seq<(usize, Packet)>,
    to: usize,
    e: Element,
)
    requires
        site.set.finite(),
    ensures
        protocols::pends(protocols::contents(p.receives(site, inbox).carry), to, e)
            <==> site.set.contains(e) && lacks(inbox, inbox.len(), to, e.digest),
{
    lemma_pending(site, inbox, inbox.len(), to, e);
}

} // verus!
