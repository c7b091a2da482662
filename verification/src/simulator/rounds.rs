//! What holds of every round, whatever the protocol: replicas forget nothing and invent
//! nothing, messages only go to neighbours, and everything sent is billed to its sender.
//!
//! And what rounds lead to: full state transfer converges within the topology's diameter, and
//! the protocols that sketch pairwise reconcile neighbours in two rounds and converge in every
//! topology, as long as equal digests belong to equal elements.

use crate::simulator::algorithms::hashing::HashKey;
use crate::simulator::algorithms::rateless_bloom::expected_cost;
use crate::simulator::algorithms::rateless_bloom::Slices;
use crate::simulator::algorithms::riblt;
use crate::simulator::algorithms::riblt::Coded;
use crate::simulator::counter;
use crate::simulator::engine;
use crate::simulator::engine::{AnyProtocol, Member, Setting};
use crate::simulator::network;
use crate::simulator::network::{Packet, Traffic};
use crate::simulator::protocols;
use crate::simulator::protocols::bf_iblt::StaticBfIbltProtocol;
use crate::simulator::protocols::full_state_transfer;
use crate::simulator::protocols::hybrid_rbf_riblt::HybridRbfRibltProtocol;
use crate::simulator::protocols::multi_replica;
use crate::simulator::protocols::multi_replica::MultiReplicaProtocol;
use crate::simulator::protocols::riblt::RibltProtocol;
use crate::simulator::protocols::{Carry, Gathered, Protocol, Site, OWN_KEY};
use crate::simulator::replica;
use crate::simulator::replica::Element;
use crate::simulator::topology;
use crate::simulator::topology::TopologyKind;
use vstd::prelude::*;

verus! {

/// Every listed element belongs to `u`.
pub open spec fn elements_within(els: Seq<Element>, u: Set<Element>) -> bool {
    forall|i: int| 0 <= i < els.len() ==> u.contains(#[trigger] els[i])
}

/// Every element that a message holds belongs to `u`.
pub open spec fn packet_within(p: Packet, u: Set<Element>) -> bool {
    match p {
        Packet::Elements(els, _) => elements_within(els, u),
        _ => true,
    }
}

/// Every element in the messages belongs to `u`.
pub open spec fn inbox_within(inbox: Seq<(usize, Packet)>, u: Set<Element>) -> bool {
    forall|i: int| 0 <= i < inbox.len() ==> packet_within((#[trigger] inbox[i]).1, u)
}

/// Every element that is pending for a neighbour belongs to `u`.
pub open spec fn carry_within(c: Carry, u: Set<Element>) -> bool {
    forall|i: int|
        0 <= i < c.len() ==> ((#[trigger] c[i]).0 == OWN_KEY || elements_within(c[i].1, u))
}

/// What the replicas hold and have pending belongs to `u`.
pub open spec fn members_within(members: Seq<Member>, u: Set<Element>) -> bool {
    forall|i: int|
        0 <= i < members.len() ==> (#[trigger] members[i]).set.subset_of(u) && carry_within(
            protocols::contents(members[i].carry),
            u,
        )
}

/// There is a replica for each node, its set is finite, and what it carries is for its
/// neighbours.
pub open spec fn crew(kind: TopologyKind, nodes: nat, members: Seq<Member>) -> bool {
    &&& members.len() == nodes <= usize::MAX
    &&& forall|i: int|
        0 <= i < members.len() ==> (#[trigger] members[i]).set.finite() && protocols::carry_wf(
            members[i].carry,
            topology::rows_of(kind, nodes),
            i,
        )
}

/// A replica of the topology with a finite set.
pub open spec fn site_ok(site: Site) -> bool {
    site.id < site.nodes <= usize::MAX && site.set.finite()
}

/// The neighbour lists around a replica.
pub open spec fn links(site: Site) -> Seq<Seq<usize>> {
    topology::rows_of(site.kind, site.nodes)
}

/// The messages come from neighbours.
pub open spec fn inbox_ok(site: Site, inbox: Seq<(usize, Packet)>) -> bool {
    network::inbox_wf(links(site), site.id as int, inbox)
}

proof fn lemma_filter_within(s: Seq<Element>, keep: spec_fn(Element) -> bool, u: Set<Element>)
    requires
        elements_within(s, u),
    ensures
        elements_within(s.filter(keep), u),
    decreases s.len(),
{
    reveal(Seq::filter);
    if s.len() > 0 {
        let rest = s.drop_last();
        assert forall|i: int| 0 <= i < rest.len() implies u.contains(#[trigger] rest[i]) by {
            assert(rest[i] == s[i]);
        }
        lemma_filter_within(rest, keep, u);
        assert(u.contains(s[s.len() - 1]));
    }
}

proof fn lemma_listing_within(s: Set<Element>, u: Set<Element>)
    requires
        s.finite(),
        s.subset_of(u),
    ensures
        elements_within(replica::listing(s), u),
{
    replica::lemma_has_listing(s);
    let l = replica::listing(s);
    assert forall|i: int| 0 <= i < l.len() implies u.contains(#[trigger] l[i]) by {
        assert(l.to_set().contains(l[i]));
    }
}

proof fn lemma_listed_set_within(els: Seq<Element>, u: Set<Element>)
    requires
        elements_within(els, u),
    ensures
        els.to_set().subset_of(u),
{
    assert forall|e: Element| els.to_set().contains(e) implies u.contains(e) by {
        let i = choose|i: int| 0 <= i < els.len() && els[i] == e;
        assert(u.contains(els[i]));
    }
}

/// What receiving keeps true of what it has gathered: the set has grown, and what is pending
/// is for neighbours.
spec fn gathered_ok(site: Site, g: Gathered) -> bool {
    &&& site.set.subset_of(g.next)
    &&& g.next.finite()
    &&& protocols::keys_distinct(g.pending)
    &&& protocols::keys_reachable(g.pending, links(site), site.id as int)
}

spec fn gathered_within(g: Gathered, u: Set<Element>) -> bool {
    g.next.subset_of(u) && carry_within(g.pending, u)
}

proof fn lemma_joined_ok(site: Site, c: Carry, from: usize, back: Seq<Element>, u: Set<Element>)
    requires
        site_ok(site),
        protocols::keys_distinct(c),
        protocols::keys_reachable(c, links(site), site.id as int),
        network::from_neighbor(links(site), site.id as int, from),
    ensures
        protocols::keys_distinct(protocols::joined(c, from, back)),
        protocols::keys_reachable(protocols::joined(c, from, back), links(site), site.id as int),
        carry_within(c, u) && elements_within(back, u) ==> carry_within(
            protocols::joined(c, from, back),
            u,
        ),
{
    topology::lemma_topology_is_graph(site.kind, site.nodes);
    let rows = links(site);
    assert(rows[site.id as int].contains(from)) by {
        assert(rows[from as int].contains(site.id));
    }
    let h = protocols::joined(c, from, back);
    assert forall|i: int| 0 <= i < h.len() implies ((#[trigger] h[i]).0 == OWN_KEY
        || rows[site.id as int].contains(h[i].0)) by {
        if i < c.len() {
            assert(h[i].0 == c[i].0);
        }
    }
    assert forall|i: int, j: int| 0 <= i < j < h.len() implies (#[trigger] h[i]).0 != (
    #[trigger] h[j]).0 by {
        assert(h[i].0 == c[i].0);
        if j < c.len() {
            assert(h[j].0 == c[j].0);
        }
    }
    if carry_within(c, u) && elements_within(back, u) {
        assert forall|i: int| 0 <= i < h.len() implies ((#[trigger] h[i]).0 == OWN_KEY
            || elements_within(h[i].1, u)) by {
            if i < c.len() {
                let old_list = c[i].1;
                if c[i].0 != OWN_KEY {
                    assert(elements_within(old_list, u));
                    assert forall|k: int| 0 <= k < (old_list + back).len() implies u.contains(
                        #[trigger] (old_list + back)[k],
                    ) by {
                        if k < old_list.len() {
                            assert(u.contains(old_list[k]));
                        } else {
                            assert(u.contains(back[k - old_list.len()]));
                        }
                    }
                }
            }
        }
    }
}

proof fn lemma_with(
    site: Site,
    g: Gathered,
    from: usize,
    new: Set<Element>,
    back: Seq<Element>,
    left: Packet,
    matches: int,
    u: Set<Element>,
)
    requires
        site_ok(site),
        gathered_ok(site, g),
        new.finite(),
        network::from_neighbor(links(site), site.id as int, from),
    ensures
        gathered_ok(site, g.with(from, new, back, left, matches)),
        gathered_within(g, u) && new.subset_of(u) && elements_within(back, u) ==> gathered_within(
            g.with(from, new, back, left, matches),
            u,
        ),
{
    if back.len() > 0 {
        lemma_joined_ok(site, g.pending, from, back, u);
    }
}

proof fn lemma_start(site: Site, u: Set<Element>)
    requires
        site_ok(site),
    ensures
        gathered_ok(site, Gathered::start(site.set)),
        site.set.subset_of(u) ==> gathered_within(Gathered::start(site.set), u),
{
}

proof fn lemma_elements_finite(els: Seq<Element>)
    ensures
        els.to_set().finite(),
{
    vstd::seq_lib::seq_to_set_is_finite(els);
}

proof fn lemma_riblt_gathers(site: Site, inbox: Seq<(usize, Packet)>, n: nat, u: Set<Element>)
    requires
        site_ok(site),
        inbox_ok(site, inbox),
        n <= inbox.len(),
    ensures
        gathered_ok(site, RibltProtocol::gathered(site, inbox, n)),
        site.set.subset_of(u) && inbox_within(inbox, u) ==> gathered_within(
            RibltProtocol::gathered(site, inbox, n),
            u,
        ),
    decreases n,
{
    if n == 0 {
        lemma_start(site, u);
    } else {
        lemma_riblt_gathers(site, inbox, (n - 1) as nat, u);
        let g = RibltProtocol::gathered(site, inbox, (n - 1) as nat);
        let (from, p) = inbox[n - 1];
        assert(network::from_neighbor(links(site), site.id as int, inbox[n - 1].0));
        if inbox_within(inbox, u) {
            assert(packet_within(inbox[n - 1].1, u));
        }
        if site.set.subset_of(u) {
            lemma_listing_within(site.set, u);
        }
        match p {
            Packet::Elements(els, marker) => {
                lemma_elements_finite(els);
                if elements_within(els, u) {
                    lemma_listed_set_within(els, u);
                }
                lemma_with(
                    site,
                    g,
                    from,
                    els.to_set(),
                    Seq::empty(),
                    Packet::Elements(Seq::empty(), marker),
                    0,
                    u,
                );
            },
            Packet::Riblt(coded) => {
                let d = coded.against(replica::digests_of(site.set));
                let back = protocols::with_digests(replica::listing(site.set), d.remote_only);
                if site.set.subset_of(u) {
                    lemma_filter_within(
                        replica::listing(site.set),
                        |e: Element| d.remote_only.contains(e.digest),
                        u,
                    );
                }
                lemma_with(site, g, from, Set::empty(), back, Packet::Riblt(d), 0, u);
            },
            other => {
                lemma_with(site, g, from, Set::empty(), Seq::empty(), other, 0, u);
            },
        }
    }
}

proof fn lemma_bf_gathers(site: Site, inbox: Seq<(usize, Packet)>, n: nat, u: Set<Element>)
    requires
        site_ok(site),
        inbox_ok(site, inbox),
        n <= inbox.len(),
    ensures
        gathered_ok(site, StaticBfIbltProtocol::gathered(site, inbox, n)),
        site.set.subset_of(u) && inbox_within(inbox, u) ==> gathered_within(
            StaticBfIbltProtocol::gathered(site, inbox, n),
            u,
        ),
    decreases n,
{
    if n == 0 {
        lemma_start(site, u);
    } else {
        lemma_bf_gathers(site, inbox, (n - 1) as nat, u);
        let g = StaticBfIbltProtocol::gathered(site, inbox, (n - 1) as nat);
        let h = StaticBfIbltProtocol::gathered(site, inbox, n);
        let (from, p) = inbox[n - 1];
        assert(network::from_neighbor(links(site), site.id as int, inbox[n - 1].0));
        if inbox_within(inbox, u) {
            assert(packet_within(inbox[n - 1].1, u));
        }
        if site.set.subset_of(u) {
            lemma_listing_within(site.set, u);
        }
        match p {
            Packet::Elements(els, marker) => {
                lemma_elements_finite(els);
                if elements_within(els, u) {
                    lemma_listed_set_within(els, u);
                }
                lemma_with(
                    site,
                    g,
                    from,
                    els.to_set(),
                    Seq::empty(),
                    Packet::Elements(Seq::empty(), marker),
                    0,
                    u,
                );
            },
            Packet::BloomRiblt { filter, riblt } => {
                let digests = replica::digests_of(site.set);
                let candidates = protocols::bf_iblt::had(filter, digests);
                let wrong = protocols::bf_iblt::exposed(riblt, candidates);
                let listed = protocols::bf_iblt::lacked(filter, digests) + wrong;
                if site.set.subset_of(u) {
                    lemma_filter_within(
                        replica::listing(site.set),
                        |e: Element| listed.contains(e.digest),
                        u,
                    );
                }
                lemma_with(
                    site,
                    g,
                    from,
                    Set::empty(),
                    protocols::with_digests(replica::listing(site.set), listed),
                    Packet::BloomRiblt {
                        filter,
                        riblt: protocols::bf_iblt::checked(riblt, candidates),
                    },
                    wrong.len() as int,
                    u,
                );
            },
            other => {
                lemma_with(site, g, from, Set::empty(), Seq::empty(), other, 0, u);
            },
        }
    }
}

proof fn lemma_hybrid_gathers(site: Site, inbox: Seq<(usize, Packet)>, n: nat, u: Set<Element>)
    requires
        site_ok(site),
        inbox_ok(site, inbox),
        n <= inbox.len(),
    ensures
        gathered_ok(site, HybridRbfRibltProtocol::gathered(site, inbox, n)),
        site.set.subset_of(u) && inbox_within(inbox, u) ==> gathered_within(
            HybridRbfRibltProtocol::gathered(site, inbox, n),
            u,
        ),
    decreases n,
{
    if n == 0 {
        lemma_start(site, u);
    } else {
        lemma_hybrid_gathers(site, inbox, (n - 1) as nat, u);
        let g = HybridRbfRibltProtocol::gathered(site, inbox, (n - 1) as nat);
        let (from, p) = inbox[n - 1];
        assert(network::from_neighbor(links(site), site.id as int, inbox[n - 1].0));
        if inbox_within(inbox, u) {
            assert(packet_within(inbox[n - 1].1, u));
        }
        if site.set.subset_of(u) {
            lemma_listing_within(site.set, u);
        }
        match p {
            Packet::Elements(els, marker) => {
                lemma_elements_finite(els);
                if elements_within(els, u) {
                    lemma_listed_set_within(els, u);
                }
                lemma_with(
                    site,
                    g,
                    from,
                    els.to_set(),
                    Seq::empty(),
                    Packet::Elements(Seq::empty(), marker),
                    0,
                    u,
                );
            },
            Packet::RatelessBloomRiblt { slices, riblt } => {
                let (grown, (common, missing)) = protocols::hybrid_rbf_riblt::sifted(
                    slices,
                    replica::digests_of(site.set),
                );
                let listed = missing + protocols::bf_iblt::exposed(riblt, common);
                if site.set.subset_of(u) {
                    lemma_filter_within(
                        replica::listing(site.set),
                        |e: Element| listed.contains(e.digest),
                        u,
                    );
                }
                lemma_with(
                    site,
                    g,
                    from,
                    Set::empty(),
                    protocols::with_digests(replica::listing(site.set), listed),
                    Packet::RatelessBloomRiblt {
                        slices: grown,
                        riblt: protocols::bf_iblt::checked(riblt, common),
                    },
                    0,
                    u,
                );
            },
            other => {
                lemma_with(site, g, from, Set::empty(), Seq::empty(), other, 0, u);
            },
        }
    }
}

proof fn lemma_multi_gathers(site: Site, inbox: Seq<(usize, Packet)>, n: nat, u: Set<Element>)
    requires
        site_ok(site),
        inbox_ok(site, inbox),
        n <= inbox.len(),
    ensures
        gathered_ok(site, MultiReplicaProtocol::watched(site, inbox, n).gathered),
        site.set.subset_of(u) && inbox_within(inbox, u) ==> gathered_within(
            MultiReplicaProtocol::watched(site, inbox, n).gathered,
            u,
        ),
    decreases n,
{
    if n == 0 {
        lemma_start(site, u);
    } else {
        lemma_multi_gathers(site, inbox, (n - 1) as nat, u);
        let g = MultiReplicaProtocol::watched(site, inbox, (n - 1) as nat).gathered;
        let (from, p) = inbox[n - 1];
        assert(network::from_neighbor(links(site), site.id as int, inbox[n - 1].0));
        if inbox_within(inbox, u) {
            assert(packet_within(inbox[n - 1].1, u));
        }
        if site.set.subset_of(u) {
            lemma_listing_within(site.set, u);
        }
        match p {
            Packet::Elements(els, marker) => {
                lemma_elements_finite(els);
                if elements_within(els, u) {
                    lemma_listed_set_within(els, u);
                }
                lemma_with(
                    site,
                    g,
                    from,
                    els.to_set(),
                    Seq::empty(),
                    Packet::Elements(Seq::empty(), marker),
                    0,
                    u,
                );
            },
            Packet::Bloom(filter) => {
                if site.set.subset_of(u) {
                    lemma_filter_within(
                        replica::listing(site.set),
                        |e: Element|
                            !filter.has(e.digest.hash_writes()),
                        u,
                    );
                }
                let back = multi_replica::not_in(filter, replica::listing(site.set));
                lemma_with(site, g, from, Set::empty(), back, p, 0, u);
                lemma_joined_ok(site, g.pending, from, back, u);
            },
            other => {
                lemma_with(site, g, from, Set::empty(), Seq::empty(), other, 0, u);
            },
        }
    }
}

proof fn lemma_merged(site: Site, inbox: Seq<(usize, Packet)>, n: nat, u: Set<Element>)
    requires
        site_ok(site),
        n <= inbox.len(),
    ensures
        site.set.subset_of(full_state_transfer::merged(site.set, inbox, n)),
        full_state_transfer::merged(site.set, inbox, n).finite(),
        site.set.subset_of(u) && inbox_within(inbox, u) ==> full_state_transfer::merged(
            site.set,
            inbox,
            n,
        ).subset_of(u),
    decreases n,
{
    if n > 0 {
        lemma_merged(site, inbox, (n - 1) as nat, u);
        if inbox_within(inbox, u) {
            assert(packet_within(inbox[n - 1].1, u));
        }
        match inbox[n - 1].1 {
            Packet::Elements(els, marker) => {
                lemma_elements_finite(els);
                if elements_within(els, u) {
                    lemma_listed_set_within(els, u);
                }
            },
            _ => {},
        }
    }
}

/// Whatever a replica receives from its neighbours, it keeps every element it had, and what
/// it leaves for the next round is for its neighbours. It comes to hold, and queues, only
/// elements that it had or that were sent to it.
pub proof fn lemma_receives(
    p: AnyProtocol,
    site: Site,
    inbox: Seq<(usize, Packet)>,
    u: Set<Element>,
)
    requires
        site_ok(site),
        inbox_ok(site, inbox),
    ensures
        site.set.subset_of(p.receives(site, inbox).next),
        p.receives(site, inbox).next.finite(),
        protocols::carry_wf(p.receives(site, inbox).carry, links(site), site.id as int),
        site.set.subset_of(u) && inbox_within(inbox, u) ==> p.receives(site, inbox).next.subset_of(
            u,
        ) && carry_within(protocols::contents(p.receives(site, inbox).carry), u),
{
    let n = inbox.len();
    match p {
        AnyProtocol::FullStateTransfer(_) => {
            lemma_merged(site, inbox, n, u);
        },
        AnyProtocol::Riblt(_) => {
            lemma_riblt_gathers(site, inbox, n, u);
        },
        AnyProtocol::HybridRbfRiblt(_) => {
            lemma_hybrid_gathers(site, inbox, n, u);
        },
        AnyProtocol::StaticBfIblt(_) => {
            lemma_bf_gathers(site, inbox, n, u);
        },
        AnyProtocol::MultiReplica(_) => {
            lemma_multi_gathers(site, inbox, n, u);
            let w = MultiReplicaProtocol::watched(site, inbox, n);
            let own = multi_replica::next_own(w, site);
            let before = w.gathered.pending;
            let after = protocols::put(before, OWN_KEY, own);
            assert forall|i: int| 0 <= i < after.len() implies (#[trigger] after[i]).0 == OWN_KEY
                || (i < before.len() && after[i] == before[i]) by {}
            assert forall|i: int, j: int| 0 <= i < j < after.len() implies (#[trigger] after[i]).0
                != (#[trigger] after[j]).0 by {
                assert(after[i].0 == before[i].0);
                if j < before.len() {
                    assert(after[j].0 == before[j].0);
                }
            }
        },
    }
}

/// The messages are addressed to neighbours.
pub open spec fn to_neighbors(site: Site, messages: Seq<(usize, Packet)>) -> bool {
    forall|i: int| 0 <= i < messages.len() ==> site.neighbors().contains((#[trigger] messages[i]).0)
}

proof fn lemma_to_all(site: Site, packet: Packet, u: Set<Element>)
    ensures
        to_neighbors(site, full_state_transfer::to_all(site.neighbors(), packet)),
        packet_within(packet, u) ==> inbox_within(
            full_state_transfer::to_all(site.neighbors(), packet),
            u,
        ),
{
    let all = full_state_transfer::to_all(site.neighbors(), packet);
    assert forall|i: int| 0 <= i < all.len() implies site.neighbors().contains(
        (#[trigger] all[i]).0,
    ) by {
        assert(all[i].0 == site.neighbors()[i]);
    }
}

proof fn lemma_deliveries(site: Site, c: Carry, u: Set<Element>)
    requires
        protocols::keys_reachable(c, links(site), site.id as int),
    ensures
        to_neighbors(site, protocols::deliveries(c)),
        carry_within(c, u) ==> inbox_within(protocols::deliveries(c), u),
    decreases c.len(),
{
    if c.len() > 0 {
        let rest = c.drop_last();
        assert forall|i: int| 0 <= i < rest.len() implies ((#[trigger] rest[i]).0 == OWN_KEY
            || links(site)[site.id as int].contains(rest[i].0)) by {
            assert(rest[i] == c[i]);
        }
        if carry_within(c, u) {
            assert forall|i: int| 0 <= i < rest.len() implies ((#[trigger] rest[i]).0 == OWN_KEY
                || elements_within(rest[i].1, u)) by {
                assert(rest[i] == c[i]);
            }
        }
        lemma_deliveries(site, rest, u);
        let last = c[c.len() - 1];
        assert(last.0 == OWN_KEY || links(site)[site.id as int].contains(last.0));
    }
}

proof fn lemma_replies(site: Site, c: Carry, u: Set<Element>)
    requires
        protocols::keys_reachable(c, links(site), site.id as int),
    ensures
        to_neighbors(site, multi_replica::replies(c, links(site), site.id)),
        carry_within(c, u) ==> inbox_within(
            multi_replica::replies(c, links(site), site.id),
            u,
        ),
    decreases c.len(),
{
    if c.len() > 0 {
        let rest = c.drop_last();
        assert forall|i: int| 0 <= i < rest.len() implies ((#[trigger] rest[i]).0 == OWN_KEY
            || links(site)[site.id as int].contains(rest[i].0)) by {
            assert(rest[i] == c[i]);
        }
        if carry_within(c, u) {
            assert forall|i: int| 0 <= i < rest.len() implies ((#[trigger] rest[i]).0 == OWN_KEY
                || elements_within(rest[i].1, u)) by {
                assert(rest[i] == c[i]);
            }
        }
        lemma_replies(site, rest, u);
        let last = c[c.len() - 1];
        assert(last.0 == OWN_KEY || links(site)[site.id as int].contains(last.0));
    }
}

/// Replicas only write to their neighbours, and only ship elements that they hold or have
/// pending.
pub proof fn lemma_sends(p: AnyProtocol, site: Site, carry: Option<Carry>, u: Set<Element>)
    requires
        site_ok(site),
        protocols::carry_wf(carry, links(site), site.id as int),
    ensures
        to_neighbors(site, p.sends(site, carry)),
        site.set.subset_of(u) && carry_within(protocols::contents(carry), u) ==> inbox_within(
            p.sends(site, carry),
            u,
        ),
{
    let pending = protocols::contents(carry);
    lemma_deliveries(site, pending, u);
    lemma_replies(site, pending, u);
    let digests = replica::digests_of(site.set);
    match p {
        AnyProtocol::FullStateTransfer(_) => {
            if site.set.subset_of(u) {
                lemma_listing_within(site.set, u);
            }
            lemma_to_all(site, Packet::Elements(replica::listing(site.set), None), u);
        },
        AnyProtocol::Riblt(_) => {
            lemma_to_all(
                site,
                Packet::Riblt(Coded::of(digests)),
                u,
            );
        },
        AnyProtocol::HybridRbfRiblt(h) => {
            lemma_to_all(
                site,
                Packet::RatelessBloomRiblt {
                    slices: Slices::start(
                        digests,
                        protocols::hybrid_rbf_riblt::slice_bits(h.ratio(), digests.len()),
                    ),
                    riblt: Coded::of(digests),
                },
                u,
            );
        },
        AnyProtocol::StaticBfIblt(b) => {
            lemma_to_all(
                site,
                Packet::BloomRiblt {
                    filter: protocols::filter_of(digests, b.rate().neg_ln()),
                    riblt: Coded::of(digests),
                },
                u,
            );
        },
        AnyProtocol::MultiReplica(_) => {
            let packet = Packet::Bloom(MultiReplicaProtocol::sketch(site.set, site.kind));
            lemma_to_all(site, packet, u);
            multi_replica::lemma_sketches_to_neighbors(site, multi_replica::own_power(pending));
        },
    }
}

/// What a network keeps true in the course of a round.
spec fn traffic_ok(t: Traffic<Packet>, rows: Seq<Seq<usize>>) -> bool {
    &&& t.links == rows
    &&& t.inboxes.len() == rows.len()
    &&& t.node_state.len() == rows.len()
    &&& t.node_metadata.len() == rows.len()
    &&& forall|i: int|
        0 <= i < rows.len() ==> network::inbox_wf(rows, i, #[trigger] t.inboxes[i])
}

spec fn traffic_within(t: Traffic<Packet>, u: Set<Element>) -> bool {
    forall|i: int| 0 <= i < t.inboxes.len() ==> inbox_within(#[trigger] t.inboxes[i], u)
}

proof fn lemma_delivered(
    t: Traffic<Packet>,
    site: Site,
    messages: Seq<(usize, Packet)>,
    u: Set<Element>,
)
    requires
        site_ok(site),
        traffic_ok(t, links(site)),
        to_neighbors(site, messages),
    ensures
        traffic_ok(protocols::delivered(t, site.id as int, messages), links(site)),
        traffic_within(t, u) && inbox_within(messages, u) ==> traffic_within(
            protocols::delivered(t, site.id as int, messages),
            u,
        ),
    decreases messages.len(),
{
    topology::lemma_topology_is_graph(site.kind, site.nodes);
    if messages.len() > 0 {
        let rest = messages.drop_last();
        assert forall|i: int| 0 <= i < rest.len() implies site.neighbors().contains(
            (#[trigger] rest[i]).0,
        ) by {
            assert(rest[i] == messages[i]);
        }
        if inbox_within(messages, u) {
            assert forall|i: int| 0 <= i < rest.len() implies packet_within(
                (#[trigger] rest[i]).1,
                u,
            ) by {
                assert(rest[i] == messages[i]);
            }
            assert(packet_within(messages[messages.len() - 1].1, u));
        }
        lemma_delivered(t, site, rest, u);
        let before = protocols::delivered(t, site.id as int, rest);
        let after = protocols::delivered(t, site.id as int, messages);
        let (to, p) = messages[messages.len() - 1];
        assert(links(site)[site.id as int].contains(to));
        assert forall|i: int| 0 <= i < links(site).len() implies network::inbox_wf(
            links(site),
            i,
            #[trigger] after.inboxes[i],
        ) by {
            assert(network::inbox_wf(links(site), i, before.inboxes[i]));
            assert forall|k: int| 0 <= k < after.inboxes[i].len() implies network::from_neighbor(
                links(site),
                i,
                (#[trigger] after.inboxes[i][k]).0,
            ) by {
                if k < before.inboxes[i].len() {
                    assert(after.inboxes[i][k] == before.inboxes[i][k]);
                }
            }
        }
        if traffic_within(before, u) && packet_within(p, u) {
            assert forall|i: int| 0 <= i < after.inboxes.len() implies inbox_within(
                #[trigger] after.inboxes[i],
                u,
            ) by {
                assert(inbox_within(before.inboxes[i], u));
                assert forall|k: int| 0 <= k < after.inboxes[i].len() implies packet_within(
                    (#[trigger] after.inboxes[i][k]).1,
                    u,
                ) by {
                    if k < before.inboxes[i].len() {
                        assert(after.inboxes[i][k] == before.inboxes[i][k]);
                    }
                }
            }
        }
    }
}

proof fn lemma_sent(
    setting: Setting<AnyProtocol>,
    members: Seq<Member>,
    k: nat,
    u: Set<Element>,
)
    requires
        crew(setting.kind, setting.nodes, members),
        k <= setting.nodes,
    ensures
        traffic_ok(setting.sent(members, k), topology::rows_of(setting.kind, setting.nodes)),
        members_within(members, u) ==> traffic_within(setting.sent(members, k), u),
    decreases k,
{
    topology::lemma_topology_is_graph(setting.kind, setting.nodes);
    if k > 0 {
        lemma_sent(setting, members, (k - 1) as nat, u);
        let site = setting.site(members, k - 1);
        assert(members[k - 1].set.finite());
        lemma_sends(setting.protocol, site, members[k - 1].carry, u);
        lemma_delivered(
            setting.sent(members, (k - 1) as nat),
            site,
            setting.protocol.sends(site, members[k - 1].carry),
            u,
        );
    }
}

/// In a round no replica loses an element, and none comes to hold one that no replica held
/// or had pending. What they carry into the next round is again for their neighbours.
pub proof fn lemma_round(setting: Setting<AnyProtocol>, members: Seq<Member>, u: Set<Element>)
    requires
        crew(setting.kind, setting.nodes, members),
    ensures
        crew(setting.kind, setting.nodes, setting.round(members)),
        forall|i: int|
            0 <= i < members.len() ==> (#[trigger] members[i]).set.subset_of(
                setting.round(members)[i].set,
            ),
        members_within(members, u) ==> members_within(setting.round(members), u),
{
    topology::lemma_topology_is_graph(setting.kind, setting.nodes);
    lemma_sent(setting, members, setting.nodes, u);
    let sent = setting.sent(members, setting.nodes);
    let next = setting.round(members);
    assert forall|i: int| 0 <= i < members.len() implies {
        &&& (#[trigger] next[i]).set.finite()
        &&& protocols::carry_wf(
            next[i].carry,
            topology::rows_of(setting.kind, setting.nodes),
            i,
        )
        &&& members[i].set.subset_of(next[i].set)
        &&& members_within(members, u) ==> next[i].set.subset_of(u) && carry_within(
            protocols::contents(next[i].carry),
            u,
        )
    } by {
        let site = setting.site(members, i);
        assert(members[i].set.finite());
        assert(network::inbox_wf(links(site), i, sent.inboxes[i]));
        if members_within(members, u) {
            assert(inbox_within(sent.inboxes[i], u));
        }
        lemma_receives(setting.protocol, site, sent.inboxes[i], u);
    }
    assert forall|i: int| 0 <= i < members.len() implies (#[trigger] members[i]).set.subset_of(
        next[i].set,
    ) by {
        assert(next[i].set.finite());
    }
}

/// Once all replicas hold the target, and nothing else is pending, they hold it for good.
pub proof fn lemma_convergence_lasts(
    setting: Setting<AnyProtocol>,
    members: Seq<Member>,
    target: Set<Element>,
)
    requires
        crew(setting.kind, setting.nodes, members),
        members_within(members, target),
        engine::all_hold(members, target),
    ensures
        engine::all_hold(setting.round(members), target),
        members_within(setting.round(members), target),
{
    lemma_round(setting, members, target);
    let next = setting.round(members);
    assert forall|i: int| 0 <= i < next.len() implies (#[trigger] next[i]).set == target by {
        assert(members[i].set == target);
        assert(members[i].set.subset_of(next[i].set));
        assert(next[i].set.subset_of(target));
        assert(next[i].set =~= target);
    }
}

/// A run ends with all replicas holding the target or at the cap, and not later. On the way
/// no replica loses an element or comes to hold a foreign one.
pub proof fn lemma_run(
    setting: Setting<AnyProtocol>,
    members: Seq<Member>,
    target: Set<Element>,
    rounds: nat,
    cap: nat,
    u: Set<Element>,
)
    requires
        crew(setting.kind, setting.nodes, members),
    ensures
        ({
            let (end, n) = setting.finished(members, target, rounds, cap);
            &&& engine::all_hold(end, target) || n >= cap
            &&& rounds <= n
            &&& n <= cap || n == rounds
            &&& end.len() == members.len()
            &&& crew(setting.kind, setting.nodes, end)
            &&& forall|i: int|
                0 <= i < members.len() ==> (#[trigger] members[i]).set.subset_of(end[i].set)
            &&& members_within(members, u) ==> members_within(end, u)
        }),
    decreases cap - rounds,
{
    if engine::all_hold(members, target) || rounds >= cap {
    } else {
        lemma_round(setting, members, u);
        let next = setting.round(members);
        lemma_run(setting, next, target, rounds + 1, cap, u);
        let (end, n) = setting.finished(members, target, rounds, cap);
        assert forall|i: int| 0 <= i < members.len() implies (
        #[trigger] members[i]).set.subset_of(end[i].set) by {
            assert(members[i].set.subset_of(next[i].set));
            assert(next[i].set.subset_of(end[i].set));
        }
    }
}

/// The payload bytes of a list of messages.
pub open spec fn payloads(messages: Seq<(usize, Packet)>) -> int
    decreases messages.len(),
{
    if messages.len() == 0 {
        0
    } else {
        payloads(messages.drop_last()) + messages.last().1.state_cost()
    }
}

/// Those of a sender's messages that go to one node, as they lie in its inbox.
pub open spec fn addressed(messages: Seq<(usize, Packet)>, from: int, to: int) -> Seq<
    (usize, Packet),
>
    decreases messages.len(),
{
    if messages.len() == 0 {
        Seq::empty()
    } else if messages.last().0 == to {
        addressed(messages.drop_last(), from, to).push((from as usize, messages.last().1))
    } else {
        addressed(messages.drop_last(), from, to)
    }
}

/// Nothing is sent for free, and nothing in another's name: sending adds the payloads of all
/// messages to the total and to the account of the sender, and to no other; every message
/// arrives, in order and under the name of its sender.
pub proof fn lemma_sending_is_billed(
    t: Traffic<Packet>,
    from: int,
    messages: Seq<(usize, Packet)>,
)
    requires
        0 <= from < t.node_state.len(),
        forall|i: int| 0 <= i < messages.len() ==> (#[trigger] messages[i]).0 < t.inboxes.len(),
    ensures
        ({
            let after = protocols::delivered(t, from, messages);
            &&& after.links == t.links
            &&& after.state == counter::wrap_u64(t.state + payloads(messages))
            &&& after.node_state == t.node_state.update(
                from,
                counter::wrap_u64(t.node_state[from] + payloads(messages)),
            )
            &&& after.metadata == t.metadata
            &&& after.node_metadata == t.node_metadata
            &&& after.inboxes.len() == t.inboxes.len()
            &&& forall|to: int|
                0 <= to < t.inboxes.len() ==> #[trigger] after.inboxes[to] == t.inboxes[to]
                    + addressed(messages, from, to)
        }),
    decreases messages.len(),
{
    let after = protocols::delivered(t, from, messages);
    if messages.len() == 0 {
        assert(after.node_state =~= t.node_state.update(
            from,
            counter::wrap_u64(t.node_state[from] + payloads(messages)),
        ));
        assert forall|to: int| 0 <= to < t.inboxes.len() implies #[trigger] after.inboxes[to]
            == t.inboxes[to] + addressed(messages, from, to) by {
            assert(after.inboxes[to] =~= t.inboxes[to] + addressed(messages, from, to));
        }
    } else {
        let rest = messages.drop_last();
        let (at, p) = messages[messages.len() - 1];
        assert forall|i: int| 0 <= i < rest.len() implies (#[trigger] rest[i]).0
            < t.inboxes.len() by {
            assert(rest[i] == messages[i]);
        }
        lemma_sending_is_billed(t, from, rest);
        let before = protocols::delivered(t, from, rest);
        counter::lemma_wrap_u64_add(t.state + payloads(rest), p.state_cost() as int);
        counter::lemma_wrap_u64_add(t.node_state[from] + payloads(rest), p.state_cost() as int);
        assert(after.node_state =~= t.node_state.update(
            from,
            counter::wrap_u64(t.node_state[from] + payloads(messages)),
        ));
        assert forall|to: int| 0 <= to < t.inboxes.len() implies #[trigger] after.inboxes[to]
            == t.inboxes[to] + addressed(messages, from, to) by {
            assert(before.inboxes[to] == t.inboxes[to] + addressed(rest, from, to));
            assert(after.inboxes[to] =~= t.inboxes[to] + addressed(messages, from, to));
        }
    }
}

/// What all replicas up to the `k`-th leave of their messages costs the sender `i`.
pub open spec fn metadata_due(
    setting: Setting<AnyProtocol>,
    members: Seq<Member>,
    k: nat,
    i: int,
) -> int
    decreases k,
{
    if k == 0 {
        0
    } else {
        metadata_due(setting, members, (k - 1) as nat, i) + network::billed_to(
            engine::packet_bills(setting.received(members, k - 1).inbox),
            i,
        )
    }
}

proof fn lemma_state_accounts(
    setting: Setting<AnyProtocol>,
    members: Seq<Member>,
    k: nat,
    i: int,
)
    requires
        crew(setting.kind, setting.nodes, members),
        k <= setting.nodes,
        0 <= i < setting.nodes,
    ensures
        setting.sent(members, k).node_state[i] == if i < k {
            counter::wrap_u64(
                payloads(setting.protocol.sends(setting.site(members, i), members[i].carry)),
            )
        } else {
            0u64
        },
        setting.sent(members, k).node_metadata[i] == 0,
    decreases k,
{
    topology::lemma_topology_is_graph(setting.kind, setting.nodes);
    if k > 0 {
        let full = members[k - 1].set;
        lemma_state_accounts(setting, members, (k - 1) as nat, i);
        lemma_sent(setting, members, (k - 1) as nat, full);
        let t = setting.sent(members, (k - 1) as nat);
        let site = setting.site(members, k - 1);
        assert(members[k - 1].set.finite());
        lemma_sends(setting.protocol, site, members[k - 1].carry, full);
        let messages = setting.protocol.sends(site, members[k - 1].carry);
        assert forall|j: int| 0 <= j < messages.len() implies (#[trigger] messages[j]).0
            < t.inboxes.len() by {
            assert(site.neighbors().contains(messages[j].0));
        }
        lemma_sending_is_billed(t, k - 1, messages);
    }
}

proof fn lemma_metadata_accounts(
    setting: Setting<AnyProtocol>,
    members: Seq<Member>,
    k: nat,
    i: int,
)
    requires
        crew(setting.kind, setting.nodes, members),
        k <= setting.nodes,
        0 <= i < setting.nodes,
    ensures
        setting.billed(members, k).node_metadata.len() == setting.nodes,
        setting.billed(members, k).node_metadata[i] == counter::wrap_u64(
            metadata_due(setting, members, k, i),
        ),
        setting.billed(members, k).node_state == setting.sent(members, setting.nodes).node_state,
    decreases k,
{
    topology::lemma_topology_is_graph(setting.kind, setting.nodes);
    if k == 0 {
        lemma_sent(setting, members, setting.nodes, members[i].set);
        lemma_state_accounts(setting, members, setting.nodes, i);
    } else {
        lemma_metadata_accounts(setting, members, (k - 1) as nat, i);
        counter::lemma_wrap_u64_add(
            metadata_due(setting, members, (k - 1) as nat, i),
            network::billed_to(
                engine::packet_bills(setting.received(members, k - 1).inbox),
                i,
            ),
        );
    }
}

/// What a round adds to the counters of a replica: the payloads of all messages that it sent,
/// and the metadata of all messages that others received from it, as they left them.
pub proof fn lemma_round_is_billed(
    setting: Setting<AnyProtocol>,
    members: Seq<Member>,
    i: int,
)
    requires
        crew(setting.kind, setting.nodes, members),
        0 <= i < members.len(),
    ensures
        ({
            let state = counter::wrap_u64(
                payloads(setting.protocol.sends(setting.site(members, i), members[i].carry)),
            );
            let metadata = counter::wrap_u64(metadata_due(setting, members, setting.nodes, i));
            let next = setting.round(members)[i];
            &&& next.state_sent == counter::wrap_usize(
                members[i].state_sent + counter::wrap_usize(state as int),
            )
            &&& next.metadata_sent == counter::wrap_usize(
                members[i].metadata_sent + counter::wrap_usize(metadata as int),
            )
        }),
{
    lemma_state_accounts(setting, members, setting.nodes, i);
    lemma_metadata_accounts(setting, members, setting.nodes, i);
}

proof fn lemma_addressed_to_all(neighbors: Seq<usize>, packet: Packet, from: int, to: int)
    ensures
        ({
            let a = addressed(full_state_transfer::to_all(neighbors, packet), from, to);
            &&& forall|x: int| 0 <= x < a.len() ==> (#[trigger] a[x]) == (from as usize, packet)
            &&& 0 <= to <= usize::MAX ==> (a.len() > 0 <==> neighbors.contains(to as usize))
        }),
    decreases neighbors.len(),
{
    let all = full_state_transfer::to_all(neighbors, packet);
    if neighbors.len() > 0 {
        let rest = neighbors.drop_last();
        assert(all.drop_last() =~= full_state_transfer::to_all(rest, packet));
        lemma_addressed_to_all(rest, packet, from, to);
        let (a, b) = (addressed(all, from, to), addressed(all.drop_last(), from, to));
        assert(all.last() == (neighbors.last(), packet));
        assert(a == if neighbors.last() == to {
            b.push((from as usize, packet))
        } else {
            b
        });
        if 0 <= to <= usize::MAX {
            if rest.contains(to as usize) {
                let x = choose|x: int| 0 <= x < rest.len() && rest[x] == to as usize;
                assert(neighbors[x] == to as usize);
            }
            if neighbors.contains(to as usize) && neighbors.last() != to as usize {
                let x = choose|x: int| 0 <= x < neighbors.len() && neighbors[x] == to as usize;
                assert(rest[x] == to as usize);
            }
            if neighbors.last() == to as usize {
                assert(neighbors[neighbors.len() - 1] == to as usize);
            }
        }
    }
}

/// The inbox of node `i` holds what each of the first `k` nodes that is its neighbour ships
/// when it has nothing to deliver, and nothing else.
spec fn holds_own(
    setting: Setting<AnyProtocol>,
    members: Seq<Member>,
    inbox: Seq<(usize, Packet)>,
    k: int,
    i: int,
) -> bool {
    let rows = topology::rows_of(setting.kind, setting.nodes);
    &&& forall|x: int|
        0 <= x < inbox.len() ==> {
            let m = #[trigger] inbox[x];
            &&& m.0 < k
            &&& rows[m.0 as int].contains(i as usize)
            &&& m.1 == own_packet(setting.protocol, members[m.0 as int].set, setting.kind)
        }
    &&& forall|j: int|
        0 <= j < k && #[trigger] rows[j].contains(i as usize) ==> has_sender(inbox, j)
}

/// The protocols that ship sketches to all neighbours in one round and deliver in the next.
pub open spec fn sketches_pairwise(p: AnyProtocol) -> bool {
    p is Riblt || p is StaticBfIblt || p is HybridRbfRiblt
}

/// Every replica ships its set, or a sketch of it, to all its neighbours.
spec fn all_ship_own(setting: Setting<AnyProtocol>, members: Seq<Member>) -> bool {
    setting.protocol is FullStateTransfer || (sketches_pairwise(setting.protocol) && forall|i: int|
        0 <= i < members.len() ==> (#[trigger] members[i]).carry is None)
}

spec fn has_sender(inbox: Seq<(usize, Packet)>, j: int) -> bool {
    exists|x: int| 0 <= x < inbox.len() && (#[trigger] inbox[x]).0 == j
}

proof fn lemma_own_under_way(
    setting: Setting<AnyProtocol>,
    members: Seq<Member>,
    k: nat,
    i: int,
)
    requires
        crew(setting.kind, setting.nodes, members),
        all_ship_own(setting, members),
        k <= setting.nodes,
        0 <= i < setting.nodes,
    ensures
        holds_own(
            setting,
            members,
            setting.sent(members, k).inboxes[i],
            k as int,
            i,
        ),
    decreases k,
{
    topology::lemma_topology_is_graph(setting.kind, setting.nodes);
    let rows = topology::rows_of(setting.kind, setting.nodes);
    if k > 0 {
        let from = k - 1;
        lemma_own_under_way(setting, members, from as nat, i);
        lemma_sent(setting, members, from as nat, members[from].set);
        let t = setting.sent(members, from as nat);
        let site = setting.site(members, from);
        let packet = own_packet(setting.protocol, members[from].set, setting.kind);
        let messages = full_state_transfer::to_all(rows[from], packet);
        assert(members[from].set.finite());
        assert(messages == setting.protocol.sends(site, members[from].carry));
        assert forall|j: int| 0 <= j < messages.len() implies (#[trigger] messages[j]).0
            < t.inboxes.len() by {
            assert(rows[from][j] == messages[j].0);
            assert(rows[from].contains(messages[j].0));
        }
        lemma_sending_is_billed(t, from, messages);
        lemma_addressed_to_all(rows[from], packet, from, i);
        let more = addressed(messages, from, i);
        let before = t.inboxes[i];
        let after = setting.sent(members, k).inboxes[i];
        assert(after == before + more);
        assert forall|x: int| 0 <= x < after.len() implies {
            let m = #[trigger] after[x];
            &&& m.0 < k
            &&& rows[m.0 as int].contains(i as usize)
            &&& m.1 == own_packet(setting.protocol, members[m.0 as int].set, setting.kind)
        } by {
            if x < before.len() {
                assert(after[x] == before[x]);
            } else {
                assert(after[x] == more[x - before.len()]);
            }
        }
        assert forall|j: int|
            0 <= j < k && #[trigger] rows[j].contains(i as usize) implies has_sender(after, j) by {
            if j < from {
                assert(has_sender(before, j));
                let x = choose|x: int| 0 <= x < before.len() && (#[trigger] before[x]).0 == j;
                assert(after[x].0 == j);
            } else {
                assert(more.len() > 0);
                assert(after[before.len() as int] == more[0]);
                assert(after[before.len() as int].0 == j);
            }
        }
    }
}

proof fn lemma_merged_contains(
    set: Set<Element>,
    inbox: Seq<(usize, Packet)>,
    n: nat,
    e: Element,
)
    requires
        n <= inbox.len(),
    ensures
        full_state_transfer::merged(set, inbox, n).contains(e) <==> set.contains(e) || brings(
            inbox,
            n,
            e,
        ),
    decreases n,
{
    if n > 0 {
        lemma_merged_contains(set, inbox, (n - 1) as nat, e);
        if brings(inbox, (n - 1) as nat, e) {
            let x = choose|x: int|
                0 <= x < n - 1 && #[trigger] holds(inbox[x].1, e);
            assert(holds(inbox[x].1, e));
        }
        if brings(inbox, n, e) {
            let x = choose|x: int| 0 <= x < n && #[trigger] holds(inbox[x].1, e);
            if x < n - 1 {
                assert(holds(inbox[x].1, e));
                assert(brings(inbox, (n - 1) as nat, e));
            }
        }
        match inbox[n - 1].1 {
            Packet::Elements(els, marker) => {
                if els.to_set().contains(e) {
                    assert(holds(inbox[n - 1].1, e));
                }
            },
            _ => {},
        }
    }
}

spec fn holds(p: Packet, e: Element) -> bool {
    match p {
        Packet::Elements(els, _) => els.contains(e),
        _ => false,
    }
}

spec fn brings(inbox: Seq<(usize, Packet)>, n: nat, e: Element) -> bool {
    exists|x: int| 0 <= x < n && #[trigger] holds(inbox[x].1, e)
}

/// Some neighbour of node `i` holds the element.
pub open spec fn neighbor_holds(
    rows: Seq<Seq<usize>>,
    members: Seq<Member>,
    i: int,
    e: Element,
) -> bool {
    exists|j: usize| #[trigger] rows[i].contains(j) && members[j as int].set.contains(e)
}

/// After a round of full state transfer a replica holds what it and its neighbours held.
pub proof fn lemma_full_transfer_round(
    setting: Setting<AnyProtocol>,
    members: Seq<Member>,
    i: int,
    e: Element,
)
    requires
        crew(setting.kind, setting.nodes, members),
        setting.protocol is FullStateTransfer,
        0 <= i < setting.nodes,
    ensures
        setting.round(members)[i].set.contains(e) <==> members[i].set.contains(e)
            || neighbor_holds(topology::rows_of(setting.kind, setting.nodes), members, i, e),
{
    topology::lemma_topology_is_graph(setting.kind, setting.nodes);
    let rows = topology::rows_of(setting.kind, setting.nodes);
    lemma_own_under_way(setting, members, setting.nodes, i);
    let inbox = setting.sent(members, setting.nodes).inboxes[i];
    lemma_merged_contains(members[i].set, inbox, inbox.len(), e);
    if brings(inbox, inbox.len(), e) {
        let x = choose|x: int| 0 <= x < inbox.len() && #[trigger] holds(inbox[x].1, e);
        let j = inbox[x].0;
        assert(rows[j as int].contains(i as usize));
        assert(rows[i].contains(j));
        assert(members[j as int].set.finite());
        replica::lemma_has_listing(members[j as int].set);
        assert(replica::listing(members[j as int].set).to_set().contains(e));
    }
    if neighbor_holds(rows, members, i, e) {
        let j = choose|j: usize| #[trigger]
            rows[i].contains(j) && members[j as int].set.contains(e);
        assert(rows[j as int].contains(i as usize));
        assert(has_sender(inbox, j as int));
        let x = choose|x: int| 0 <= x < inbox.len() && (#[trigger] inbox[x]).0 == j;
        assert(members[j as int].set.finite());
        replica::lemma_has_listing(members[j as int].set);
        assert(replica::listing(members[j as int].set).to_set().contains(e));
        assert(holds(inbox[x].1, e));
    }
}

/// The replicas after `k` rounds.
pub open spec fn after_rounds(
    setting: Setting<AnyProtocol>,
    members: Seq<Member>,
    k: nat,
) -> Seq<Member>
    decreases k,
{
    if k == 0 {
        members
    } else {
        setting.round(after_rounds(setting, members, (k - 1) as nat))
    }
}

/// All that any replica holds.
pub open spec fn everything(members: Seq<Member>) -> Set<Element> {
    Set::new(|e: Element| exists|i: int| 0 <= i < members.len() && (#[trigger] members[i]).set.contains(e))
}

/// With full state transfer an element spreads by one step in a round: after `k` rounds it is
/// held wherever it can be reached in `k` steps.
pub proof fn lemma_full_transfer_spreads(
    setting: Setting<AnyProtocol>,
    members: Seq<Member>,
    k: nat,
    i: int,
    j: int,
    e: Element,
)
    requires
        crew(setting.kind, setting.nodes, members),
        setting.protocol is FullStateTransfer,
        0 <= i < setting.nodes,
        0 <= j < setting.nodes,
        members[j].set.contains(e),
        topology::near(topology::rows_of(setting.kind, setting.nodes), i, j, k),
    ensures
        crew(setting.kind, setting.nodes, after_rounds(setting, members, k)),
        after_rounds(setting, members, k)[i].set.contains(e),
    decreases k,
{
    topology::lemma_topology_is_graph(setting.kind, setting.nodes);
    let rows = topology::rows_of(setting.kind, setting.nodes);
    if k > 0 {
        let before = after_rounds(setting, members, (k - 1) as nat);
        if i == j {
            lemma_full_transfer_spreads(setting, members, (k - 1) as nat, i, j, e);
            lemma_full_transfer_round(setting, before, i, e);
        } else {
            let c = choose|c: usize| #[trigger]
                rows[i].contains(c) && topology::near(rows, c as int, j, (k - 1) as nat);
            lemma_full_transfer_spreads(setting, members, (k - 1) as nat, c as int, j, e);
            lemma_full_transfer_round(setting, before, i, e);
            assert(neighbor_holds(rows, before, i, e));
        }
        lemma_round(setting, before, before[i].set);
    }
}

proof fn lemma_full_transfer_within(
    setting: Setting<AnyProtocol>,
    members: Seq<Member>,
    k: nat,
    i: int,
    e: Element,
)
    requires
        crew(setting.kind, setting.nodes, members),
        setting.protocol is FullStateTransfer,
        0 <= i < setting.nodes,
    ensures
        crew(setting.kind, setting.nodes, after_rounds(setting, members, k)),
        after_rounds(setting, members, k)[i].set.contains(e) ==> everything(members).contains(e),
    decreases k,
{
    topology::lemma_topology_is_graph(setting.kind, setting.nodes);
    let rows = topology::rows_of(setting.kind, setting.nodes);
    if k == 0 {
        if members[i].set.contains(e) {
            assert(members[i].set.contains(e));
        }
    } else {
        let before = after_rounds(setting, members, (k - 1) as nat);
        lemma_full_transfer_within(setting, members, (k - 1) as nat, i, e);
        lemma_full_transfer_round(setting, before, i, e);
        lemma_round(setting, before, before[i].set);
        if neighbor_holds(rows, before, i, e) {
            let c = choose|c: usize| #[trigger]
                rows[i].contains(c) && before[c as int].set.contains(e);
            lemma_full_transfer_within(setting, members, (k - 1) as nat, c as int, e);
        }
    }
}

/// Full state transfer converges on all that any replica held, after at most as many rounds
/// as the topology's diameter.
pub proof fn lemma_full_transfer_converges(
    setting: Setting<AnyProtocol>,
    members: Seq<Member>,
)
    requires
        crew(setting.kind, setting.nodes, members),
        setting.protocol is FullStateTransfer,
    ensures
        engine::all_hold(
            after_rounds(
                setting,
                members,
                topology::diameter(setting.kind, setting.nodes),
            ),
            everything(members),
        ),
{
    let k = topology::diameter(setting.kind, setting.nodes);
    let end = after_rounds(setting, members, k);
    if setting.nodes == 0 {
        lemma_after_rounds_len(setting, members, k);
    } else {
        lemma_after_rounds_len(setting, members, k);
        assert forall|i: int| 0 <= i < end.len() implies (#[trigger] end[i]).set == everything(
            members,
        ) by {
            assert forall|e: Element| end[i].set.contains(e) <==> everything(members).contains(
                e,
            ) by {
                lemma_full_transfer_within(setting, members, k, i, e);
                if everything(members).contains(e) {
                    let j = choose|j: int|
                        0 <= j < members.len() && (#[trigger] members[j]).set.contains(e);
                    topology::lemma_diameter(setting.kind, setting.nodes, i, j);
                    lemma_full_transfer_spreads(setting, members, k, i, j, e);
                }
            }
            assert(end[i].set =~= everything(members));
        }
    }
}

proof fn lemma_after_rounds_len(setting: Setting<AnyProtocol>, members: Seq<Member>, k: nat)
    ensures
        after_rounds(setting, members, k).len() == members.len(),
    decreases k,
{
    if k > 0 {
        lemma_after_rounds_len(setting, members, (k - 1) as nat);
    }
}

/// The sketch that a replica ships when it has nothing to deliver; its set, for full state
/// transfer.
pub open spec fn own_packet(p: AnyProtocol, set: Set<Element>, kind: TopologyKind) -> Packet {
    let digests = replica::digests_of(set);
    match p {
        AnyProtocol::FullStateTransfer(_) => Packet::Elements(replica::listing(set), None),
        AnyProtocol::Riblt(_) => Packet::Riblt(Coded::of(digests)),
        AnyProtocol::HybridRbfRiblt(h) => Packet::RatelessBloomRiblt {
            slices: Slices::start(
                digests,
                protocols::hybrid_rbf_riblt::slice_bits(h.ratio(), digests.len()),
            ),
            riblt: Coded::of(digests),
        },
        AnyProtocol::StaticBfIblt(b) => Packet::BloomRiblt {
            filter: protocols::filter_of(digests, b.rate().neg_ln()),
            riblt: Coded::of(digests),
        },
        AnyProtocol::MultiReplica(_) => Packet::Bloom(MultiReplicaProtocol::sketch(set, kind)),
    }
}

/// Nothing is pending for a neighbour.
pub open spec fn idle(p: AnyProtocol, carry: Option<Carry>) -> bool {
    match p {
        AnyProtocol::FullStateTransfer(_) => true,
        AnyProtocol::MultiReplica(_) => protocols::deliveries(protocols::contents(carry)).len()
            == 0,
        _ => carry is None,
    }
}

/// An answer that brings nothing but its marker.
pub open spec fn bare(p: Packet) -> bool {
    match p {
        Packet::Elements(els, marker) => els.len() == 0 && marker is Some,
        _ => false,
    }
}

/// All messages have the same contents, but for bare answers.
spec fn only(messages: Seq<(usize, Packet)>, packet: Packet) -> bool {
    forall|x: int|
        0 <= x < messages.len() ==> ((#[trigger] messages[x]).1 == packet || bare(messages[x].1))
}

proof fn lemma_no_deliveries(c: Carry)
    ensures
        protocols::deliveries(c).len() == 0 <==> forall|i: int|
            0 <= i < c.len() ==> ((#[trigger] c[i]).0 == OWN_KEY || c[i].1.len() == 0),
    decreases c.len(),
{
    if c.len() > 0 {
        let rest = c.drop_last();
        lemma_no_deliveries(rest);
        assert forall|i: int| 0 <= i < rest.len() implies #[trigger] rest[i] == c[i] by {}
        if protocols::deliveries(c).len() == 0 {
            assert forall|i: int| 0 <= i < c.len() implies ((#[trigger] c[i]).0 == OWN_KEY
                || c[i].1.len() == 0) by {
                if i < rest.len() {
                    assert(rest[i] == c[i]);
                }
            }
        }
        if forall|i: int| 0 <= i < c.len() ==> ((#[trigger] c[i]).0 == OWN_KEY || c[i].1.len()
            == 0) {
            assert forall|i: int| 0 <= i < rest.len() implies ((#[trigger] rest[i]).0 == OWN_KEY
                || rest[i].1.len() == 0) by {
                assert(rest[i] == c[i]);
            }
            assert(c[c.len() - 1].0 == OWN_KEY || c[c.len() - 1].1.len() == 0);
        }
    }
}

proof fn lemma_empty_replies(c: Carry, rows: Seq<Seq<usize>>, id: usize)
    requires
        forall|i: int|
            0 <= i < c.len() ==> ((#[trigger] c[i]).0 == OWN_KEY || c[i].1.len() == 0),
    ensures
        ({
            let messages = multi_replica::replies(c, rows, id);
            forall|x: int|
                0 <= x < messages.len() ==> bare((#[trigger] messages[x]).1)
        }),
    decreases c.len(),
{
    if c.len() > 0 {
        let rest = c.drop_last();
        assert forall|i: int| 0 <= i < rest.len() implies ((#[trigger] rest[i]).0 == OWN_KEY
            || rest[i].1.len() == 0) by {
            assert(rest[i] == c[i]);
        }
        lemma_empty_replies(rest, rows, id);
        let last = c[c.len() - 1];
        assert(last.0 == OWN_KEY || last.1.len() == 0);
        let (before, messages) = (
            multi_replica::replies(rest, rows, id),
            multi_replica::replies(c, rows, id),
        );
        assert forall|x: int| 0 <= x < messages.len() implies bare((#[trigger] messages[x]).1) by {
            if x < before.len() {
                assert(messages[x] == before[x]);
            }
        }
    }
}

/// Replicas with nothing to deliver ship sketches. In trees they also answer the sketches of
/// others, with bare markers.
pub proof fn lemma_idle_sends(p: AnyProtocol, site: Site, carry: Option<Carry>)
    requires
        idle(p, carry),
    ensures
        ({
            let messages = p.sends(site, carry);
            forall|x: int|
                0 <= x < messages.len() ==> ((#[trigger] messages[x]).1 == own_packet(
                    p,
                    site.set,
                    site.kind,
                ) || (p is MultiReplica && site.kind == TopologyKind::Tree && bare(
                    messages[x].1,
                )))
        }),
{
    if p is MultiReplica {
        let c = protocols::contents(carry);
        lemma_no_deliveries(c);
        lemma_empty_replies(c, links(site), site.id);
    }
}

proof fn lemma_addressed_only(
    messages: Seq<(usize, Packet)>,
    from: int,
    to: int,
    packet: Packet,
)
    requires
        only(messages, packet),
    ensures
        only(addressed(messages, from, to), packet),
    decreases messages.len(),
{
    if messages.len() > 0 {
        let rest = messages.drop_last();
        assert forall|x: int| 0 <= x < rest.len() implies ((#[trigger] rest[x]).1 == packet
            || bare(rest[x].1)) by {
            assert(rest[x] == messages[x]);
        }
        lemma_addressed_only(rest, from, to, packet);
        let last = messages[messages.len() - 1];
        assert(last.1 == packet || bare(last.1));
    }
}

proof fn lemma_only_sketches(
    setting: Setting<AnyProtocol>,
    members: Seq<Member>,
    set: Set<Element>,
    k: nat,
    i: int,
)
    requires
        crew(setting.kind, setting.nodes, members),
        engine::all_hold(members, set),
        forall|j: int|
            0 <= j < members.len() ==> idle(setting.protocol, (#[trigger] members[j]).carry),
        k <= setting.nodes,
        0 <= i < setting.nodes,
    ensures
        only(
            setting.sent(members, k).inboxes[i],
            own_packet(setting.protocol, set, setting.kind),
        ),
    decreases k,
{
    topology::lemma_topology_is_graph(setting.kind, setting.nodes);
    if k > 0 {
        let packet = own_packet(setting.protocol, set, setting.kind);
        let from = k - 1;
        lemma_only_sketches(setting, members, set, from as nat, i);
        lemma_sent(setting, members, from as nat, set);
        let t = setting.sent(members, from as nat);
        let site = setting.site(members, from);
        assert(members[from].set == set && members[from].set.finite());
        let messages = setting.protocol.sends(site, members[from].carry);
        lemma_idle_sends(setting.protocol, site, members[from].carry);
        lemma_sends(setting.protocol, site, members[from].carry, set);
        assert forall|j: int| 0 <= j < messages.len() implies (#[trigger] messages[j]).0
            < t.inboxes.len() by {
            assert(site.neighbors().contains(messages[j].0));
        }
        lemma_sending_is_billed(t, from, messages);
        lemma_addressed_only(messages, from, i, packet);
        let before = t.inboxes[i];
        let more = addressed(messages, from, i);
        let after = setting.sent(members, k).inboxes[i];
        assert(after == before + more);
        assert forall|x: int| 0 <= x < after.len() implies ((#[trigger] after[x]).1 == packet
            || bare(after[x].1)) by {
            if x < before.len() {
                assert(after[x] == before[x]);
            } else {
                assert(after[x] == more[x - before.len()]);
            }
        }
    }
}

proof fn lemma_keep_none(s: Seq<Element>, keep: spec_fn(Element) -> bool)
    requires
        forall|i: int| 0 <= i < s.len() ==> !keep(#[trigger] s[i]),
    ensures
        s.filter(keep) == Seq::<Element>::empty(),
    decreases s.len(),
{
    reveal(Seq::filter);
    if s.len() > 0 {
        let rest = s.drop_last();
        assert forall|i: int| 0 <= i < rest.len() implies !keep(#[trigger] rest[i]) by {
            assert(rest[i] == s[i]);
        }
        lemma_keep_none(rest, keep);
        assert(!keep(s[s.len() - 1]));
    } else {
        assert(s.filter(keep) =~= Seq::<Element>::empty());
    }
}

proof fn lemma_no_digests(s: Seq<Element>)
    ensures
        protocols::with_digests(s, Seq::empty()) == Seq::<Element>::empty(),
{
    lemma_keep_none(s, |e: Element| Seq::<u64>::empty().contains(e.digest));
}

/// Nothing new and nothing pending.
spec fn unmoved(site: Site, g: Gathered) -> bool {
    g.next == site.set && g.pending.len() == 0
}

/// Nothing new and nothing pending but bare answers.
spec fn answering(site: Site, g: Gathered) -> bool {
    g.next == site.set && forall|i: int|
        0 <= i < g.pending.len() ==> ((#[trigger] g.pending[i]).0 == OWN_KEY
            || g.pending[i].1.len() == 0)
}

proof fn lemma_unmoved(p: AnyProtocol, site: Site, inbox: Seq<(usize, Packet)>, n: nat)
    requires
        site_ok(site),
        n <= inbox.len(),
        only(inbox, own_packet(p, site.set, site.kind)),
    ensures
        match p {
            AnyProtocol::FullStateTransfer(_) => full_state_transfer::merged(site.set, inbox, n)
                == site.set,
            AnyProtocol::Riblt(_) => unmoved(site, RibltProtocol::gathered(site, inbox, n)),
            AnyProtocol::HybridRbfRiblt(_) => unmoved(
                site,
                HybridRbfRibltProtocol::gathered(site, inbox, n),
            ),
            AnyProtocol::StaticBfIblt(_) => unmoved(
                site,
                StaticBfIbltProtocol::gathered(site, inbox, n),
            ),
            AnyProtocol::MultiReplica(_) => answering(
                site,
                MultiReplicaProtocol::watched(site, inbox, n).gathered,
            ),
        },
    decreases n,
{
    if n > 0 {
        lemma_unmoved(p, site, inbox, (n - 1) as nat);
        let m = inbox[n - 1];
        assert(m.1 == own_packet(p, site.set, site.kind) || bare(m.1));
        if bare(m.1) {
            assert(m.1->Elements_0 =~= Seq::<Element>::empty());
        }
        assert(site.set.union(Seq::<Element>::empty().to_set()) =~= site.set);
        let digests = replica::digests_of(site.set);
        let listed = replica::listing(site.set);
        lemma_no_digests(listed);
        assert(site.set.union(Set::empty()) =~= site.set);
        assert(Seq::<u64>::empty() + Seq::<u64>::empty() =~= Seq::<u64>::empty());
        match p {
            AnyProtocol::FullStateTransfer(_) => {
                replica::lemma_has_listing(site.set);
                assert(site.set.union(listed.to_set()) =~= site.set);
            },
            AnyProtocol::Riblt(_) => {
                riblt::lemma_same_lists(digests, digests);
            },
            AnyProtocol::HybridRbfRiblt(h) => {
                expected_cost::lemma_same_digests(
                    digests,
                    protocols::hybrid_rbf_riblt::slice_bits(h.ratio(), digests.len()),
                );
                riblt::lemma_same_lists(digests, digests);
            },
            AnyProtocol::StaticBfIblt(b) => {
                protocols::bf_iblt::lemma_same_digests(digests, b.rate().neg_ln());
            },
            AnyProtocol::MultiReplica(_) => {
                let f = MultiReplicaProtocol::sketch(site.set, site.kind);
                assert forall|i: int| 0 <= i < listed.len() implies f.has(
                    (#[trigger] listed[i]).digest.hash_writes(),
                ) by {
                    protocols::lemma_filter_finds(
                        digests,
                        multi_replica::rate_ln(site.kind, site.set.len()),
                        i,
                    );
                    assert(digests[i] == listed[i].digest);
                }
                lemma_keep_none(listed, |e: Element| !f.has(e.digest.hash_writes()));
                let g = MultiReplicaProtocol::watched(site, inbox, (n - 1) as nat).gathered;
                let more = protocols::joined(g.pending, m.0, Seq::empty());
                assert forall|i: int| 0 <= i < more.len() implies ((#[trigger] more[i]).0 == OWN_KEY
                    || more[i].1.len() == 0) by {
                    if i < g.pending.len() {
                        assert(g.pending[i].0 == OWN_KEY || g.pending[i].1.len() == 0);
                    }
                }
            },
        }
    }
}

/// A round between replicas that hold the same set and have nothing to deliver changes no set
/// and leaves nothing to deliver: from then on they only ship sketches, and in trees the bare
/// answers to them.
pub proof fn lemma_identical_replicas_rest(
    setting: Setting<AnyProtocol>,
    members: Seq<Member>,
    set: Set<Element>,
)
    requires
        crew(setting.kind, setting.nodes, members),
        engine::all_hold(members, set),
        forall|i: int|
            0 <= i < members.len() ==> idle(setting.protocol, (#[trigger] members[i]).carry),
    ensures
        engine::all_hold(setting.round(members), set),
        forall|i: int|
            0 <= i < members.len() ==> idle(
                setting.protocol,
                (#[trigger] setting.round(members)[i]).carry,
            ),
{
    let next = setting.round(members);
    let p = setting.protocol;
    assert forall|i: int| 0 <= i < members.len() implies (#[trigger] next[i]).set == set && idle(
        p,
        next[i].carry,
    ) by {
        let site = setting.site(members, i);
        assert(members[i].set == set && members[i].set.finite());
        lemma_only_sketches(setting, members, set, setting.nodes, i);
        let inbox = setting.sent(members, setting.nodes).inboxes[i];
        lemma_unmoved(p, site, inbox, inbox.len());
        if p is MultiReplica {
            let w = MultiReplicaProtocol::watched(site, inbox, inbox.len());
            let before = w.gathered.pending;
            let after = protocols::put(before, OWN_KEY, multi_replica::next_own(w, site));
            assert forall|j: int| 0 <= j < after.len() implies ((#[trigger] after[j]).0 == OWN_KEY
                || after[j].1.len() == 0) by {
                if j < before.len() {
                    assert(before[j].0 == OWN_KEY || before[j].1.len() == 0);
                }
            }
            lemma_no_deliveries(after);
            lemma_no_deliveries(before);
            assert(protocols::deliveries(after).len() == 0);
        }
    }
}

proof fn lemma_full_transfer_run_from(
    setting: Setting<AnyProtocol>,
    members: Seq<Member>,
    k: nat,
    rounds: nat,
    cap: nat,
)
    requires
        crew(setting.kind, setting.nodes, members),
        setting.protocol is FullStateTransfer,
        k <= topology::diameter(setting.kind, setting.nodes),
        rounds + topology::diameter(setting.kind, setting.nodes) <= cap,
    ensures
        ({
            let (end, n) = setting.finished(
                after_rounds(setting, members, k),
                everything(members),
                rounds + k,
                cap,
            );
            &&& engine::all_hold(end, everything(members))
            &&& n <= rounds + topology::diameter(setting.kind, setting.nodes)
        }),
    decreases topology::diameter(setting.kind, setting.nodes) - k,
{
    lemma_full_transfer_converges(setting, members);
    let now = after_rounds(setting, members, k);
    if !engine::all_hold(now, everything(members)) {
        lemma_full_transfer_run_from(setting, members, k + 1, rounds, cap);
    }
}

/// A run of full state transfer converges, within as many rounds as the topology's diameter,
/// when the cap allows for that many and the target is all that any replica holds.
pub proof fn lemma_full_transfer_run(
    setting: Setting<AnyProtocol>,
    members: Seq<Member>,
    rounds: nat,
    cap: nat,
)
    requires
        crew(setting.kind, setting.nodes, members),
        setting.protocol is FullStateTransfer,
        rounds + topology::diameter(setting.kind, setting.nodes) <= cap,
    ensures
        ({
            let (end, n) = setting.finished(members, everything(members), rounds, cap);
            &&& engine::all_hold(end, everything(members))
            &&& n <= rounds + topology::diameter(setting.kind, setting.nodes)
        }),
{
    lemma_full_transfer_run_from(setting, members, 0, rounds, cap);
}

proof fn lemma_next_is_merged(
    p: AnyProtocol,
    site: Site,
    inbox: Seq<(usize, Packet)>,
    n: nat,
)
    requires
        n <= inbox.len(),
    ensures
        ({
            let next = full_state_transfer::merged(site.set, inbox, n);
            match p {
                AnyProtocol::FullStateTransfer(_) => true,
                AnyProtocol::Riblt(_) => RibltProtocol::gathered(site, inbox, n).next == next,
                AnyProtocol::HybridRbfRiblt(_) => HybridRbfRibltProtocol::gathered(
                    site,
                    inbox,
                    n,
                ).next == next,
                AnyProtocol::StaticBfIblt(_) => StaticBfIbltProtocol::gathered(
                    site,
                    inbox,
                    n,
                ).next == next,
                AnyProtocol::MultiReplica(_) => MultiReplicaProtocol::watched(
                    site,
                    inbox,
                    n,
                ).gathered.next == next,
            }
        }),
    decreases n,
{
    if n > 0 {
        lemma_next_is_merged(p, site, inbox, (n - 1) as nat);
        let before = full_state_transfer::merged(site.set, inbox, (n - 1) as nat);
        assert(before.union(Set::empty()) =~= before);
    }
}

/// Whatever the protocol, a replica's new set is its old set and all elements that it was
/// sent.
pub proof fn lemma_new_set(p: AnyProtocol, site: Site, inbox: Seq<(usize, Packet)>)
    ensures
        p.receives(site, inbox).next == full_state_transfer::merged(
            site.set,
            inbox,
            inbox.len(),
        ),
{
    lemma_next_is_merged(p, site, inbox, inbox.len());
}

/// Something is pending for a node, and it holds the element.
pub open spec fn offers(c: Carry, to: int, e: Element) -> bool {
    exists|m: int| 0 <= m < c.len() && (#[trigger] c[m]).0 == to && c[m].1.contains(e)
}

proof fn lemma_offers_joined(c: Carry, from: usize, back: Seq<Element>, to: int, e: Element)
    ensures
        offers(protocols::joined(c, from, back), to, e) <==> offers(c, to, e) || (to == from
            && back.contains(e)),
{
    let h = protocols::joined(c, from, back);
    if offers(c, to, e) {
        let m = choose|m: int|
            0 <= m < c.len() && (#[trigger] c[m]).0 == to && c[m].1.contains(e);
        if c[m].0 == from {
            lemma_either(c[m].1, back, e);
        }
        assert(h[m].0 == to && h[m].1.contains(e));
    }
    if to == from && back.contains(e) {
        if protocols::has_key(c, from) {
            let m = choose|m: int| 0 <= m < c.len() && (#[trigger] c[m]).0 == from;
            lemma_either(c[m].1, back, e);
            assert(h[m].0 == to && h[m].1.contains(e));
        } else {
            assert(h[c.len() as int].0 == to && h[c.len() as int].1.contains(e));
        }
    }
    if offers(h, to, e) {
        let m = choose|m: int|
            0 <= m < h.len() && (#[trigger] h[m]).0 == to && h[m].1.contains(e);
        if m < c.len() {
            assert(c[m].0 == to);
            if c[m].0 == from {
                lemma_either(c[m].1, back, e);
            }
        }
    }
}

proof fn lemma_either(a: Seq<Element>, b: Seq<Element>, e: Element)
    ensures
        (a + b).contains(e) <==> a.contains(e) || b.contains(e),
{
    let ab = a + b;
    if a.contains(e) {
        let i = choose|i: int| 0 <= i < a.len() && a[i] == e;
        assert(ab[i] == e);
    }
    if b.contains(e) {
        let i = choose|i: int| 0 <= i < b.len() && b[i] == e;
        assert(ab[a.len() + i] == e);
    }
    if ab.contains(e) {
        let i = choose|i: int| 0 <= i < ab.len() && ab[i] == e;
        if i < a.len() {
            assert(a[i] == e);
        } else {
            assert(b[i - a.len()] == e);
        }
    }
}

/// What the first `n` messages add up to, for the protocols that sketch pairwise.
spec fn gathers(p: AnyProtocol, site: Site, inbox: Seq<(usize, Packet)>, n: nat) -> Gathered {
    match p {
        AnyProtocol::Riblt(_) => RibltProtocol::gathered(site, inbox, n),
        AnyProtocol::StaticBfIblt(_) => StaticBfIbltProtocol::gathered(site, inbox, n),
        _ => HybridRbfRibltProtocol::gathered(site, inbox, n),
    }
}

/// Some sketch among the first `n` messages comes from the node, which lacks the element.
spec fn asked(
    set: Set<Element>,
    members: Seq<Member>,
    inbox: Seq<(usize, Packet)>,
    n: nat,
    to: int,
    e: Element,
) -> bool {
    exists|x: int|
        0 <= x < n && (#[trigger] inbox[x]).0 == to && protocols::lacking_elements(
            set,
            members[to].set,
        ).contains(e)
}

proof fn lemma_sketches_are_answered(
    setting: Setting<AnyProtocol>,
    members: Seq<Member>,
    site: Site,
    inbox: Seq<(usize, Packet)>,
    n: nat,
)
    requires
        sketches_pairwise(setting.protocol),
        n <= inbox.len(),
        members.len() <= usize::MAX,
        forall|x: int|
            0 <= x < inbox.len() ==> (#[trigger] inbox[x]).0 < members.len() && inbox[x].1
                == own_packet(
                setting.protocol,
                members[inbox[x].0 as int].set,
                setting.kind,
            ),
    ensures
        ({
            let g = gathers(setting.protocol, site, inbox, n);
            &&& forall|m: int| 0 <= m < g.pending.len() ==> (#[trigger] g.pending[m]).0 != OWN_KEY
            &&& forall|to: int, e: Element| #[trigger]
                offers(g.pending, to, e) <==> asked(site.set, members, inbox, n, to, e)
        }),
    decreases n,
{
    let g = gathers(setting.protocol, site, inbox, n);
    if n > 0 {
        lemma_sketches_are_answered(setting, members, site, inbox, (n - 1) as nat);
        let before = gathers(setting.protocol, site, inbox, (n - 1) as nat);
        let from = inbox[n - 1].0;
        let other = members[from as int].set;
        let digests = replica::digests_of(other);
        let back = protocols::lacking_elements(site.set, other);
        match setting.protocol {
            AnyProtocol::Riblt(_) => {
                protocols::riblt::lemma_answer(site, before, from, other);
            },
            AnyProtocol::StaticBfIblt(b) => {
                protocols::bf_iblt::lemma_answer(site, before, from, other, b.rate().neg_ln());
            },
            AnyProtocol::HybridRbfRiblt(h) => {
                protocols::hybrid_rbf_riblt::lemma_answer(
                    site,
                    before,
                    from,
                    other,
                    protocols::hybrid_rbf_riblt::slice_bits(h.ratio(), digests.len()),
                );
            },
            _ => {},
        }
        assert(inbox[n - 1].0 < members.len());
        assert(g.pending == protocols::queued(before.pending, from, back));
        assert forall|m: int| 0 <= m < g.pending.len() implies (#[trigger] g.pending[m]).0
            != OWN_KEY by {
            if m < before.pending.len() {
                assert(g.pending[m].0 == before.pending[m].0);
            }
        }
        assert forall|to: int, e: Element| #[trigger] offers(g.pending, to, e) <==> asked(
            site.set,
            members,
            inbox,
            n,
            to,
            e,
        ) by {
            if back.len() > 0 {
                lemma_offers_joined(before.pending, from, back, to, e);
            }
            assert(offers(before.pending, to, e) <==> asked(
                site.set,
                members,
                inbox,
                (n - 1) as nat,
                to,
                e,
            ));
            if asked(site.set, members, inbox, (n - 1) as nat, to, e) {
                let x = choose|x: int|
                    0 <= x < n - 1 && (#[trigger] inbox[x]).0 == to && protocols::lacking_elements(
                        site.set,
                        members[to].set,
                    ).contains(e);
                assert(inbox[x].0 == to);
            }
            if to == from && back.contains(e) {
                assert(inbox[n - 1].0 == to);
            }
        }
    } else {
        assert forall|to: int, e: Element| #[trigger] offers(g.pending, to, e) <==> asked(
            site.set,
            members,
            inbox,
            n,
            to,
            e,
        ) by {}
    }
}

/// A message to the node holds the element.
spec fn ships(messages: Seq<(usize, Packet)>, to: int, e: Element) -> bool {
    exists|x: int|
        0 <= x < messages.len() && (#[trigger] messages[x]).0 == to && holds(messages[x].1, e)
}

proof fn lemma_deliveries_ship(c: Carry, to: int, e: Element)
    requires
        forall|m: int| 0 <= m < c.len() ==> (#[trigger] c[m]).0 != OWN_KEY,
    ensures
        ships(protocols::deliveries(c), to, e) <==> offers(c, to, e),
    decreases c.len(),
{
    let messages = protocols::deliveries(c);
    if c.len() > 0 {
        let rest = c.drop_last();
        assert forall|m: int| 0 <= m < rest.len() implies (#[trigger] rest[m]).0 != OWN_KEY by {
            assert(rest[m] == c[m]);
        }
        lemma_deliveries_ship(rest, to, e);
        let before = protocols::deliveries(rest);
        let last = c[c.len() - 1];
        assert(last.0 != OWN_KEY);
        if ships(before, to, e) {
            let x = choose|x: int|
                0 <= x < before.len() && (#[trigger] before[x]).0 == to && holds(before[x].1, e);
            assert(messages[x] == before[x]);
        }
        if offers(rest, to, e) {
            let m = choose|m: int|
                0 <= m < rest.len() && (#[trigger] rest[m]).0 == to && rest[m].1.contains(e);
            assert(c[m].0 == to && c[m].1.contains(e));
        }
        if last.0 == to && last.1.contains(e) {
            assert(messages[messages.len() - 1].0 == to);
            assert(holds(messages[messages.len() - 1].1, e));
        }
        if ships(messages, to, e) {
            let x = choose|x: int|
                0 <= x < messages.len() && (#[trigger] messages[x]).0 == to && holds(
                    messages[x].1,
                    e,
                );
            if x < before.len() {
                assert(before[x] == messages[x]);
            } else {
                assert(c[c.len() - 1].0 == to && c[c.len() - 1].1.contains(e));
            }
        }
        if offers(c, to, e) {
            let m = choose|m: int|
                0 <= m < c.len() && (#[trigger] c[m]).0 == to && c[m].1.contains(e);
            if m < rest.len() {
                assert(rest[m].0 == to && rest[m].1.contains(e));
            }
        }
    }
}

proof fn lemma_addressed_brings(
    messages: Seq<(usize, Packet)>,
    from: int,
    to: int,
    e: Element,
)
    ensures
        brings(
            addressed(messages, from, to),
            addressed(messages, from, to).len(),
            e,
        ) <==> ships(messages, to, e),
    decreases messages.len(),
{
    if messages.len() > 0 {
        let rest = messages.drop_last();
        lemma_addressed_brings(rest, from, to, e);
        let (a, b) = (addressed(messages, from, to), addressed(rest, from, to));
        let last = messages[messages.len() - 1];
        if ships(rest, to, e) {
            let x = choose|x: int|
                0 <= x < rest.len() && (#[trigger] rest[x]).0 == to && holds(rest[x].1, e);
            assert(messages[x] == rest[x]);
            let y = choose|y: int| 0 <= y < b.len() && #[trigger] holds(b[y].1, e);
            assert(holds(a[y].1, e));
        }
        if last.0 == to && holds(last.1, e) {
            assert(messages[messages.len() - 1].0 == to);
            assert(holds(a[a.len() - 1].1, e));
        }
        if brings(a, a.len(), e) {
            let y = choose|y: int| 0 <= y < a.len() && #[trigger] holds(a[y].1, e);
            if y < b.len() {
                assert(holds(b[y].1, e));
            }
        }
        if ships(messages, to, e) {
            let x = choose|x: int|
                0 <= x < messages.len() && (#[trigger] messages[x]).0 == to && holds(
                    messages[x].1,
                    e,
                );
            if x < rest.len() {
                assert(rest[x] == messages[x]);
            }
        }
    }
}

/// One of the first `k` replicas ships the element to node `i`.
spec fn some_ships(
    setting: Setting<AnyProtocol>,
    members: Seq<Member>,
    k: int,
    i: int,
    e: Element,
) -> bool {
    exists|f: int|
        0 <= f < k && #[trigger] ships(
            setting.protocol.sends(setting.site(members, f), members[f].carry),
            i,
            e,
        )
}

proof fn lemma_shipped(
    setting: Setting<AnyProtocol>,
    members: Seq<Member>,
    k: nat,
    i: int,
    e: Element,
)
    requires
        crew(setting.kind, setting.nodes, members),
        k <= setting.nodes,
        0 <= i < setting.nodes,
    ensures
        ({
            let inbox = setting.sent(members, k).inboxes[i];
            brings(inbox, inbox.len(), e) <==> some_ships(setting, members, k as int, i, e)
        }),
    decreases k,
{
    topology::lemma_topology_is_graph(setting.kind, setting.nodes);
    if k > 0 {
        let from = k - 1;
        lemma_shipped(setting, members, from as nat, i, e);
        lemma_sent(setting, members, from as nat, members[from].set);
        let t = setting.sent(members, from as nat);
        let site = setting.site(members, from);
        assert(members[from].set.finite());
        let messages = setting.protocol.sends(site, members[from].carry);
        lemma_sends(setting.protocol, site, members[from].carry, members[from].set);
        assert forall|j: int| 0 <= j < messages.len() implies (#[trigger] messages[j]).0
            < t.inboxes.len() by {
            assert(site.neighbors().contains(messages[j].0));
        }
        lemma_sending_is_billed(t, from, messages);
        lemma_addressed_brings(messages, from, i, e);
        let before = t.inboxes[i];
        let more = addressed(messages, from, i);
        let after = setting.sent(members, k).inboxes[i];
        assert(after == before + more);
        if brings(before, before.len(), e) {
            let x = choose|x: int| 0 <= x < before.len() && #[trigger] holds(before[x].1, e);
            assert(holds(after[x].1, e));
            let f = choose|f: int|
                0 <= f < from && #[trigger] ships(
                    setting.protocol.sends(setting.site(members, f), members[f].carry),
                    i,
                    e,
                );
            assert(ships(
                setting.protocol.sends(setting.site(members, f), members[f].carry),
                i,
                e,
            ));
        }
        if brings(more, more.len(), e) {
            let x = choose|x: int| 0 <= x < more.len() && #[trigger] holds(more[x].1, e);
            assert(holds(after[before.len() + x].1, e));
            assert(ships(
                setting.protocol.sends(setting.site(members, from), members[from].carry),
                i,
                e,
            ));
        }
        if brings(after, after.len(), e) {
            let x = choose|x: int| 0 <= x < after.len() && #[trigger] holds(after[x].1, e);
            if x < before.len() {
                assert(holds(before[x].1, e));
            } else {
                assert(holds(more[x - before.len()].1, e));
            }
        }
        if some_ships(setting, members, k as int, i, e) {
            let f = choose|f: int|
                0 <= f < k && #[trigger] ships(
                    setting.protocol.sends(setting.site(members, f), members[f].carry),
                    i,
                    e,
                );
            if f < from {
                assert(some_ships(setting, members, from, i, e));
            }
        }
    }
}

/// After a round a replica holds what it held and what was shipped to it.
proof fn lemma_round_sets(setting: Setting<AnyProtocol>, members: Seq<Member>, i: int, e: Element)
    requires
        crew(setting.kind, setting.nodes, members),
        0 <= i < setting.nodes,
    ensures
        setting.round(members)[i].set.contains(e) <==> members[i].set.contains(e) || some_ships(
            setting,
            members,
            setting.nodes as int,
            i,
            e,
        ),
{
    let inbox = setting.sent(members, setting.nodes).inboxes[i];
    lemma_shipped(setting, members, setting.nodes, i, e);
    lemma_new_set(setting.protocol, setting.site(members, i), inbox);
    lemma_merged_contains(members[i].set, inbox, inbox.len(), e);
}

/// A replica that has nothing to deliver ships no element.
proof fn lemma_sketches_ship_nothing(p: AnyProtocol, site: Site, to: int, e: Element)
    requires
        sketches_pairwise(p),
    ensures
        !ships(p.sends(site, None), to, e),
{
    let messages = p.sends(site, None);
    assert(messages == full_state_transfer::to_all(
        site.neighbors(),
        own_packet(p, site.set, site.kind),
    ));
    if ships(messages, to, e) {
        let x = choose|x: int|
            0 <= x < messages.len() && (#[trigger] messages[x]).0 == to && holds(messages[x].1, e);
        assert(messages[x].1 == own_packet(p, site.set, site.kind));
    }
}

/// The sketching round: no set changes, and what is pending for a neighbour afterwards are the
/// elements that it lacks.
pub proof fn lemma_sketching_round(
    setting: Setting<AnyProtocol>,
    members: Seq<Member>,
    f: int,
    to: int,
    e: Element,
)
    requires
        crew(setting.kind, setting.nodes, members),
        sketches_pairwise(setting.protocol),
        forall|k: int| 0 <= k < members.len() ==> (#[trigger] members[k]).carry is None,
        0 <= f < setting.nodes,
        0 <= to < setting.nodes,
    ensures
        ({
            let next = setting.round(members)[f];
            &&& next.set == members[f].set
            &&& forall|m: int|
                0 <= m < protocols::contents(next.carry).len() ==> (
                #[trigger] protocols::contents(next.carry)[m]).0 != OWN_KEY
            &&& offers(protocols::contents(next.carry), to, e) <==> topology::rows_of(
                setting.kind,
                setting.nodes,
            )[to].contains(f as usize) && members[f].set.contains(e) && !replica::digests_of(
                members[to].set,
            ).contains(e.digest)
        }),
{
    topology::lemma_topology_is_graph(setting.kind, setting.nodes);
    let rows = topology::rows_of(setting.kind, setting.nodes);
    let next = setting.round(members)[f];
    assert forall|x: Element| next.set.contains(x) <==> members[f].set.contains(x) by {
        lemma_round_sets(setting, members, f, x);
        if some_ships(setting, members, setting.nodes as int, f, x) {
            let j = choose|j: int|
                0 <= j < setting.nodes && #[trigger] ships(
                    setting.protocol.sends(setting.site(members, j), members[j].carry),
                    f,
                    x,
                );
            assert(members[j].carry is None);
            lemma_sketches_ship_nothing(setting.protocol, setting.site(members, j), f, x);
        }
    }
    assert(next.set =~= members[f].set);
    lemma_own_under_way(setting, members, setting.nodes, f);
    let inbox = setting.sent(members, setting.nodes).inboxes[f];
    let site = setting.site(members, f);
    lemma_sketches_are_answered(setting, members, site, inbox, inbox.len());
    let g = gathers(setting.protocol, site, inbox, inbox.len());
    assert(next.carry == protocols::carried(g.pending));
    assert(protocols::contents(next.carry) =~= g.pending);
    assert(members[f].set.finite());
    protocols::lemma_lacking_contains(members[f].set, members[to].set, e);
    assert(offers(g.pending, to, e) <==> asked(site.set, members, inbox, inbox.len(), to, e));
    if rows[to].contains(f as usize) {
        assert(has_sender(inbox, to));
    }
    if asked(site.set, members, inbox, inbox.len(), to, e) {
        let x = choose|x: int|
            0 <= x < inbox.len() && (#[trigger] inbox[x]).0 == to && protocols::lacking_elements(
                site.set,
                members[to].set,
            ).contains(e);
        assert(rows[inbox[x].0 as int].contains(f as usize));
    }
}

/// A neighbour of node `i` holds the element, and node `i` none with its digest.
pub open spec fn neighbor_offers(
    rows: Seq<Seq<usize>>,
    members: Seq<Member>,
    i: int,
    e: Element,
) -> bool {
    neighbor_holds(rows, members, i, e) && !replica::digests_of(members[i].set).contains(e.digest)
}

/// A protocol that sketches pairwise reconciles neighbours in two rounds: a replica then holds
/// what it held and, of what its neighbours held, all whose digests were none of its own.
pub proof fn lemma_sketch_rounds_exactly(
    setting: Setting<AnyProtocol>,
    members: Seq<Member>,
    i: int,
    e: Element,
)
    requires
        crew(setting.kind, setting.nodes, members),
        sketches_pairwise(setting.protocol),
        forall|k: int| 0 <= k < members.len() ==> (#[trigger] members[k]).carry is None,
        0 <= i < setting.nodes,
    ensures
        after_rounds(setting, members, 2)[i].set.contains(e) <==> members[i].set.contains(e)
            || neighbor_offers(topology::rows_of(setting.kind, setting.nodes), members, i, e),
{
    topology::lemma_topology_is_graph(setting.kind, setting.nodes);
    let rows = topology::rows_of(setting.kind, setting.nodes);
    let next = setting.round(members);
    assert(after_rounds(setting, members, 0) == members);
    assert(after_rounds(setting, members, 1) == next);
    assert(after_rounds(setting, members, 2) == setting.round(next));
    lemma_round(setting, members, members[i].set);
    lemma_round_sets(setting, next, i, e);
    lemma_sketching_round(setting, members, i, i, e);
    assert forall|f: int| 0 <= f < setting.nodes implies (#[trigger] ships(
        setting.protocol.sends(setting.site(next, f), next[f].carry),
        i,
        e,
    ) <==> rows[i].contains(f as usize) && members[f].set.contains(e) && !replica::digests_of(
        members[i].set,
    ).contains(e.digest)) by {
        lemma_sketching_round(setting, members, f, i, e);
        let c = protocols::contents(next[f].carry);
        lemma_deliveries_ship(c, i, e);
        if c.len() == 0 {
            assert(next[f].carry is None) by {
                let inbox = setting.sent(members, setting.nodes).inboxes[f];
                let g = gathers(setting.protocol, setting.site(members, f), inbox, inbox.len());
                assert(next[f].carry == protocols::carried(g.pending));
            }
            lemma_sketches_ship_nothing(setting.protocol, setting.site(next, f), i, e);
        }
    }
    if some_ships(setting, next, setting.nodes as int, i, e) {
        let f = choose|f: int|
            0 <= f < setting.nodes && #[trigger] ships(
                setting.protocol.sends(setting.site(next, f), next[f].carry),
                i,
                e,
            );
        assert(rows[i].contains(f as usize));
    }
    if neighbor_offers(rows, members, i, e) {
        let j = choose|j: usize| #[trigger]
            rows[i].contains(j) && members[j as int].set.contains(e);
        assert(ships(
            setting.protocol.sends(setting.site(next, j as int), next[j as int].carry),
            i,
            e,
        ));
    }
}

/// Equal digests belong to equal elements of the set.
pub open spec fn digests_tell(u: Set<Element>) -> bool {
    forall|e: Element, f: Element| #[trigger]
        u.contains(e) && #[trigger] u.contains(f) && e.digest == f.digest ==> e == f
}

/// A protocol that sketches pairwise reconciles neighbours in two rounds: as long as equal
/// digests belong to equal elements, a replica then holds what it and its neighbours held.
pub proof fn lemma_sketch_rounds(
    setting: Setting<AnyProtocol>,
    members: Seq<Member>,
    i: int,
    e: Element,
)
    requires
        crew(setting.kind, setting.nodes, members),
        sketches_pairwise(setting.protocol),
        forall|k: int| 0 <= k < members.len() ==> (#[trigger] members[k]).carry is None,
        digests_tell(everything(members)),
        0 <= i < setting.nodes,
    ensures
        after_rounds(setting, members, 2)[i].set.contains(e) <==> members[i].set.contains(e)
            || neighbor_holds(topology::rows_of(setting.kind, setting.nodes), members, i, e),
{
    topology::lemma_topology_is_graph(setting.kind, setting.nodes);
    let rows = topology::rows_of(setting.kind, setting.nodes);
    lemma_sketch_rounds_exactly(setting, members, i, e);
    if neighbor_holds(rows, members, i, e) && !members[i].set.contains(e) {
        let j = choose|j: usize| #[trigger]
            rows[i].contains(j) && members[j as int].set.contains(e);
        let digests = replica::digests_of(members[i].set);
        if digests.contains(e.digest) {
            let l = replica::listing(members[i].set);
            let x = choose|x: int| 0 <= x < digests.len() && digests[x] == e.digest;
            assert(members[i].set.finite());
            replica::lemma_has_listing(members[i].set);
            assert(l.to_set().contains(l[x]));
            assert(members[i].set.contains(l[x]));
            assert(members[j as int].set.contains(e));
            assert(everything(members).contains(l[x]));
            assert(everything(members).contains(e));
        }
    }
}

/// Two replicas that sketch pairwise are reconciled after two rounds: both then hold all that
/// either held.
pub proof fn lemma_two_replicas_reconcile(setting: Setting<AnyProtocol>, members: Seq<Member>)
    requires
        crew(setting.kind, setting.nodes, members),
        sketches_pairwise(setting.protocol),
        forall|k: int| 0 <= k < members.len() ==> (#[trigger] members[k]).carry is None,
        digests_tell(everything(members)),
        setting.nodes == 2,
    ensures
        engine::all_hold(after_rounds(setting, members, 2), everything(members)),
{
    topology::lemma_topology_is_graph(setting.kind, setting.nodes);
    let rows = topology::rows_of(setting.kind, setting.nodes);
    let end = after_rounds(setting, members, 2);
    lemma_after_rounds_len(setting, members, 2);
    assert forall|i: int| 0 <= i < end.len() implies (#[trigger] end[i]).set == everything(
        members,
    ) by {
        let j = 1 - i;
        topology::lemma_diameter(setting.kind, setting.nodes, i, j);
        let c = choose|c: usize| #[trigger]
            rows[i].contains(c) && topology::near(
                rows,
                c as int,
                j,
                (topology::diameter(setting.kind, setting.nodes) - 1) as nat,
            );
        assert(c == j);
        assert forall|e: Element| end[i].set.contains(e) <==> everything(members).contains(e) by {
            lemma_sketch_rounds(setting, members, i, e);
            if everything(members).contains(e) {
                let k = choose|k: int|
                    0 <= k < members.len() && (#[trigger] members[k]).set.contains(e);
                if k != i {
                    assert(rows[i].contains(c) && members[c as int].set.contains(e));
                }
            }
            if neighbor_holds(rows, members, i, e) {
                let k = choose|k: usize| #[trigger]
                    rows[i].contains(k) && members[k as int].set.contains(e);
                assert(members[k as int].set.contains(e));
            }
            if members[i].set.contains(e) {
                assert(members[i].set.contains(e));
            }
        }
        assert(end[i].set =~= everything(members));
    }
}

/// A run of two replicas that sketch pairwise ends within two rounds, with both holding all
/// that either held.
pub proof fn lemma_two_replicas_run(
    setting: Setting<AnyProtocol>,
    members: Seq<Member>,
    rounds: nat,
    cap: nat,
)
    requires
        crew(setting.kind, setting.nodes, members),
        sketches_pairwise(setting.protocol),
        forall|k: int| 0 <= k < members.len() ==> (#[trigger] members[k]).carry is None,
        digests_tell(everything(members)),
        setting.nodes == 2,
        rounds + 2 <= cap,
    ensures
        ({
            let (end, n) = setting.finished(members, everything(members), rounds, cap);
            &&& engine::all_hold(end, everything(members))
            &&& n <= rounds + 2
        }),
{
    lemma_two_replicas_reconcile(setting, members);
    let target = everything(members);
    let one = setting.round(members);
    let two = setting.round(one);
    assert(after_rounds(setting, members, 0) == members);
    assert(after_rounds(setting, members, 1) == one);
    assert(after_rounds(setting, members, 2) == two);
    assert(setting.finished(two, target, rounds + 2, cap) == (two, rounds + 2));
    if !engine::all_hold(members, target) {
        assert(setting.finished(members, target, rounds, cap) == setting.finished(
            one,
            target,
            rounds + 1,
            cap,
        ));
        if !engine::all_hold(one, target) {
            assert(setting.finished(one, target, rounds + 1, cap) == setting.finished(
                two,
                target,
                rounds + 2,
                cap,
            ));
        }
    }
}

proof fn lemma_near_holds(
    rows: Seq<Seq<usize>>,
    members: Seq<Member>,
    i: int,
    j: int,
    k: nat,
    e: Element,
)
    requires
        topology::is_graph(rows),
        members.len() == rows.len(),
        0 <= i < rows.len(),
        topology::near(rows, i, j, k),
        members[j].set.contains(e),
        forall|a: int|
            0 <= a < members.len() && #[trigger] neighbor_holds(rows, members, a, e)
                ==> members[a].set.contains(e),
    ensures
        members[i].set.contains(e),
    decreases k,
{
    if i != j {
        let c = choose|c: usize| #[trigger]
            rows[i].contains(c) && topology::near(rows, c as int, j, (k - 1) as nat);
        lemma_near_holds(rows, members, c as int, j, (k - 1) as nat, e);
        assert(neighbor_holds(rows, members, i, e));
    }
}

/// Sketching pairwise stops only when it is done: where two rounds, begun with nothing to
/// deliver, change no set, all replicas hold all that any of them holds.
pub proof fn lemma_rest_means_reconciled(setting: Setting<AnyProtocol>, members: Seq<Member>)
    requires
        crew(setting.kind, setting.nodes, members),
        sketches_pairwise(setting.protocol),
        forall|k: int| 0 <= k < members.len() ==> (#[trigger] members[k]).carry is None,
        digests_tell(everything(members)),
        forall|i: int|
            0 <= i < members.len() ==> #[trigger] after_rounds(setting, members, 2)[i].set
                == members[i].set,
    ensures
        engine::all_hold(members, everything(members)),
{
    topology::lemma_topology_is_graph(setting.kind, setting.nodes);
    topology::lemma_rows_len(setting.kind, setting.nodes);
    let rows = topology::rows_of(setting.kind, setting.nodes);
    assert forall|i: int| 0 <= i < members.len() implies (#[trigger] members[i]).set == everything(
        members,
    ) by {
        assert forall|e: Element| members[i].set.contains(e) <==> everything(members).contains(
            e,
        ) by {
            if everything(members).contains(e) {
                let j = choose|j: int|
                    0 <= j < members.len() && (#[trigger] members[j]).set.contains(e);
                assert forall|a: int|
                    0 <= a < members.len() && #[trigger] neighbor_holds(
                        rows,
                        members,
                        a,
                        e,
                    ) implies members[a].set.contains(e) by {
                    lemma_sketch_rounds(setting, members, a, e);
                    assert(after_rounds(setting, members, 2)[a].set == members[a].set);
                }
                topology::lemma_diameter(setting.kind, setting.nodes, i, j);
                lemma_near_holds(
                    rows,
                    members,
                    i,
                    j,
                    topology::diameter(setting.kind, setting.nodes),
                    e,
                );
            }
        }
        assert(members[i].set =~= everything(members));
    }
}

/// Every message holds elements, or is what its sender ships when it has nothing to deliver.
spec fn elements_or_own(
    setting: Setting<AnyProtocol>,
    members: Seq<Member>,
    inbox: Seq<(usize, Packet)>,
) -> bool {
    forall|x: int|
        0 <= x < inbox.len() ==> (#[trigger] inbox[x]).0 < members.len() && (inbox[x].1 is Elements
            || inbox[x].1 == own_packet(
            setting.protocol,
            members[inbox[x].0 as int].set,
            setting.kind,
        ))
}

proof fn lemma_deliveries_are_elements(c: Carry)
    ensures
        ({
            let messages = protocols::deliveries(c);
            forall|x: int| 0 <= x < messages.len() ==> (#[trigger] messages[x]).1 is Elements
        }),
    decreases c.len(),
{
    if c.len() > 0 {
        lemma_deliveries_are_elements(c.drop_last());
    }
}

proof fn lemma_addressed_from(messages: Seq<(usize, Packet)>, from: int, to: int, packet: Packet)
    requires
        forall|x: int|
            0 <= x < messages.len() ==> ((#[trigger] messages[x]).1 is Elements || messages[x].1
                == packet),
    ensures
        ({
            let a = addressed(messages, from, to);
            forall|x: int|
                0 <= x < a.len() ==> (#[trigger] a[x]).0 == from as usize && (a[x].1 is Elements
                    || a[x].1 == packet)
        }),
    decreases messages.len(),
{
    if messages.len() > 0 {
        let rest = messages.drop_last();
        assert forall|x: int| 0 <= x < rest.len() implies ((#[trigger] rest[x]).1 is Elements
            || rest[x].1 == packet) by {
            assert(rest[x] == messages[x]);
        }
        lemma_addressed_from(rest, from, to, packet);
        assert(messages[messages.len() - 1].1 is Elements || messages[messages.len() - 1].1
            == packet);
    }
}

proof fn lemma_under_way(setting: Setting<AnyProtocol>, members: Seq<Member>, k: nat, i: int)
    requires
        crew(setting.kind, setting.nodes, members),
        sketches_pairwise(setting.protocol),
        k <= setting.nodes,
        0 <= i < setting.nodes,
    ensures
        elements_or_own(setting, members, setting.sent(members, k).inboxes[i]),
    decreases k,
{
    topology::lemma_topology_is_graph(setting.kind, setting.nodes);
    if k > 0 {
        let from = k - 1;
        lemma_under_way(setting, members, from as nat, i);
        lemma_sent(setting, members, from as nat, members[from].set);
        let t = setting.sent(members, from as nat);
        let site = setting.site(members, from);
        assert(members[from].set.finite());
        let carry = members[from].carry;
        let messages = setting.protocol.sends(site, carry);
        let packet = own_packet(setting.protocol, members[from].set, setting.kind);
        lemma_sends(setting.protocol, site, carry, members[from].set);
        assert forall|j: int| 0 <= j < messages.len() implies (#[trigger] messages[j]).0
            < t.inboxes.len() by {
            assert(site.neighbors().contains(messages[j].0));
        }
        lemma_deliveries_are_elements(protocols::contents(carry));
        assert forall|x: int| 0 <= x < messages.len() implies ((#[trigger] messages[x]).1 is Elements
            || messages[x].1 == packet) by {
            if protocols::contents(carry).len() == 0 {
                assert(messages == full_state_transfer::to_all(site.neighbors(), packet));
            }
        }
        lemma_sending_is_billed(t, from, messages);
        lemma_addressed_from(messages, from, i, packet);
        let before = t.inboxes[i];
        let more = addressed(messages, from, i);
        let after = setting.sent(members, k).inboxes[i];
        assert(after == before + more);
        assert forall|x: int| 0 <= x < after.len() implies (#[trigger] after[x]).0 < members.len()
            && (after[x].1 is Elements || after[x].1 == own_packet(
            setting.protocol,
            members[after[x].0 as int].set,
            setting.kind,
        )) by {
            if x < before.len() {
                assert(after[x] == before[x]);
            } else {
                assert(after[x] == more[x - before.len()]);
            }
        }
    }
}

proof fn lemma_only_lacking_is_queued(
    setting: Setting<AnyProtocol>,
    members: Seq<Member>,
    site: Site,
    inbox: Seq<(usize, Packet)>,
    n: nat,
)
    requires
        sketches_pairwise(setting.protocol),
        n <= inbox.len(),
        members.len() <= usize::MAX,
        elements_or_own(setting, members, inbox),
    ensures
        ({
            let g = gathers(setting.protocol, site, inbox, n);
            &&& forall|m: int|
                0 <= m < g.pending.len() ==> (#[trigger] g.pending[m]).0 < members.len()
                    && g.pending[m].1.len() > 0
            &&& forall|to: int, e: Element| #[trigger]
                offers(g.pending, to, e) ==> protocols::lacking_elements(
                    site.set,
                    members[to].set,
                ).contains(e)
        }),
    decreases n,
{
    let g = gathers(setting.protocol, site, inbox, n);
    if n > 0 {
        lemma_only_lacking_is_queued(setting, members, site, inbox, (n - 1) as nat);
        let before = gathers(setting.protocol, site, inbox, (n - 1) as nat);
        let from = inbox[n - 1].0;
        assert(inbox[n - 1].0 < members.len());
        if inbox[n - 1].1 is Elements {
            assert(g.pending == before.pending);
        } else {
            let other = members[from as int].set;
            let digests = replica::digests_of(other);
            let back = protocols::lacking_elements(site.set, other);
            match setting.protocol {
                AnyProtocol::Riblt(_) => {
                    protocols::riblt::lemma_answer(site, before, from, other);
                },
                AnyProtocol::StaticBfIblt(b) => {
                    protocols::bf_iblt::lemma_answer(site, before, from, other, b.rate().neg_ln());
                },
                AnyProtocol::HybridRbfRiblt(h) => {
                    protocols::hybrid_rbf_riblt::lemma_answer(
                        site,
                        before,
                        from,
                        other,
                        protocols::hybrid_rbf_riblt::slice_bits(h.ratio(), digests.len()),
                    );
                },
                _ => {},
            }
            assert(g.pending == protocols::queued(before.pending, from, back));
            assert forall|m: int| 0 <= m < g.pending.len() implies (#[trigger] g.pending[m]).0
                < members.len() && g.pending[m].1.len() > 0 by {
                if m < before.pending.len() {
                    assert(g.pending[m].0 == before.pending[m].0);
                    assert(before.pending[m].1.len() > 0);
                }
            }
            assert forall|to: int, e: Element| #[trigger] offers(
                g.pending,
                to,
                e,
            ) implies protocols::lacking_elements(site.set, members[to].set).contains(e) by {
                if back.len() > 0 {
                    lemma_offers_joined(before.pending, from, back, to, e);
                }
            }
        }
    }
}

/// The sets of all replicas are the same.
pub open spec fn same_sets(a: Seq<Member>, b: Seq<Member>) -> bool {
    a.len() == b.len() && forall|i: int| 0 <= i < a.len() ==> (#[trigger] a[i]).set == b[i].set
}

/// Where two rounds change no set, nothing is to be delivered after the first of them.
proof fn lemma_still_rounds_deliver_nothing(
    setting: Setting<AnyProtocol>,
    members: Seq<Member>,
    i: int,
)
    requires
        crew(setting.kind, setting.nodes, members),
        sketches_pairwise(setting.protocol),
        same_sets(members, after_rounds(setting, members, 1)),
        same_sets(members, after_rounds(setting, members, 2)),
        0 <= i < setting.nodes,
    ensures
        after_rounds(setting, members, 1)[i].carry is None,
{
    let next = setting.round(members);
    let last = setting.round(next);
    assert(after_rounds(setting, members, 0) == members);
    assert(after_rounds(setting, members, 1) == next);
    assert(after_rounds(setting, members, 2) == last);
    lemma_round(setting, members, members[i].set);
    lemma_under_way(setting, members, setting.nodes, i);
    let inbox = setting.sent(members, setting.nodes).inboxes[i];
    let site = setting.site(members, i);
    lemma_only_lacking_is_queued(setting, members, site, inbox, inbox.len());
    let g = gathers(setting.protocol, site, inbox, inbox.len());
    let c = g.pending;
    assert(next[i].carry == protocols::carried(c));
    if c.len() > 0 {
        let (to, els) = c[0];
        assert(c[0].0 < members.len() && c[0].1.len() > 0);
        let e = els[0];
        assert(c[0].1.contains(e));
        assert(offers(c, to as int, e));
        assert(members[i].set.finite());
        protocols::lemma_lacking_contains(members[i].set, members[to as int].set, e);
        assert forall|m: int| 0 <= m < c.len() implies (#[trigger] c[m]).0 != OWN_KEY by {
            assert(c[m].0 < members.len());
        }
        lemma_deliveries_ship(c, to as int, e);
        assert(ships(
            setting.protocol.sends(setting.site(next, i), next[i].carry),
            to as int,
            e,
        ));
        lemma_round_sets(setting, next, to as int, e);
        assert(last[to as int].set == members[to as int].set);
        assert(members[to as int].set.contains(e));
        lemma_held_digest(members[to as int].set, e);
    }
}

proof fn lemma_held_digest(set: Set<Element>, e: Element)
    requires
        set.finite(),
        set.contains(e),
    ensures
        replica::digests_of(set).contains(e.digest),
{
    replica::lemma_has_listing(set);
    let l = replica::listing(set);
    assert(l.to_set().contains(e));
    let x = choose|x: int| 0 <= x < l.len() && l[x] == e;
    assert(replica::digests_of(set)[x] == e.digest);
}

proof fn lemma_everything_same(a: Seq<Member>, b: Seq<Member>)
    requires
        same_sets(a, b),
    ensures
        everything(a) == everything(b),
{
    assert forall|e: Element| everything(a).contains(e) <==> everything(b).contains(e) by {
        if everything(a).contains(e) {
            let i = choose|i: int| 0 <= i < a.len() && (#[trigger] a[i]).set.contains(e);
            assert(b[i].set.contains(e));
        }
        if everything(b).contains(e) {
            let i = choose|i: int| 0 <= i < b.len() && (#[trigger] b[i]).set.contains(e);
            assert(a[i].set == b[i].set);
            assert(a[i].set.contains(e));
        }
    }
    assert(everything(a) =~= everything(b));
}

/// Sketching pairwise never stops short: where three rounds in a row change no set, whatever
/// was to be delivered, all replicas hold all that any of them holds.
pub proof fn lemma_still_rounds_are_reconciled(
    setting: Setting<AnyProtocol>,
    members: Seq<Member>,
)
    requires
        crew(setting.kind, setting.nodes, members),
        sketches_pairwise(setting.protocol),
        digests_tell(everything(members)),
        same_sets(members, after_rounds(setting, members, 1)),
        same_sets(members, after_rounds(setting, members, 2)),
        same_sets(members, after_rounds(setting, members, 3)),
    ensures
        engine::all_hold(members, everything(members)),
{
    let one = after_rounds(setting, members, 1);
    assert(after_rounds(setting, members, 0) == members);
    assert(one == setting.round(members));
    lemma_round(setting, members, everything(members));
    assert forall|k: int| 0 <= k < one.len() implies (#[trigger] one[k]).carry is None by {
        lemma_still_rounds_deliver_nothing(setting, members, k);
    }
    lemma_everything_same(members, one);
    assert(after_rounds(setting, one, 0) == one);
    assert(after_rounds(setting, one, 1) == after_rounds(setting, members, 2));
    assert(after_rounds(setting, one, 2) == after_rounds(setting, members, 3));
    assert forall|i: int| 0 <= i < one.len() implies #[trigger] after_rounds(setting, one, 2)[i].set
        == one[i].set by {
        assert(members[i].set == one[i].set);
        assert(members[i].set == after_rounds(setting, members, 3)[i].set);
    }
    lemma_rest_means_reconciled(setting, one);
    assert forall|i: int| 0 <= i < members.len() implies (#[trigger] members[i]).set
        == everything(members) by {
        assert(one[i].set == everything(one));
    }
}

/// The sizes of all sets added up.
pub open spec fn held(members: Seq<Member>) -> nat
    decreases members.len(),
{
    if members.len() == 0 {
        0
    } else {
        held(members.drop_last()) + members.last().set.len()
    }
}

proof fn lemma_held_grows(a: Seq<Member>, b: Seq<Member>)
    requires
        a.len() == b.len(),
        forall|i: int|
            0 <= i < a.len() ==> (#[trigger] a[i]).set.subset_of(b[i].set) && b[i].set.finite(),
    ensures
        held(a) <= held(b),
        held(a) == held(b) ==> same_sets(a, b),
    decreases a.len(),
{
    if a.len() > 0 {
        let (x, y) = (a.drop_last(), b.drop_last());
        assert forall|i: int| 0 <= i < x.len() implies (#[trigger] x[i]).set.subset_of(y[i].set)
            && y[i].set.finite() by {
            assert(x[i] == a[i]);
            assert(y[i] == b[i]);
        }
        lemma_held_grows(x, y);
        let (s, t) = (a[a.len() - 1].set, b[b.len() - 1].set);
        assert(s.subset_of(t) && t.finite());
        vstd::set_lib::lemma_len_subset(s, t);
        if held(a) == held(b) {
            assert(s.len() == t.len());
            lemma_same_size(s, t);
            assert forall|i: int| 0 <= i < a.len() implies (#[trigger] a[i]).set == b[i].set by {
                if i < x.len() {
                    assert(x[i].set == y[i].set);
                }
            }
        }
    }
}

proof fn lemma_same_size(s: Set<Element>, t: Set<Element>)
    requires
        t.finite(),
        s.subset_of(t),
        s.len() == t.len(),
    ensures
        s == t,
{
    vstd::set_lib::lemma_subset_equality(s, t);
}

proof fn lemma_held_bound(members: Seq<Member>, u: Set<Element>)
    requires
        u.finite(),
        forall|i: int| 0 <= i < members.len() ==> (#[trigger] members[i]).set.subset_of(u),
    ensures
        held(members) <= members.len() * u.len(),
    decreases members.len(),
{
    if members.len() > 0 {
        let rest = members.drop_last();
        assert forall|i: int| 0 <= i < rest.len() implies (#[trigger] rest[i]).set.subset_of(u) by {
            assert(rest[i] == members[i]);
        }
        lemma_held_bound(rest, u);
        assert(members[members.len() - 1].set.subset_of(u));
        vstd::set_lib::lemma_len_subset(members[members.len() - 1].set, u);
        let (n, m, x) = (members.len(), rest.len(), u.len());
        assert(n * x == m * x + x) by (nonlinear_arith)
            requires
                n == m + 1,
        ;
    }
}

proof fn lemma_everything_finite(members: Seq<Member>)
    requires
        forall|i: int| 0 <= i < members.len() ==> (#[trigger] members[i]).set.finite(),
    ensures
        everything(members).finite(),
    decreases members.len(),
{
    if members.len() == 0 {
        assert(everything(members) =~= Set::empty());
    } else {
        let rest = members.drop_last();
        assert forall|i: int| 0 <= i < rest.len() implies (#[trigger] rest[i]).set.finite() by {
            assert(rest[i] == members[i]);
        }
        lemma_everything_finite(rest);
        let last = members[members.len() - 1].set;
        assert(last.finite());
        assert forall|e: Element| everything(members).contains(e) implies everything(rest).union(
            last,
        ).contains(e) by {
            let i = choose|i: int| 0 <= i < members.len() && (#[trigger] members[i]).set.contains(e);
            if i < rest.len() {
                assert(rest[i].set.contains(e));
            }
        }
        vstd::set_lib::lemma_len_subset(everything(members), everything(rest).union(last));
    }
}

proof fn lemma_rounds_keep(
    setting: Setting<AnyProtocol>,
    members: Seq<Member>,
    k: nat,
    u: Set<Element>,
)
    requires
        crew(setting.kind, setting.nodes, members),
        members_within(members, u),
    ensures
        ({
            let end = after_rounds(setting, members, k);
            &&& crew(setting.kind, setting.nodes, end)
            &&& members_within(end, u)
            &&& forall|i: int|
                0 <= i < members.len() ==> (#[trigger] members[i]).set.subset_of(end[i].set)
        }),
    decreases k,
{
    if k > 0 {
        let before = after_rounds(setting, members, (k - 1) as nat);
        lemma_rounds_keep(setting, members, (k - 1) as nat, u);
        lemma_round(setting, before, u);
        let end = after_rounds(setting, members, k);
        assert forall|i: int| 0 <= i < members.len() implies (#[trigger] members[i]).set.subset_of(
            end[i].set,
        ) by {
            assert(before[i].set.subset_of(end[i].set));
        }
    }
}

proof fn lemma_rounds_join(setting: Setting<AnyProtocol>, members: Seq<Member>, j: nat, k: nat)
    ensures
        after_rounds(setting, after_rounds(setting, members, j), k) == after_rounds(
            setting,
            members,
            j + k,
        ),
    decreases k,
{
    if k > 0 {
        lemma_rounds_join(setting, members, j, (k - 1) as nat);
    }
}

proof fn lemma_convergence_stays(
    setting: Setting<AnyProtocol>,
    members: Seq<Member>,
    u: Set<Element>,
    k: nat,
)
    requires
        crew(setting.kind, setting.nodes, members),
        members_within(members, u),
        engine::all_hold(members, u),
    ensures
        engine::all_hold(after_rounds(setting, members, k), u),
    decreases k,
{
    if k > 0 {
        lemma_convergence_stays(setting, members, u, (k - 1) as nat);
        lemma_rounds_keep(setting, members, (k - 1) as nat, u);
        lemma_convergence_lasts(setting, after_rounds(setting, members, (k - 1) as nat), u);
    }
}

/// How many elements the replicas lack of `u`, added up.
pub open spec fn still_lacking(members: Seq<Member>, u: Set<Element>) -> nat {
    (members.len() * u.len() - held(members)) as nat
}

proof fn lemma_converges_from(
    setting: Setting<AnyProtocol>,
    members: Seq<Member>,
    u: Set<Element>,
)
    requires
        crew(setting.kind, setting.nodes, members),
        sketches_pairwise(setting.protocol),
        u.finite(),
        members_within(members, u),
        everything(members) == u,
        digests_tell(u),
    ensures
        engine::all_hold(after_rounds(setting, members, 3 * still_lacking(members, u)), u),
    decreases still_lacking(members, u),
{
    let lack = still_lacking(members, u);
    assert forall|i: int| 0 <= i < members.len() implies (#[trigger] members[i]).set.subset_of(
        u,
    ) by {}
    lemma_held_bound(members, u);
    if engine::all_hold(members, u) {
        lemma_convergence_stays(setting, members, u, 3 * lack);
    } else {
        let end = after_rounds(setting, members, 3);
        lemma_rounds_keep(setting, members, 1, u);
        lemma_rounds_keep(setting, members, 2, u);
        lemma_rounds_keep(setting, members, 3, u);
        let (one, two) = (
            after_rounds(setting, members, 1),
            after_rounds(setting, members, 2),
        );
        lemma_rounds_join(setting, members, 1, 2);
        lemma_rounds_join(setting, members, 2, 1);
        lemma_rounds_keep(setting, one, 2, u);
        lemma_rounds_keep(setting, two, 1, u);
        assert forall|i: int| 0 <= i < members.len() implies (#[trigger] members[i]).set.subset_of(
            end[i].set,
        ) && end[i].set.finite() by {}
        lemma_held_grows(members, end);
        assert forall|i: int| 0 <= i < end.len() implies (#[trigger] end[i]).set.subset_of(u) by {}
        lemma_held_bound(end, u);
        if held(members) == held(end) {
            assert forall|i: int| 0 <= i < members.len() implies (#[trigger] members[i]).set
                == one[i].set by {
                assert(one[i].set.subset_of(end[i].set));
                assert(members[i].set =~= one[i].set);
            }
            assert forall|i: int| 0 <= i < members.len() implies (#[trigger] members[i]).set
                == two[i].set by {
                assert(two[i].set.subset_of(end[i].set));
                assert(members[i].set =~= two[i].set);
            }
            lemma_still_rounds_are_reconciled(setting, members);
            assert(false);
        }
        let left = still_lacking(end, u);
        assert(left < lack);
        assert(everything(end) =~= u) by {
            assert forall|e: Element| everything(end).contains(e) <==> u.contains(e) by {
                if everything(end).contains(e) {
                    let i = choose|i: int| 0 <= i < end.len() && (#[trigger] end[i]).set.contains(e);
                    assert(end[i].set.subset_of(u));
                }
                if u.contains(e) {
                    let i = choose|i: int|
                        0 <= i < members.len() && (#[trigger] members[i]).set.contains(e);
                    assert(members[i].set.subset_of(end[i].set));
                    assert(end[i].set.contains(e));
                }
            }
        }
        lemma_converges_from(setting, end, u);
        lemma_rounds_join(setting, members, 3, 3 * left);
        let near = after_rounds(setting, members, 3 + 3 * left);
        lemma_rounds_keep(setting, members, 3 + 3 * left, u);
        let more = (3 * lack - (3 + 3 * left)) as nat;
        lemma_convergence_stays(setting, near, u, more);
        lemma_rounds_join(setting, members, 3 + 3 * left, more);
    }
}

/// The protocols that sketch pairwise converge in every topology: as long as equal digests
/// belong to equal elements, all replicas come to hold all that any of them held, after at
/// most three rounds for each element that a replica lacks.
pub proof fn lemma_sketching_converges(setting: Setting<AnyProtocol>, members: Seq<Member>)
    requires
        crew(setting.kind, setting.nodes, members),
        sketches_pairwise(setting.protocol),
        forall|k: int| 0 <= k < members.len() ==> (#[trigger] members[k]).carry is None,
        digests_tell(everything(members)),
    ensures
        engine::all_hold(
            after_rounds(setting, members, 3 * still_lacking(members, everything(members))),
            everything(members),
        ),
{
    let u = everything(members);
    assert forall|i: int| 0 <= i < members.len() implies (#[trigger] members[i]).set.finite() by {}
    lemma_everything_finite(members);
    assert forall|i: int| 0 <= i < members.len() implies (#[trigger] members[i]).set.subset_of(u)
        && carry_within(protocols::contents(members[i].carry), u) by {
        assert forall|e: Element| members[i].set.contains(e) implies u.contains(e) by {
            assert(members[i].set.contains(e));
        }
    }
    lemma_converges_from(setting, members, u);
}

proof fn lemma_finished_by(
    setting: Setting<AnyProtocol>,
    members: Seq<Member>,
    target: Set<Element>,
    j: nat,
    k: nat,
    rounds: nat,
    cap: nat,
)
    requires
        j <= k,
        rounds + k <= cap,
        engine::all_hold(after_rounds(setting, members, k), target),
    ensures
        ({
            let (end, n) = setting.finished(
                after_rounds(setting, members, j),
                target,
                rounds + j,
                cap,
            );
            &&& engine::all_hold(end, target)
            &&& n <= rounds + k
        }),
    decreases k - j,
{
    let now = after_rounds(setting, members, j);
    if !engine::all_hold(now, target) {
        lemma_finished_by(setting, members, target, j + 1, k, rounds, cap);
    }
}

/// A run of a protocol that sketches pairwise ends with all replicas holding all that any of
/// them held, whatever the topology, when the cap allows for the rounds that this can take.
pub proof fn lemma_sketching_run(
    setting: Setting<AnyProtocol>,
    members: Seq<Member>,
    rounds: nat,
    cap: nat,
)
    requires
        crew(setting.kind, setting.nodes, members),
        sketches_pairwise(setting.protocol),
        forall|k: int| 0 <= k < members.len() ==> (#[trigger] members[k]).carry is None,
        digests_tell(everything(members)),
        rounds + 3 * still_lacking(members, everything(members)) <= cap,
    ensures
        ({
            let (end, n) = setting.finished(members, everything(members), rounds, cap);
            &&& engine::all_hold(end, everything(members))
            &&& n <= rounds + 3 * still_lacking(members, everything(members))
        }),
{
    lemma_sketching_converges(setting, members);
    let k = 3 * still_lacking(members, everything(members));
    assert(after_rounds(setting, members, 0) == members);
    lemma_finished_by(setting, members, everything(members), 0, k, rounds, cap);
}

/// What a round adds to a replica's count of added elements is by how much its set has grown.
/// After the round it is active.
pub proof fn lemma_growth_is_counted(
    setting: Setting<AnyProtocol>,
    members: Seq<Member>,
    i: int,
)
    requires
        crew(setting.kind, setting.nodes, members),
        0 <= i < members.len(),
    ensures
        ({
            let next = setting.round(members)[i];
            &&& next.set.len() >= members[i].set.len()
            &&& next.added == counter::wrap_usize(
                members[i].added + (next.set.len() - members[i].set.len()),
            )
            &&& next.phase == replica::ReplicaPhase::Active
        }),
{
    lemma_round(setting, members, members[i].set);
    let (old, new) = (members[i].set, setting.round(members)[i].set);
    assert(old.subset_of(new));
    assert(new.finite()) by {
        assert(setting.round(members)[i].set.finite());
    }
    assert(old.finite());
    let more = new.difference(old);
    vstd::set_lib::lemma_set_disjoint_lens(old, more);
    assert(old + more =~= new);
}

proof fn lemma_first_round(setting: Setting<AnyProtocol>, members: Seq<Member>, k: nat)
    ensures
        after_rounds(setting, setting.round(members), k) == after_rounds(setting, members, k + 1),
    decreases k,
{
    if k > 0 {
        lemma_first_round(setting, members, (k - 1) as nat);
    } else {
        assert(after_rounds(setting, members, 0) == members);
    }
}

/// A run goes on for exactly as long as it has to: it ends as its rounds leave the replicas,
/// and before no one of them did all replicas hold the target.
pub proof fn lemma_run_stops_in_time(
    setting: Setting<AnyProtocol>,
    members: Seq<Member>,
    target: Set<Element>,
    rounds: nat,
    cap: nat,
)
    ensures
        ({
            let (end, n) = setting.finished(members, target, rounds, cap);
            &&& n >= rounds
            &&& end == after_rounds(setting, members, (n - rounds) as nat)
            &&& forall|k: nat|
                k < n - rounds ==> !engine::all_hold(
                    #[trigger] after_rounds(setting, members, k),
                    target,
                )
            &&& n == rounds || n <= cap
            &&& n < cap ==> engine::all_hold(end, target)
        }),
    decreases cap - rounds,
{
    if engine::all_hold(members, target) || rounds >= cap {
    } else {
        let next = setting.round(members);
        lemma_run_stops_in_time(setting, next, target, rounds + 1, cap);
        let (end, n) = setting.finished(members, target, rounds, cap);
        assert forall|k: nat| k < n - rounds implies !engine::all_hold(
            #[trigger] after_rounds(setting, members, k),
            target,
        ) by {
            if k > 0 {
                lemma_first_round(setting, members, (k - 1) as nat);
                assert(!engine::all_hold(after_rounds(setting, next, (k - 1) as nat), target));
            }
        }
        lemma_first_round(setting, members, (n - rounds - 1) as nat);
    }
}

} // verus!
