//! Reconciliation that follows the topology.
//!
//! Rounds alternate between sketching and delivery. In a sketching round replicas ship Bloom
//! filters: in stars to all neighbours, in chord rings to the two neighbours at one
//! power-of-two distance, which grows from sketch to sketch, and in trees to a single
//! neighbour, the next one of the list in each cycle. A receiver queues the elements that the
//! filter rules out, and delivers them in the next round.
//!
//! In trees every sketch is answered. A marker element without payload travels along with the
//! delivery, also where nothing is lacking, and is billed like any other element. It tells a
//! replica which of its edges is done, and with that whose turn is next. A round that brings no answer was one of sketches: the next one is
//! for deliveries, and who has none to make waits. That keeps all replicas in step. Several
//! holders of an element never see the same sketch, so they do not all ship that element.

use crate::simulator::algorithms::bloom::{BloomFilter, FalsePositiveRate, Filter};
use crate::simulator::algorithms::hashing::HashKey;
use crate::simulator::binary64::Binary64;
use crate::simulator::network;
use crate::simulator::network::{Outbox, Packet, ProtocolMsg};
use crate::simulator::protocols;
use crate::simulator::protocols::full_state_transfer;
use crate::simulator::protocols::{
    build_filter, deliver_pending, owe, queue, Carry, Gathered, LocalMetrics, PendingElements, Protocol,
    ProtocolKind, ProtocolStepResult, Received, Site, OWN_KEY,
};
use crate::simulator::replica;
use crate::simulator::replica::{Element, ElementSet, ReplicaView};
use crate::simulator::topology;
use crate::simulator::topology::{Topology, TopologyKind};
use vstd::arithmetic::power2::*;
use vstd::prelude::*;

verus! {

/// The opposite of the logarithm of the false-positive rate that is used for a set of the
/// given size: 0.01 in stars, 0.1 or 0.13 in chord rings, 0.27 or 0.31 in trees.
pub open spec fn rate_ln(kind: TopologyKind, set_len: nat) -> Binary64 {
    match kind {
        TopologyKind::Star => Binary64::of((0x12_6bb1_bbb5_5515int, -50int)),
        TopologyKind::Chord => if set_len > 100_000 {
            Binary64::of((0x10_525f_4c39_1ddaint, -51int))
        } else {
            Binary64::of((0x12_6bb1_bbb5_5515int, -51int))
        },
        TopologyKind::Tree => if set_len > 70_000 {
            Binary64::of((0x12_bd2a_5db2_fda2int, -52int))
        } else {
            Binary64::of((0x14_f307_7ece_4b36int, -52int))
        },
    }
}

/// How many distances the sketches of a chord ring cycle through.
pub open spec fn distances(nodes: nat) -> nat {
    if nodes <= 1 {
        1
    } else {
        topology::floor_log2(nodes)
    }
}

/// The exponent of the power of two that lies between two nodes of a ring, if the shorter way
/// between them is a power of two.
pub open spec fn distance_power(nodes: int, a: int, b: int) -> Option<nat> {
    let ahead = (b - a) % nodes;
    let behind = (a - b) % nodes;
    let dist = if ahead <= behind {
        ahead
    } else {
        behind
    };
    if nodes > 1 && dist > 0 && pow2(topology::floor_log2(dist as nat)) == dist {
        Some(topology::floor_log2(dist as nat))
    } else {
        None
    }
}

/// The exponent, or the place of a neighbour, that a replica has carried over.
pub open spec fn own_power(c: Carry) -> nat {
    if protocols::has_key(c, OWN_KEY) && protocols::under(c, OWN_KEY).len() > 0 {
        protocols::under(c, OWN_KEY)[0].digest as nat
    } else {
        0
    }
}

/// The elements that a filter does not have.
pub open spec fn not_in(f: Filter, elements: Seq<Element>) -> Seq<Element> {
    elements.filter(|e: Element| !f.has(e.digest.hash_writes()))
}

/// What receiving has come to, and what kinds of messages were among it.
pub struct Watched {
    pub gathered: Gathered,
    pub sketch: bool,
    pub elements: bool,
    /// In a ring the exponent of the last sender's distance, in a tree the place that the last
    /// marker names.
    pub power: Option<nat>,
}

/// The exponent to carry over in a chord ring: the same after sketches alone, the next one
/// after a delivery, zero when nothing came.
pub open spec fn next_power(w: Watched, nodes: nat) -> nat {
    match w.power {
        Some(p) => if w.sketch && !w.elements {
            p
        } else {
            (p + 1) % distances(nodes)
        },
        None => 0,
    }
}

/// The place of the neighbour whose turn is next in a tree: the one behind the neighbour that
/// answered, the first one where none did.
pub open spec fn next_place(w: Watched, degree: nat) -> nat {
    match w.power {
        Some(p) => (p + 1) % degree,
        None => 0,
    }
}

/// Whether the next round is one of deliveries for a replica of a tree.
pub open spec fn waits(c: Carry) -> bool {
    protocols::has_key(c, OWN_KEY) && protocols::under(c, OWN_KEY).len() > 1
}

/// What a replica carries over for itself: the exponent or the place, and a second entry where
/// it has to wait for an answer.
pub open spec fn next_own(w: Watched, site: Site) -> Seq<Element> {
    if site.kind == TopologyKind::Tree {
        let place = Element {
            digest: next_place(w, site.neighbors().len()) as u64,
            payload_len: 0,
        };
        if w.power is Some {
            seq![place]
        } else {
            seq![place, Element { digest: 1, payload_len: 0 }]
        }
    } else {
        seq![Element { digest: next_power(w, site.nodes) as u64, payload_len: 0 }]
    }
}

/// The marker that goes with an answer from node `id`: its place among the neighbours of the
/// node that it answers.
pub open spec fn answer_marker(rows: Seq<Seq<usize>>, to: usize, id: usize) -> Element {
    Element { digest: rows[to as int].index_of(id) as u64, payload_len: 0 }
}

/// The messages that answer everyone for whom something, or nothing, is pending, but for the
/// protocol's own state, each with its marker.
pub open spec fn replies(c: Carry, rows: Seq<Seq<usize>>, id: usize) -> Seq<(usize, Packet)>
    decreases c.len(),
{
    if c.len() == 0 {
        Seq::empty()
    } else if c.last().0 != OWN_KEY {
        let to = c.last().0;
        replies(c.drop_last(), rows, id).push(
            (to, Packet::Elements(c.last().1, Some(answer_marker(rows, to, id)))),
        )
    } else {
        replies(c.drop_last(), rows, id)
    }
}

pub struct MultiReplicaProtocol;

impl MultiReplicaProtocol {
    pub fn new() -> (p: Self)
        ensures
            p.is_kind() == ProtocolKind::MultiReplica,
    {
        MultiReplicaProtocol
    }

    /// The false-positive rate for a set of the given size. Stars converge in few rounds, so a
    /// low rate keeps them there; the others run many rounds anyway, and a higher rate shrinks
    /// their filters.
    pub fn fpr(kind: TopologyKind, set_len: usize) -> (r: FalsePositiveRate)
        ensures
            r.neg_ln() == rate_ln(kind, set_len as nat),
    {
        match kind {
            TopologyKind::Star => FalsePositiveRate::one_in_100(),
            TopologyKind::Chord => if set_len > 100_000 {
                FalsePositiveRate::thirteen_in_100()
            } else {
                FalsePositiveRate::one_in_10()
            },
            TopologyKind::Tree => if set_len > 70_000 {
                FalsePositiveRate::thirty_one_in_100()
            } else {
                FalsePositiveRate::twenty_seven_in_100()
            },
        }
    }

    /// The filter of a set.
    pub open spec fn sketch(set: Set<Element>, kind: TopologyKind) -> Filter {
        protocols::filter_of(replica::digests_of(set), rate_ln(kind, set.len()))
    }

    fn build_bf(set: &ElementSet, kind: TopologyKind) -> (bf: BloomFilter<u64>)
        ensures
            bf@ == Self::sketch(set@, kind),
    {
        let digests: Vec<u64> = set.digest_list();
        build_filter(&digests, Self::fpr(kind, set.len()))
    }

    /// The exponent or place carried over, reduced to those in use.
    fn read_chord_power(carry: &PendingElements, l: usize) -> (p: usize)
        requires
            protocols::keys_distinct(carry@),
            l > 0,
        ensures
            p == own_power(carry@) % l as nat,
    {
        proof {
            vstd::arithmetic::div_mod::lemma_small_mod(0, l as nat);
        }
        match carry.get(OWN_KEY) {
            Some(v) => if v.len() > 0 {
                (v[0].digest % l as u64) as usize
            } else {
                0
            },
            None => 0,
        }
    }

    /// How many distances the sketches of a chord ring cycle through: the whole part of the
    /// binary logarithm of its size, and at least one.
    pub fn chord_powers(node_count: usize) -> (l: usize)
        ensures
            l == distances(node_count as nat),
            1 <= l,
    {
        if node_count <= 1 {
            return 1;
        }
        Self::log2(node_count)
    }

    fn log2(n: usize) -> (l: usize)
        requires
            n >= 1,
        ensures
            l == topology::floor_log2(n as nat),
            n >= 2 ==> l >= 1,
    {
        proof {
            topology::lemma_floor_log2(n as nat);
        }
        let mut rest: usize = n;
        let mut l: usize = 0;
        while rest > 1
            invariant
                rest >= 1,
                l + topology::floor_log2(rest as nat) == topology::floor_log2(n as nat),
                l <= topology::floor_log2(n as nat) <= n,
                rest <= n,
            decreases rest,
        {
            rest = rest / 2;
            l = l + 1;
        }
        l
    }

    /// The exponent of the power of two between two nodes of a ring, if it is one.
    pub fn chord_distance_power(node_count: usize, local: usize, other: usize) -> (r: Option<
        usize,
    >)
        ensures
            match r {
                Some(p) => distance_power(node_count as int, local as int, other as int) == Some(
                    p as nat,
                ),
                None => distance_power(node_count as int, local as int, other as int) is None,
            },
    {
        if node_count <= 1 {
            return None;
        }
        let here: usize = local % node_count;
        let there: usize = other % node_count;
        proof {
            let n = node_count as int;
            vstd::arithmetic::div_mod::lemma_sub_mod_noop(other as int, local as int, n);
            vstd::arithmetic::div_mod::lemma_sub_mod_noop(local as int, other as int, n);
        }
        let fwd: usize = Self::ring_distance(node_count, here, there);
        let bwd: usize = Self::ring_distance(node_count, there, here);
        let dist: usize = if fwd <= bwd {
            fwd
        } else {
            bwd
        };
        if dist == 0 {
            return None;
        }
        let p: usize = Self::log2(dist);
        proof {
            topology::lemma_floor_log2(dist as nat);
        }
        let mut power: usize = 1;
        let mut i: usize = 0;
        proof {
            lemma2_to64();
        }
        while i < p
            invariant
                i <= p,
                power == pow2(i as nat),
                p == topology::floor_log2(dist as nat),
                pow2(p as nat) <= dist,
            decreases p - i,
        {
            proof {
                lemma_pow2_unfold((i + 1) as nat);
                if i + 1 < p {
                    lemma_pow2_strictly_increases((i + 1) as nat, p as nat);
                }
            }
            power = 2 * power;
            i = i + 1;
        }
        if power == dist {
            Some(p)
        } else {
            None
        }
    }

    /// How far `to` lies ahead of `from` in a ring.
    fn ring_distance(n: usize, from: usize, to: usize) -> (d: usize)
        requires
            from < n,
            to < n,
        ensures
            d == (to - from) % n as int,
            d < n,
    {
        if to >= from {
            proof {
                vstd::arithmetic::div_mod::lemma_small_mod((to - from) as nat, n as nat);
            }
            to - from
        } else {
            proof {
                vstd::arithmetic::div_mod::lemma_mod_multiples_vanish(1, to - from, n as int);
                vstd::arithmetic::div_mod::lemma_small_mod((n - (from - to)) as nat, n as nat);
                assert(n * 1 + (to - from) == n - (from - to));
            }
            n - (from - to)
        }
    }

    /// The messages of a sketching round.
    pub open spec fn sketches(site: Site, power: nat) -> Seq<(usize, Packet)> {
        let packet = Packet::Bloom(Self::sketch(site.set, site.kind));
        if site.kind == TopologyKind::Star {
            full_state_transfer::to_all(site.neighbors(), packet)
        } else if site.kind == TopologyKind::Tree {
            let degree = site.neighbors().len();
            if degree == 0 {
                Seq::empty()
            } else {
                seq![(site.neighbors()[power as int % degree as int], packet)]
            }
        } else if site.nodes <= 1 {
            Seq::empty()
        } else {
            let dist = pow2(power % distances(site.nodes)) as int;
            let fwd = ((site.id + dist) % site.nodes as int) as usize;
            let bwd = ((site.id - dist) % site.nodes as int) as usize;
            if bwd != fwd && bwd != site.id {
                seq![(fwd, packet), (bwd, packet)]
            } else {
                seq![(fwd, packet)]
            }
        }
    }

    /// What one message adds.
    pub open spec fn absorbed(site: Site, w: Watched, from: usize, p: Packet) -> Watched {
        let power = if site.kind == TopologyKind::Chord {
            match distance_power(site.nodes as int, site.id as int, from as int) {
                Some(p) => Some(p),
                None => w.power,
            }
        } else {
            w.power
        };
        match p {
            Packet::Elements(els, marker) => Watched {
                gathered: w.gathered.with(
                    from,
                    els.to_set(),
                    Seq::empty(),
                    Packet::Elements(Seq::empty(), marker),
                    0,
                ),
                elements: true,
                power: match marker {
                    Some(m) => if site.kind == TopologyKind::Tree {
                        Some(m.digest as nat % site.neighbors().len())
                    } else {
                        power
                    },
                    None => power,
                },
                ..w
            },
            Packet::Bloom(filter) => {
                let back = not_in(filter, replica::listing(site.set));
                let gathered = w.gathered.with(from, Set::empty(), back, p, 0);
                Watched {
                    gathered: if site.kind == TopologyKind::Tree {
                        Gathered {
                            pending: protocols::joined(w.gathered.pending, from, back),
                            ..gathered
                        }
                    } else {
                        gathered
                    },
                    sketch: true,
                    power,
                    ..w
                }
            },
            other => Watched {
                gathered: w.gathered.with(from, Set::empty(), Seq::empty(), other, 0),
                ..w
            },
        }
    }

    /// What the first `n` messages add up to.
    pub open spec fn watched(site: Site, inbox: Seq<(usize, Packet)>, n: nat) -> Watched
        decreases n,
    {
        if n == 0 {
            Watched {
                gathered: Gathered::start(site.set),
                sketch: false,
                elements: false,
                power: None,
            }
        } else {
            let m = inbox[n - 1];
            Self::absorbed(site, Self::watched(site, inbox, (n - 1) as nat), m.0, m.1)
        }
    }

    /// The elements of a set that a filter does not have.
    fn missing_from(set: &ElementSet, bf: &mut network::BloomMsg) -> (r: Vec<Element>)
        ensures
            r@ == not_in(old(bf)@, replica::listing(set@)),
            final(bf)@ == old(bf)@,
    {
        let ghost f = bf@;
        let elements = set.elements();
        let mut r: Vec<Element> = Vec::new();
        let mut i: usize = 0;
        proof {
            reveal(Seq::filter);
            assert(not_in(f, elements@.take(0)) =~= Seq::<Element>::empty());
        }
        while i < elements.len()
            invariant
                i <= elements@.len(),
                bf@ == f,
                r@ == not_in(f, elements@.take(i as int)),
            decreases elements@.len() - i,
        {
            let e: Element = elements[i];
            proof {
                let next = elements@.take(i + 1);
                assert(next.drop_last() =~= elements@.take(i as int));
                assert(next.last() == e);
                reveal(Seq::filter);
            }
            if !bf.contains(&e.digest) {
                r.push(e);
            }
            i = i + 1;
        }
        assert(elements@.take(i as int) =~= elements@);
        r
    }

    /// Sends one filter to each node of a list.
    fn send_sketches(&self, local: &ReplicaView<'_>, kind: TopologyKind, to: &Vec<usize>, outbox: &mut Outbox)
        requires
            old(outbox).wf(),
            old(outbox).sender() == local.id,
            forall|i: int| 0 <= i < to@.len() ==> old(outbox).reaches(#[trigger] to@[i]),
        ensures
            final(outbox).wf(),
            final(outbox).sender() == local.id,
            network::flow(final(outbox).traffic()) == protocols::delivered(
                network::flow(old(outbox).traffic()),
                local.id as int,
                full_state_transfer::to_all(
                    to@,
                    Packet::Bloom(Self::sketch(local.set@, kind)),
                ),
            ),
    {
        let ghost start = network::flow(outbox.traffic());
        let ghost links = outbox.traffic().links;
        let ghost packet = Packet::Bloom(Self::sketch(local.set@, kind));
        let ghost goal = full_state_transfer::to_all(to@, packet);
        let mut i: usize = 0;
        assert(goal.take(0) =~= Seq::<(usize, Packet)>::empty());
        while i < to.len()
            invariant
                i <= to@.len(),
                outbox.wf(),
                outbox.sender() == local.id,
                outbox.traffic().links == links,
                forall|j: int| 0 <= j < to@.len() ==> links[local.id as int].contains(
                    #[trigger] to@[j],
                ),
                packet == Packet::Bloom(Self::sketch(local.set@, kind)),
                goal == full_state_transfer::to_all(to@, packet),
                network::flow(outbox.traffic()) == protocols::delivered(
                    start,
                    local.id as int,
                    goal.take(i as int),
                ),
            decreases to@.len() - i,
        {
            let node: usize = to[i];
            assert(links[local.id as int].contains(to@[i as int]));
            outbox.send_bloom(node, Self::build_bf(local.set, kind));
            proof {
                assert(goal.take(i + 1).drop_last() =~= goal.take(i as int));
                assert(goal.take(i + 1).last() == (node, packet));
            }
            i = i + 1;
        }
        assert(goal.take(i as int) =~= goal);
    }

    /// The two neighbours at a power-of-two distance, the one ahead first.
    fn ring_neighbors(n: usize, id: usize, p: usize) -> (r: Vec<usize>)
        requires
            1 < n,
            id < n,
            p < distances(n as nat),
        ensures
            ({
                let dist = pow2(p as nat) as int;
                let fwd = ((id + dist) % n as int) as usize;
                let bwd = ((id - dist) % n as int) as usize;
                r@ == if bwd != fwd && bwd != id {
                    seq![fwd, bwd]
                } else {
                    seq![fwd]
                }
            }),
            forall|i: int|
                0 <= i < r@.len() ==> topology::chord_rows(n as nat)[id as int].contains(
                    #[trigger] r@[i],
                ),
    {
        let mut dist: usize = 1;
        let mut i: usize = 0;
        proof {
            lemma2_to64();
            topology::lemma_floor_log2(n as nat);
            lemma_pow2_strictly_increases(p as nat, topology::floor_log2(n as nat));
        }
        while i < p
            invariant
                i <= p,
                dist == pow2(i as nat),
                pow2(p as nat) < n,
            decreases p - i,
        {
            proof {
                lemma_pow2_unfold((i + 1) as nat);
                if i + 1 < p {
                    lemma_pow2_strictly_increases((i + 1) as nat, p as nat);
                }
            }
            dist = 2 * dist;
            i = i + 1;
        }
        let fwd: usize = if id >= n - dist {
            id - (n - dist)
        } else {
            id + dist
        };
        let bwd: usize = if id >= dist {
            id - dist
        } else {
            id + (n - dist)
        };
        proof {
            lemma_pow2_pos(p as nat);
            topology::lemma_ring_step(n as int, id as int, dist as int);
            topology::lemma_ring_step(n as int, bwd as int, dist as int);
            lemma_ring_back(n as int, id as int, dist as int);
            assert(pow2(p as nat) < n);
            assert(topology::hop(n as int, id as int, fwd as int, 0));
            assert(topology::hop(n as int, bwd as int, id as int, 0));
            topology::lemma_chord_neighbors(n as nat, id as int, fwd);
            topology::lemma_chord_neighbors(n as nat, id as int, bwd);
        }
        let mut r: Vec<usize> = Vec::new();
        r.push(fwd);
        if bwd != fwd && bwd != id {
            r.push(bwd);
        }
        assert(r@ =~= if bwd != fwd && bwd != id {
            seq![fwd, bwd]
        } else {
            seq![fwd]
        });
        r
    }
}

proof fn lemma_ring_back(n: int, id: int, dist: int)
    requires
        0 <= id < n,
        0 < dist < n,
    ensures
        (id - dist) % n == if id >= dist {
            id - dist
        } else {
            id - dist + n
        },
{
    if id >= dist {
        vstd::arithmetic::div_mod::lemma_small_mod((id - dist) as nat, n as nat);
    } else {
        vstd::arithmetic::div_mod::lemma_mod_multiples_vanish(1, id - dist, n);
        vstd::arithmetic::div_mod::lemma_small_mod((id - dist + n) as nat, n as nat);
        assert(n * 1 + (id - dist) == id - dist + n);
    }
}

/// An element that is queued for the sender of a sketch is one that the sender lacks.
pub proof fn lemma_queued_is_lacking(
    set: Set<Element>,
    other: Set<Element>,
    kind: TopologyKind,
    e: Element,
)
    requires
        not_in(MultiReplicaProtocol::sketch(other, kind), replica::listing(set)).contains(e),
    ensures
        !replica::digests_of(other).contains(e.digest),
{
    let f = MultiReplicaProtocol::sketch(other, kind);
    let keep = |x: Element| !f.has(x.digest.hash_writes());
    let out = replica::listing(set).filter(keep);
    let i = choose|i: int| 0 <= i < out.len() && out[i] == e;
    replica::listing(set).lemma_filter_pred(keep, i);
    let digests = replica::digests_of(other);
    if digests.contains(e.digest) {
        let j = choose|j: int| 0 <= j < digests.len() && digests[j] == e.digest;
        protocols::lemma_filter_finds(digests, rate_ln(kind, other.len()), j);
    }
}

/// Sketches are only sent to neighbours.
pub proof fn lemma_sketches_to_neighbors(site: Site, power: nat)
    requires
        site.id < site.nodes <= usize::MAX,
    ensures
        ({
            let messages = MultiReplicaProtocol::sketches(site, power);
            forall|i: int|
                0 <= i < messages.len() ==> site.neighbors().contains((#[trigger] messages[i]).0)
                    && messages[i].1 is Bloom
        }),
{
    let messages = MultiReplicaProtocol::sketches(site, power);
    if site.kind == TopologyKind::Tree {
        let degree = site.neighbors().len() as int;
        if degree > 0 {
            vstd::arithmetic::div_mod::lemma_mod_bound(power as int, degree);
            assert(messages[0].0 == site.neighbors()[power as int % degree]);
        }
    } else if site.kind == TopologyKind::Star {
        assert forall|i: int| 0 <= i < messages.len() implies site.neighbors().contains(
            (#[trigger] messages[i]).0,
        ) && messages[i].1 is Bloom by {
            assert(messages[i].0 == site.neighbors()[i]);
        }
    } else if site.nodes > 1 {
        let n = site.nodes as int;
        let id = site.id as int;
        let p = power % distances(site.nodes);
        let dist = pow2(p) as int;
        topology::lemma_floor_log2(site.nodes);
        lemma_pow2_strictly_increases(p, topology::floor_log2(site.nodes));
        lemma_pow2_pos(p);
        lemma_ring_back(n, id, dist);
        topology::lemma_ring_step(n, id, dist);
        let fwd = (id + dist) % n;
        let bwd = (id - dist) % n;
        topology::lemma_ring_step(n, bwd, dist);
        assert(topology::hop(n, id, fwd, 0));
        assert(topology::hop(n, bwd, id, 0));
        topology::lemma_chord_neighbors(site.nodes, id, fwd as usize);
        topology::lemma_chord_neighbors(site.nodes, id, bwd as usize);
    }
}

impl Protocol for MultiReplicaProtocol {
    open spec fn is_kind(&self) -> ProtocolKind {
        ProtocolKind::MultiReplica
    }

    open spec fn sends(&self, site: Site, carry: Option<Carry>) -> Seq<(usize, Packet)> {
        let pending = protocols::contents(carry);
        let answers = replies(pending, topology::rows_of(site.kind, site.nodes), site.id);
        if site.kind == TopologyKind::Tree && answers.len() > 0 {
            answers
        } else if site.kind == TopologyKind::Tree && waits(pending) {
            Seq::empty()
        } else if site.kind != TopologyKind::Tree && protocols::deliveries(pending).len() > 0 {
            protocols::deliveries(pending)
        } else {
            Self::sketches(site, own_power(pending))
        }
    }

    open spec fn receives(&self, site: Site, inbox: Seq<(usize, Packet)>) -> Received {
        let w = Self::watched(site, inbox, inbox.len());
        let pending = if site.kind != TopologyKind::Star && site.nodes > 1 {
            protocols::put(w.gathered.pending, OWN_KEY, next_own(w, site))
        } else {
            w.gathered.pending
        };
        Gathered { pending, ..w.gathered }.received()
    }

    open spec fn uses(&self, site: Site, p: Packet) -> (bool, bool) {
        (false, false)
    }

    fn kind(&self) -> ProtocolKind {
        ProtocolKind::MultiReplica
    }

    fn send_phase(
        &self,
        local: ReplicaView<'_>,
        topology: &Topology,
        outbox: &mut Outbox,
        carry: Option<PendingElements>,
    ) {
        let pending = PendingElements::of(carry);
        if topology.kind() == TopologyKind::Tree {
            if Self::has_replies(&pending) {
                Self::send_replies(outbox, local.id, topology, &pending);
                return;
            }
            if Self::has_to_wait(&pending) {
                return;
            }
        } else if Self::has_deliveries(&pending) {
            deliver_pending(outbox, &pending);
            return;
        }
        match topology.kind() {
            TopologyKind::Tree => {
                let neighbors = topology.neighbors(local.id);
                let degree: usize = neighbors.len();
                if degree == 0 {
                    return;
                }
                let place: usize = Self::read_chord_power(&pending, degree);
                let mut to: Vec<usize> = Vec::new();
                to.push(neighbors[place]);
                assert(neighbors@.contains(to@[0]));
                self.send_sketches(&local, TopologyKind::Tree, &to, outbox);
                proof {
                    let site = protocols::site_of(local, topology);
                    let packet = Packet::Bloom(Self::sketch(local.set@, TopologyKind::Tree));
                    assert(full_state_transfer::to_all(to@, packet) =~= Self::sketches(
                        site,
                        own_power(pending@),
                    ));
                }
            },
            TopologyKind::Chord => {
                let total: usize = topology.node_count();
                if total <= 1 {
                    return;
                }
                proof {
                    topology::lemma_rows_len(topology.shape(), topology.size());
                }
                let l: usize = Self::chord_powers(total);
                let p: usize = Self::read_chord_power(&pending, l);
                let to: Vec<usize> = Self::ring_neighbors(total, local.id, p);
                proof {
                    assert forall|i: int| 0 <= i < to@.len() implies outbox.reaches(
                        #[trigger] to@[i],
                    ) by {
                        assert(topology::chord_rows(total as nat)[local.id as int].contains(
                            to@[i],
                        ));
                    }
                }
                self.send_sketches(&local, TopologyKind::Chord, &to, outbox);
                proof {
                    let site = protocols::site_of(local, topology);
                    let packet = Packet::Bloom(Self::sketch(local.set@, TopologyKind::Chord));
                    assert(full_state_transfer::to_all(to@, packet) =~= Self::sketches(
                        site,
                        own_power(pending@),
                    ));
                }
            },
            TopologyKind::Star => {
                let neighbors = topology.neighbors(local.id);
                proof {
                    assert forall|i: int| 0 <= i < neighbors@.len() implies outbox.reaches(
                        #[trigger] neighbors@[i],
                    ) by {
                        assert(neighbors@.contains(neighbors@[i]));
                    }
                }
                self.send_sketches(&local, TopologyKind::Star, neighbors, outbox);
            },
        }
    }

    fn recv_phase(
        &self,
        local: ReplicaView<'_>,
        topology: &Topology,
        inbox: &mut Vec<(usize, ProtocolMsg)>,
    ) -> (r: ProtocolStepResult) {
        let ghost before = inbox@;
        let ghost start = network::packets(inbox@);
        let ghost site = protocols::site_of(local, topology);
        let ghost links = topology.rows();
        let total: usize = topology.node_count();
        let is_chord: bool = topology.kind() == TopologyKind::Chord;
        let is_tree: bool = topology.kind() == TopologyKind::Tree;
        proof {
            topology::lemma_topology_is_graph(topology.shape(), topology.size());
        }
        let neighbors = topology.neighbors(local.id);
        let mut next_set: ElementSet = local.snapshot_set();
        let mut pending = PendingElements::new();
        let mut saw_sketch: bool = false;
        let mut saw_elements: bool = false;
        let mut observed_power: Option<usize> = None;
        let mut i: usize = 0;
        while i < inbox.len()
            invariant
                i <= inbox@.len(),
                inbox@.len() == before.len(),
                start == network::packets(before),
                site == protocols::site_of(local, topology),
                links == topology.rows(),
                topology::is_graph(links),
                links.len() == total == topology.size(),
                local.id < total,
                is_chord == (topology.shape() == TopologyKind::Chord),
                is_tree == (topology.shape() == TopologyKind::Tree),
                neighbors@ == site.neighbors(),
                links[local.id as int] == neighbors@,
                observed_power matches Some(p) ==> is_tree ==> p < neighbors@.len(),
                network::inbox_wf(links, local.id as int, before),
                protocols::keys_distinct(pending@),
                protocols::keys_reachable(pending@, links, local.id as int),
                ({
                    let w = Self::watched(site, start, i as nat);
                    &&& w.gathered.next == next_set@
                    &&& w.gathered.pending == pending@
                    &&& w.gathered.inbox == network::packets(inbox@).take(i as int)
                    &&& w.gathered.false_matches == 0
                    &&& w.sketch == saw_sketch
                    &&& w.elements == saw_elements
                    &&& match observed_power {
                        Some(p) => w.power == Some(p as nat),
                        None => w.power is None,
                    }
                }),
                forall|j: int| 0 <= j < inbox@.len() ==> (#[trigger] inbox@[j]).0 == before[j].0,
                forall|j: int| i <= j < inbox@.len() ==> (#[trigger] inbox@[j]) == before[j],
            decreases inbox@.len() - i,
        {
            let from: usize = inbox[i].0;
            assert(inbox@[i as int] == before[i as int]);
            assert(network::from_neighbor(links, local.id as int, before[i as int].0));
            let ghost step = inbox@;
            let mut relevant: bool = false;
            let marker: Option<Element> = inbox[i].1.marker();
            match inbox[i].1.take_elements() {
                Some(els) => {
                    next_set.insert_all(&els);
                    saw_elements = true;
                    relevant = true;
                    match marker {
                        Some(m) => {
                            if is_tree {
                                assert(links[from as int].contains(local.id));
                                assert(neighbors@.contains(from));
                                let place: u64 = m.digest % (neighbors.len() as u64);
                                observed_power = Some(place as usize);
                            }
                        },
                        None => {},
                    }
                },
                None => {
                    match inbox[i].1.as_bloom() {
                        Some(bf) => {
                            saw_sketch = true;
                            relevant = true;
                            let to_send: Vec<Element> = Self::missing_from(local.set, bf);
                            if is_tree {
                                owe(
                                    &mut pending,
                                    from,
                                    to_send,
                                    Ghost(links),
                                    Ghost(local.id as int),
                                );
                            } else {
                                queue(
                                    &mut pending,
                                    from,
                                    to_send,
                                    Ghost(links),
                                    Ghost(local.id as int),
                                );
                            }
                        },
                        None => {},
                    }
                },
            }
            if is_chord && relevant {
                match Self::chord_distance_power(total, local.id, from) {
                    Some(p) => {
                        observed_power = Some(p);
                    },
                    None => {},
                }
            }
            i = i + 1;
            proof {
                let g = Self::watched(site, start, (i - 1) as nat).gathered;
                let h = Self::watched(site, start, i as nat).gathered;
                let now = network::packets(inbox@);
                assert(now.take(i as int) =~= g.inbox.push(now[i - 1]));
                assert(g.next.union(Set::empty()) =~= g.next);
                assert(h.next =~= next_set@);
            }
        }
        let ghost w = Self::watched(site, start, start.len());
        let ghost gathered = pending@;
        if (is_chord || is_tree) && total > 1 {
            let l: usize = if is_tree {
                neighbors.len()
            } else {
                Self::chord_powers(total)
            };
            let next: usize = match observed_power {
                Some(p) => if is_chord && saw_sketch && !saw_elements {
                    p
                } else if p % l + 1 == l {
                    0
                } else {
                    p % l + 1
                },
                None => 0,
            };
            proof {
                if let Some(p) = observed_power {
                    lemma_next_mod(p as int, l as int);
                }
                assert(next == if is_tree {
                    next_place(w, neighbors@.len())
                } else {
                    next_power(w, total as nat)
                });
            }
            let mut own: Vec<Element> = Vec::new();
            own.push(Element::new(next as u64, 0));
            if is_tree && observed_power.is_none() {
                own.push(Element::new(1, 0));
            }
            assert(own@ =~= next_own(w, site));
            pending.insert(OWN_KEY, own);
            assert forall|j: int| 0 <= j < pending@.len() implies ((#[trigger] pending@[j]).0
                == OWN_KEY || links[local.id as int].contains(pending@[j].0)) by {
                if j < gathered.len() {
                    assert(pending@[j].0 == gathered[j].0);
                }
            }
        }
        let r = ProtocolStepResult {
            next_set,
            metrics: LocalMetrics::default(),
            carry: pending.into_carry(),
        };
        assert(network::packets(inbox@).take(i as int) =~= network::packets(inbox@));
        assert(r.received(network::packets(inbox@)) =~= self.receives(site, start));
        proof {
            let uses = Seq::new(
                start.len(),
                |j: int| self.uses(protocols::site_of(local, topology), start[j].1),
            );
            protocols::lemma_totals_zero(uses, network::stamps_of(inbox@), start.len());
        }
        r
    }
}

impl MultiReplicaProtocol {
    /// Whether the next round is one of deliveries.
    fn has_to_wait(pending: &PendingElements) -> (r: bool)
        requires
            protocols::keys_distinct(pending@),
        ensures
            r == waits(pending@),
    {
        match pending.get(OWN_KEY) {
            Some(own) => own.len() > 1,
            None => false,
        }
    }

    /// The place of a node in a list that holds it once.
    fn place_of(list: &Vec<usize>, node: usize) -> (i: usize)
        requires
            list@.contains(node),
            list@.no_duplicates(),
        ensures
            i < list@.len(),
            i == list@.index_of(node),
    {
        let ghost place = list@.index_of(node);
        let n: usize = list.len();
        let mut i: usize = 0;
        while list[i] != node
            invariant
                i <= place < list@.len(),
                n == list@.len(),
                list@[place] == node,
            decreases list@.len() - i,
        {
            i = i + 1;
        }
        i
    }

    /// Answers everyone for whom something, or nothing, is pending.
    fn send_replies(
        outbox: &mut Outbox,
        from: usize,
        topology: &Topology,
        pending: &PendingElements,
    )
        requires
            old(outbox).wf(),
            old(outbox).sender() == from,
            topology.wf(),
            old(outbox).traffic().links == topology.rows(),
            protocols::keys_reachable(pending@, topology.rows(), from as int),
        ensures
            final(outbox).wf(),
            final(outbox).sender() == from,
            network::flow(final(outbox).traffic()) == protocols::delivered(
                network::flow(old(outbox).traffic()),
                from as int,
                replies(pending@, topology.rows(), from),
            ),
    {
        let ghost start = network::flow(outbox.traffic());
        let ghost links = topology.rows();
        let _total: usize = topology.node_count();
        let mut i: usize = 0;
        proof {
            topology::lemma_topology_is_graph(topology.shape(), topology.size());
        }
        assert(pending@.take(0) =~= Seq::<(usize, Seq<Element>)>::empty());
        while i < pending.len()
            invariant
                i <= pending@.len(),
                outbox.wf(),
                topology.wf(),
                outbox.sender() == from,
                outbox.traffic().links == links,
                links == topology.rows(),
                topology::is_graph(links),
                protocols::keys_reachable(pending@, links, from as int),
                network::flow(outbox.traffic()) == protocols::delivered(
                    start,
                    from as int,
                    replies(pending@.take(i as int), links, from),
                ),
            decreases pending@.len() - i,
        {
            let key: usize = pending.key(i);
            proof {
                assert(pending@.take(i + 1).drop_last() =~= pending@.take(i as int));
                assert(pending@[i as int].0 == OWN_KEY || links[from as int].contains(
                    pending@[i as int].0,
                ));
            }
            if key != OWN_KEY {
                let els = pending.elements(i);
                let copy = els.clone();
                assert(copy@ =~= els@);
                assert(links[from as int].contains(key));
                let place: usize = Self::place_of(topology.neighbors(key), from);
                let marker: Element = Element::new(place as u64, 0);
                let ghost before = replies(pending@.take(i as int), links, from);
                outbox.send_marked(key, copy, marker);
                assert(before.push((key, Packet::Elements(copy@, Some(marker)))).drop_last()
                    =~= before);
            }
            i = i + 1;
        }
        assert(pending@.take(i as int) =~= pending@);
    }

    /// Whether anyone is to be answered.
    fn has_replies(pending: &PendingElements) -> (r: bool)
        ensures
            forall|rows: Seq<Seq<usize>>, id: usize|
                r == (#[trigger] replies(pending@, rows, id).len() > 0),
    {
        let mut i: usize = 0;
        assert(pending@.take(0) =~= Seq::<(usize, Seq<Element>)>::empty());
        while i < pending.len()
            invariant
                i <= pending@.len(),
                forall|rows: Seq<Seq<usize>>, id: usize|
                    #[trigger] replies(pending@.take(i as int), rows, id).len() == 0,
            decreases pending@.len() - i,
        {
            assert(pending@.take(i + 1).drop_last() =~= pending@.take(i as int));
            if pending.key(i) != OWN_KEY {
                proof {
                    assert forall|rows: Seq<Seq<usize>>, id: usize|
                        #[trigger] replies(pending@, rows, id).len() > 0 by {
                        lemma_replies_grow(pending@, rows, id, (i + 1) as int);
                    }
                }
                return true;
            }
            proof {
                assert forall|rows: Seq<Seq<usize>>, id: usize|
                    #[trigger] replies(pending@.take(i + 1), rows, id).len() == 0 by {
                    assert(replies(pending@.take(i as int), rows, id).len() == 0);
                }
            }
            i = i + 1;
        }
        assert(pending@.take(i as int) =~= pending@);
        false
    }

    /// Whether anything is pending for a neighbour.
    fn has_deliveries(pending: &PendingElements) -> (r: bool)
        ensures
            r == (protocols::deliveries(pending@).len() > 0),
    {
        let mut i: usize = 0;
        assert(pending@.take(0) =~= Seq::<(usize, Seq<Element>)>::empty());
        while i < pending.len()
            invariant
                i <= pending@.len(),
                protocols::deliveries(pending@.take(i as int)).len() == 0,
            decreases pending@.len() - i,
        {
            assert(pending@.take(i + 1).drop_last() =~= pending@.take(i as int));
            if pending.key(i) != OWN_KEY && pending.elements(i).len() > 0 {
                proof {
                    lemma_deliveries_grow(pending@, (i + 1) as int);
                }
                return true;
            }
            i = i + 1;
        }
        assert(pending@.take(i as int) =~= pending@);
        false
    }
}

proof fn lemma_replies_grow(c: Carry, rows: Seq<Seq<usize>>, id: usize, n: int)
    requires
        0 <= n <= c.len(),
    ensures
        replies(c.take(n), rows, id).len() <= replies(c, rows, id).len(),
    decreases c.len() - n,
{
    if n == c.len() {
        assert(c.take(n) =~= c);
    } else {
        assert(c.take(n + 1).drop_last() =~= c.take(n));
        lemma_replies_grow(c, rows, id, n + 1);
    }
}

proof fn lemma_deliveries_grow(c: Carry, n: int)
    requires
        0 <= n <= c.len(),
    ensures
        protocols::deliveries(c.take(n)).len() <= protocols::deliveries(c).len(),
    decreases c.len() - n,
{
    if n == c.len() {
        assert(c.take(n) =~= c);
    } else {
        assert(c.take(n + 1).drop_last() =~= c.take(n));
        lemma_deliveries_grow(c, n + 1);
    }
}

proof fn lemma_next_mod(p: int, l: int)
    requires
        p >= 0,
        l > 0,
    ensures
        (p + 1) % l == if p % l + 1 == l {
            0
        } else {
            p % l + 1
        },
{
    let q = p / l;
    let r = p % l;
    vstd::arithmetic::div_mod::lemma_fundamental_div_mod(p, l);
    if r + 1 == l {
        assert(p + 1 == l * (q + 1)) by (nonlinear_arith)
            requires
                p == l * q + r,
                r + 1 == l,
        ;
        vstd::arithmetic::div_mod::lemma_mod_multiples_basic(q + 1, l);
        assert((q + 1) * l == l * (q + 1)) by (nonlinear_arith);
    } else {
        vstd::arithmetic::div_mod::lemma_mod_multiples_vanish(q, r + 1, l);
        vstd::arithmetic::div_mod::lemma_small_mod((r + 1) as nat, l as nat);
    }
}

/// A replica of a tree takes its neighbours in turn: when the neighbour that it sketched
/// answers, with the marker that goes with the answer, the next sketch goes to the next neighbour of the list, and past the
/// last one to the first.
pub proof fn lemma_tree_takes_turns(site: Site, place: nat, inbox: Seq<(usize, Packet)>)
    requires
        site.kind == TopologyKind::Tree,
        1 < site.nodes <= usize::MAX,
        site.id < site.nodes,
        0 < site.neighbors().len(),
        inbox.len() > 0,
        forall|i: int|
            0 <= i < inbox.len() ==> (#[trigger] inbox[i]).1.marker() == Some(
                answer_marker(
                    topology::rows_of(site.kind, site.nodes),
                    site.id,
                    site.neighbors()[place as int % site.neighbors().len() as int],
                ),
            ),
    ensures
        ({
            let degree = site.neighbors().len() as int;
            let packet = Packet::Bloom(MultiReplicaProtocol::sketch(site.set, site.kind));
            let carry = MultiReplicaProtocol.receives(site, inbox).carry;
            &&& MultiReplicaProtocol::sketches(site, place) == seq![
                (site.neighbors()[place as int % degree], packet),
            ]
            &&& MultiReplicaProtocol.sends(site, carry) == seq![
                (site.neighbors()[(place + 1) as int % degree], packet),
            ]
        }),
{
    topology::lemma_topology_is_graph(site.kind, site.nodes);
    let neighbors = site.neighbors();
    let rows = topology::rows_of(site.kind, site.nodes);
    let degree = neighbors.len() as int;
    let turn = place as int % degree;
    vstd::arithmetic::div_mod::lemma_mod_bound(place as int, degree);
    let w = MultiReplicaProtocol::watched(site, inbox, inbox.len());
    assert(neighbors.index_of(neighbors[turn]) == turn);
    lemma_degree_bound(site);
    lemma_answers_only(site, inbox, inbox.len(), turn);
    lemma_next_mod(place as int, degree);
    vstd::arithmetic::div_mod::lemma_small_mod(turn as nat, degree as nat);
    lemma_next_mod(turn, degree);
    let next = (place + 1) as int % degree;
    vstd::arithmetic::div_mod::lemma_mod_bound((place + 1) as int, degree);
    assert(next_place(w, degree as nat) == next);
    let own = next_own(w, site);
    let c = protocols::put(w.gathered.pending, OWN_KEY, own);
    assert(!protocols::has_key(w.gathered.pending, OWN_KEY));
    assert(c =~= seq![(OWN_KEY, own)]);
    assert(c.drop_last() =~= Seq::empty());
    assert(replies(c.drop_last(), rows, site.id).len() == 0);
    assert(replies(c, rows, site.id).len() == 0);
    assert(c[0].0 == OWN_KEY);
    assert(protocols::has_key(c, OWN_KEY));
    assert(protocols::under(c, OWN_KEY) == own);
    assert(own[0].digest == next);
    vstd::arithmetic::div_mod::lemma_small_mod(next as nat, degree as nat);
}

/// In a tree, a round that brings no answers is followed by one of deliveries alone: every
/// sketch is answered, with the marker that the asker goes on from, and nothing else is
/// sent.
pub proof fn lemma_tree_answers(site: Site, inbox: Seq<(usize, Packet)>)
    requires
        site.kind == TopologyKind::Tree,
        1 < site.nodes <= usize::MAX,
        site.id < site.nodes,
        network::inbox_wf(
            topology::rows_of(site.kind, site.nodes),
            site.id as int,
            inbox,
        ),
        forall|i: int| 0 <= i < inbox.len() ==> (#[trigger] inbox[i]).1 is Bloom,
    ensures
        ({
            let carry = MultiReplicaProtocol.receives(site, inbox).carry;
            let messages = MultiReplicaProtocol.sends(site, carry);
            &&& forall|x: int|
                0 <= x < messages.len() ==> (#[trigger] messages[x]).1 is Elements
                    && messages[x].1.marker() == Some(
                    answer_marker(
                        topology::rows_of(site.kind, site.nodes),
                        messages[x].0,
                        site.id,
                    ),
                )
            &&& forall|i: int|
                0 <= i < inbox.len() ==> exists|x: int|
                    0 <= x < messages.len() && (#[trigger] messages[x]).0 == (
                    #[trigger] inbox[i]).0
        }),
{
    let w = MultiReplicaProtocol::watched(site, inbox, inbox.len());
    lemma_sketches_only(site, inbox, inbox.len());
    let c = w.gathered.pending;
    let own = next_own(w, site);
    let after = protocols::put(c, OWN_KEY, own);
    assert(after.len() == c.len() + 1 && after.last() == (OWN_KEY, own)) by {
        assert(!protocols::has_key(c, OWN_KEY));
    }
    assert(after.drop_last() =~= c);
    let rows = topology::rows_of(site.kind, site.nodes);
    assert(replies(after, rows, site.id) == replies(c, rows, site.id));
    lemma_replies_are_marked(c, rows, site.id);
    assert(after[c.len() as int].0 == OWN_KEY);
    assert(protocols::has_key(after, OWN_KEY));
    let k = choose|k: int| 0 <= k < after.len() && (#[trigger] after[k]).0 == OWN_KEY;
    assert(k == c.len());
    assert(waits(after));
    let messages = MultiReplicaProtocol.sends(site, Some(after));
    assert forall|i: int| 0 <= i < inbox.len() implies exists|x: int|
        0 <= x < messages.len() && (#[trigger] messages[x]).0 == (#[trigger] inbox[i]).0 by {
        assert(protocols::has_key(c, inbox[i].0));
        let m = choose|m: int| 0 <= m < c.len() && (#[trigger] c[m]).0 == inbox[i].0;
        lemma_replied(c, rows, site.id, m);
    }
}

proof fn lemma_sketches_only(site: Site, inbox: Seq<(usize, Packet)>, n: nat)
    requires
        site.kind == TopologyKind::Tree,
        site.nodes <= usize::MAX,
        n <= inbox.len(),
        topology::rows_of(site.kind, site.nodes).len() <= usize::MAX,
        network::inbox_wf(
            topology::rows_of(site.kind, site.nodes),
            site.id as int,
            inbox,
        ),
        forall|i: int| 0 <= i < inbox.len() ==> (#[trigger] inbox[i]).1 is Bloom,
    ensures
        ({
            let w = MultiReplicaProtocol::watched(site, inbox, n);
            &&& w.power is None
            &&& forall|m: int|
                0 <= m < w.gathered.pending.len() ==> (#[trigger] w.gathered.pending[m]).0
                    != OWN_KEY
            &&& forall|i: int|
                0 <= i < n ==> protocols::has_key(
                    w.gathered.pending,
                    (#[trigger] inbox[i]).0,
                )
        }),
    decreases n,
{
    if n > 0 {
        lemma_sketches_only(site, inbox, (n - 1) as nat);
        let before = MultiReplicaProtocol::watched(site, inbox, (n - 1) as nat).gathered.pending;
        let after = MultiReplicaProtocol::watched(site, inbox, n).gathered.pending;
        let from = inbox[n - 1].0;
        assert(network::from_neighbor(
            topology::rows_of(site.kind, site.nodes),
            site.id as int,
            inbox[n - 1].0,
        ));
        assert(inbox[n - 1].1 is Bloom);
        assert forall|m: int| 0 <= m < after.len() implies (#[trigger] after[m]).0 != OWN_KEY by {
            if m < before.len() {
                assert(after[m].0 == before[m].0);
            }
        }
        assert forall|i: int| 0 <= i < n implies protocols::has_key(
            after,
            (#[trigger] inbox[i]).0,
        ) by {
            if protocols::has_key(before, inbox[i].0) {
                let m = choose|m: int| 0 <= m < before.len() && (#[trigger] before[m]).0
                    == inbox[i].0;
                assert(after[m].0 == inbox[i].0);
            } else {
                assert(i == n - 1);
                assert(after[before.len() as int].0 == from);
            }
        }
    }
}

proof fn lemma_replies_are_marked(c: Carry, rows: Seq<Seq<usize>>, id: usize)
    ensures
        ({
            let messages = replies(c, rows, id);
            forall|x: int|
                0 <= x < messages.len() ==> (#[trigger] messages[x]).1 is Elements
                    && messages[x].1.marker() == Some(answer_marker(rows, messages[x].0, id))
        }),
    decreases c.len(),
{
    if c.len() > 0 {
        lemma_replies_are_marked(c.drop_last(), rows, id);
    }
}

proof fn lemma_replied(c: Carry, rows: Seq<Seq<usize>>, id: usize, m: int)
    requires
        0 <= m < c.len(),
        c[m].0 != OWN_KEY,
    ensures
        ({
            let messages = replies(c, rows, id);
            exists|x: int| 0 <= x < messages.len() && (#[trigger] messages[x]).0 == c[m].0
        }),
    decreases c.len(),
{
    let messages = replies(c, rows, id);
    if m == c.len() - 1 {
        assert(messages[messages.len() - 1].0 == c[m].0);
    } else {
        lemma_replied(c.drop_last(), rows, id, m);
        let rest = replies(c.drop_last(), rows, id);
        let x = choose|x: int| 0 <= x < rest.len() && (#[trigger] rest[x]).0 == c.drop_last()[m].0;
        assert(messages[x] == rest[x]);
    }
}

proof fn lemma_degree_bound(site: Site)
    requires
        site.kind == TopologyKind::Tree,
        site.id < site.nodes <= usize::MAX,
    ensures
        site.neighbors().len() <= 3,
{
}

proof fn lemma_answers_only(site: Site, inbox: Seq<(usize, Packet)>, n: nat, turn: int)
    requires
        site.kind == TopologyKind::Tree,
        n <= inbox.len(),
        0 <= turn < site.neighbors().len() <= 3,
        forall|i: int|
            0 <= i < inbox.len() ==> (#[trigger] inbox[i]).1.marker() == Some(
                Element { digest: turn as u64, payload_len: 0 },
            ),
    ensures
        ({
            let w = MultiReplicaProtocol::watched(site, inbox, n);
            &&& w.gathered.pending == Seq::<(usize, Seq<Element>)>::empty()
            &&& n > 0 ==> w.power == Some(turn as nat)
        }),
    decreases n,
{
    if n > 0 {
        lemma_answers_only(site, inbox, (n - 1) as nat, turn);
        assert(inbox[n - 1].1.marker() is Some);
        vstd::arithmetic::div_mod::lemma_small_mod(turn as nat, site.neighbors().len());
    }
}

/// What a replica of a ring has carried over for itself: an exponent, zero at the start.
pub open spec fn carries_power(carry: Option<Carry>, q: nat) -> bool {
    if carry is None {
        q == 0
    } else {
        protocols::keys_distinct(carry->0) && exists|m: int|
            0 <= m < (carry->0).len() && keeps_power(#[trigger] (carry->0)[m], q)
    }
}

/// The entry that holds the protocol's own exponent.
pub open spec fn keeps_power(entry: (usize, Seq<Element>), q: nat) -> bool {
    entry.0 == OWN_KEY && entry.1.len() > 0 && entry.1[0].digest == q
}

/// Nothing is to be delivered to a neighbour.
pub open spec fn delivers_nothing(c: Carry) -> bool {
    forall|m: int| 0 <= m < c.len() ==> ((#[trigger] c[m]).0 == OWN_KEY || c[m].1.len() == 0)
}

/// One of the messages goes to the node.
pub open spec fn writes_to(messages: Seq<(usize, Packet)>, node: usize) -> bool {
    exists|x: int| 0 <= x < messages.len() && (#[trigger] messages[x]).0 == node
}

/// Two nodes of a ring lie the given number of steps apart, one way or the other.
pub open spec fn steps_apart(n: int, a: int, b: int, step: int) -> bool {
    (a + step) % n == b || (b + step) % n == a
}

proof fn lemma_own_power(carry: Option<Carry>, q: nat)
    requires
        carries_power(carry, q),
    ensures
        own_power(protocols::contents(carry)) == q,
{
    if let Some(c) = carry {
        let m = choose|m: int| 0 <= m < c.len() && keeps_power(#[trigger] c[m], q);
        let k = choose|k: int| 0 <= k < c.len() && (#[trigger] c[k]).0 == OWN_KEY;
        assert(protocols::has_key(c, OWN_KEY));
        if k < m {
            assert(c[k].0 != c[m].0);
        } else if m < k {
            assert(c[m].0 != c[k].0);
        }
    } else {
        assert(!protocols::has_key(Seq::empty(), OWN_KEY));
    }
}

proof fn lemma_nothing_delivered(c: Carry)
    requires
        delivers_nothing(c),
    ensures
        protocols::deliveries(c).len() == 0,
    decreases c.len(),
{
    if c.len() > 0 {
        let rest = c.drop_last();
        assert forall|m: int| 0 <= m < rest.len() implies ((#[trigger] rest[m]).0 == OWN_KEY
            || rest[m].1.len() == 0) by {
            assert(rest[m] == c[m]);
        }
        lemma_nothing_delivered(rest);
        assert(c[c.len() - 1].0 == OWN_KEY || c[c.len() - 1].1.len() == 0);
    }
}

proof fn lemma_distances(n: nat, l: nat)
    requires
        n > 1,
        pow2(l) <= n < pow2(l + 1),
    ensures
        distances(n) == l,
        l >= 1,
{
    topology::lemma_floor_log2(n);
    let k = topology::floor_log2(n);
    if k < l {
        if k + 1 < l {
            lemma_pow2_strictly_increases(k + 1, l);
        }
    } else if l < k {
        if l + 1 < k {
            lemma_pow2_strictly_increases(l + 1, k);
        }
    }
}

/// In a ring, a replica with nothing to deliver ships its filter both ways: to exactly the
/// nodes that lie the `p`-th power of two of steps from it, ahead or behind, and to each of
/// them once. The exponents below the binary logarithm of the ring's size are used in turn.
pub proof fn lemma_ring_receivers(site: Site, carry: Option<Carry>, q: nat, l: nat, j: usize)
    requires
        site.kind == TopologyKind::Chord,
        1 < site.nodes <= usize::MAX,
        site.id < site.nodes,
        carries_power(carry, q),
        delivers_nothing(protocols::contents(carry)),
        pow2(l) <= site.nodes < pow2(l + 1),
    ensures
        ({
            let messages = MultiReplicaProtocol.sends(site, carry);
            let n = site.nodes as int;
            &&& forall|x: int, y: int|
                0 <= x < y < messages.len() ==> (#[trigger] messages[x]).0 != (
                #[trigger] messages[y]).0
            &&& forall|x: int|
                0 <= x < messages.len() ==> (#[trigger] messages[x]).1 == Packet::Bloom(
                    MultiReplicaProtocol::sketch(site.set, TopologyKind::Chord),
                )
            &&& writes_to(messages, j) <==> (j
                < n && j != site.id && steps_apart(
                n,
                site.id as int,
                j as int,
                pow2((q % l) as nat) as int,
            ))
        }),
{
    lemma_own_power(carry, q);
    lemma_distances(site.nodes, l);
    match carry {
        Some(c) => {
            lemma_nothing_delivered(c);
        },
        None => {},
    }
    let messages = MultiReplicaProtocol.sends(site, carry);
    let (n, i) = (site.nodes as int, site.id as int);
    let p = q % l;
    vstd::arithmetic::div_mod::lemma_mod_bound(q as int, l as int);
    lemma_pow2_strictly_increases(p, l);
    lemma_pow2_pos(p);
    let dist = pow2(p) as int;
    let fwd = (i + dist) % n;
    let bwd = (i - dist) % n;
    lemma_ring_back(n, i, dist);
    topology::lemma_ring_step(n, i, dist);
    topology::lemma_ring_step(n, bwd, dist);
    assert(messages == MultiReplicaProtocol::sketches(site, q));
    assert(messages[0].0 == fwd);
    assert(bwd != i);
    assert(bwd != fwd ==> messages.len() == 2 && messages[1].0 == bwd);
    if j < n && (j + dist) % n == i {
        topology::lemma_ring_step(n, j as int, dist);
        assert(j == bwd);
    }
    assert((bwd + dist) % n == i);
}

/// Two nodes of a ring sketch each other: at the same exponent a node ships its filter to
/// another whenever that one ships its own back.
pub proof fn lemma_ring_sketches_both_ways(
    a: Site,
    b: Site,
    c: Option<Carry>,
    d: Option<Carry>,
    q: nat,
)
    requires
        a.kind == TopologyKind::Chord,
        b.kind == TopologyKind::Chord,
        a.nodes == b.nodes,
        1 < a.nodes <= usize::MAX,
        a.id < a.nodes,
        b.id < b.nodes,
        carries_power(c, q),
        carries_power(d, q),
        delivers_nothing(protocols::contents(c)),
        delivers_nothing(protocols::contents(d)),
    ensures
        writes_to(MultiReplicaProtocol.sends(a, c), b.id) <==> writes_to(
            MultiReplicaProtocol.sends(b, d),
            a.id,
        ),
{
    topology::lemma_floor_log2(a.nodes);
    let l = topology::floor_log2(a.nodes);
    lemma_ring_receivers(a, c, q, l, b.id);
    lemma_ring_receivers(b, d, q, l, a.id);
}

/// The neighbour at distance `2^p` is told from the others.
proof fn lemma_power_between(n: int, a: int, b: int, p: nat)
    requires
        0 <= a < n,
        0 <= b < n,
        n > 1,
        steps_apart(n, a, b, pow2(p) as int),
        2 * pow2(p) <= n,
    ensures
        distance_power(n, a, b) == Some(p),
{
    let step = pow2(p) as int;
    lemma_pow2_pos(p);
    let (ahead, behind) = ((b - a) % n, (a - b) % n);
    if (a + step) % n == b {
        topology::lemma_ring_step(n, a, step);
        if a + step >= n {
            vstd::arithmetic::div_mod::lemma_mod_multiples_vanish(1, b - a, n);
            assert(n * 1 + (b - a) == step);
            vstd::arithmetic::div_mod::lemma_small_mod(step as nat, n as nat);
            vstd::arithmetic::div_mod::lemma_small_mod((a - b) as nat, n as nat);
        } else {
            vstd::arithmetic::div_mod::lemma_small_mod((b - a) as nat, n as nat);
            vstd::arithmetic::div_mod::lemma_mod_multiples_vanish(1, a - b, n);
            assert(n * 1 + (a - b) == n - step);
            vstd::arithmetic::div_mod::lemma_small_mod((n - step) as nat, n as nat);
        }
        assert(ahead == step && behind == n - step);
    } else {
        topology::lemma_ring_step(n, b, step);
        if b + step >= n {
            vstd::arithmetic::div_mod::lemma_mod_multiples_vanish(1, a - b, n);
            assert(n * 1 + (a - b) == step);
            vstd::arithmetic::div_mod::lemma_small_mod(step as nat, n as nat);
            vstd::arithmetic::div_mod::lemma_small_mod((b - a) as nat, n as nat);
        } else {
            vstd::arithmetic::div_mod::lemma_small_mod((a - b) as nat, n as nat);
            vstd::arithmetic::div_mod::lemma_mod_multiples_vanish(1, b - a, n);
            assert(n * 1 + (b - a) == n - step);
            vstd::arithmetic::div_mod::lemma_small_mod((n - step) as nat, n as nat);
        }
        assert(behind == step && ahead == n - step);
    }
    topology::lemma_floor_log2(step as nat);
    let k = topology::floor_log2(step as nat);
    if k < p {
        if k + 1 < p {
            lemma_pow2_strictly_increases(k + 1, p);
        }
    } else if p < k {
        lemma_pow2_strictly_increases(p, k);
    }
}

proof fn lemma_ring_watched(site: Site, inbox: Seq<(usize, Packet)>, n: nat, p: nat)
    requires
        site.kind == TopologyKind::Chord,
        1 < site.nodes <= usize::MAX,
        site.id < site.nodes,
        2 * pow2(p) <= site.nodes,
        n <= inbox.len(),
        forall|x: int|
            0 <= x < inbox.len() ==> (#[trigger] inbox[x]).0 < site.nodes && steps_apart(
                site.nodes as int,
                site.id as int,
                inbox[x].0 as int,
                pow2(p) as int,
            ) && (inbox[x].1 is Elements || inbox[x].1 is Bloom),
    ensures
        ({
            let w = MultiReplicaProtocol::watched(site, inbox, n);
            &&& w.power == if n > 0 {
                Some(p)
            } else {
                None
            }
            &&& w.sketch == exists|x: int| 0 <= x < n && (#[trigger] inbox[x]).1 is Bloom
            &&& w.elements == exists|x: int| 0 <= x < n && (#[trigger] inbox[x]).1 is Elements
            &&& protocols::keys_distinct(w.gathered.pending)
            &&& forall|m: int|
                0 <= m < w.gathered.pending.len() ==> (#[trigger] w.gathered.pending[m]).0
                    < site.nodes
        }),
    decreases n,
{
    if n > 0 {
        lemma_ring_watched(site, inbox, (n - 1) as nat, p);
        let before = MultiReplicaProtocol::watched(site, inbox, (n - 1) as nat);
        let after = MultiReplicaProtocol::watched(site, inbox, n);
        let m = inbox[n - 1];
        assert(inbox[n - 1].0 < site.nodes);
        lemma_power_between(site.nodes as int, site.id as int, m.0 as int, p);
        if before.sketch {
            let x = choose|x: int| 0 <= x < n - 1 && (#[trigger] inbox[x]).1 is Bloom;
            assert(inbox[x].1 is Bloom);
        }
        if before.elements {
            let x = choose|x: int| 0 <= x < n - 1 && (#[trigger] inbox[x]).1 is Elements;
            assert(inbox[x].1 is Elements);
        }
        let (c, h) = (before.gathered.pending, after.gathered.pending);
        assert forall|k: int| 0 <= k < h.len() implies (#[trigger] h[k]).0 < site.nodes by {
            if k < c.len() {
                assert(h[k].0 == c[k].0);
            }
        }
        assert forall|i: int, k: int| 0 <= i < k < h.len() implies (#[trigger] h[i]).0 != (
        #[trigger] h[k]).0 by {
            assert(h[i].0 == c[i].0);
            if k < c.len() {
                assert(h[k].0 == c[k].0);
            }
        }
    }
}

proof fn lemma_put_power(c: Carry, q: nat)
    requires
        protocols::keys_distinct(c),
        q <= u64::MAX,
        forall|m: int| 0 <= m < c.len() ==> (#[trigger] c[m]).0 != OWN_KEY,
    ensures
        ({
            let own = seq![Element { digest: q as u64, payload_len: 0 }];
            carries_power(Some(protocols::put(c, OWN_KEY, own)), q)
        }),
{
    let own = seq![Element { digest: q as u64, payload_len: 0 }];
    let h = protocols::put(c, OWN_KEY, own);
    assert(!protocols::has_key(c, OWN_KEY));
    let carry: Option<Carry> = Some(h);
    assert(carry->0 == h);
    assert(keeps_power((carry->0)[c.len() as int], q));
    assert forall|i: int, k: int| 0 <= i < k < h.len() implies (#[trigger] h[i]).0 != (
    #[trigger] h[k]).0 by {
        assert(h[i] == c[i]);
        if k < c.len() {
            assert(h[k] == c[k]);
        }
    }
}

/// A ring goes from distance to distance: after sketches from the nodes at the `p`-th power
/// of two the exponent stays, so that they are answered; after answers from them the next
/// exponent is carried over, and past the last one the first. A replica that hears nothing
/// begins anew.
pub proof fn lemma_ring_advances(site: Site, inbox: Seq<(usize, Packet)>, p: nat, l: nat)
    requires
        site.kind == TopologyKind::Chord,
        1 < site.nodes < usize::MAX,
        site.id < site.nodes,
        pow2(l) <= site.nodes < pow2(l + 1),
        p < l,
        forall|x: int|
            0 <= x < inbox.len() ==> (#[trigger] inbox[x]).0 < site.nodes && steps_apart(
                site.nodes as int,
                site.id as int,
                inbox[x].0 as int,
                pow2(p) as int,
            ) && (inbox[x].1 is Elements || inbox[x].1 is Bloom),
    ensures
        carries_power(
            MultiReplicaProtocol.receives(site, inbox).carry,
            if inbox.len() == 0 {
                0
            } else if exists|x: int| 0 <= x < inbox.len() && (#[trigger] inbox[x]).1 is Elements {
                (p + 1) % l
            } else {
                p
            },
        ),
{
    lemma_distances(site.nodes, l);
    lemma_pow2_unfold(p + 1);
    if p + 1 < l {
        lemma_pow2_strictly_increases(p + 1, l);
    }
    lemma_ring_watched(site, inbox, inbox.len(), p);
    let w = MultiReplicaProtocol::watched(site, inbox, inbox.len());
    let c = w.gathered.pending;
    let q = next_power(w, site.nodes);
    vstd::arithmetic::div_mod::lemma_mod_bound((p + 1) as int, l as int);
    if inbox.len() > 0 {
        assert(inbox[0].1 is Elements || inbox[0].1 is Bloom);
    }
    topology::lemma_floor_log2(site.nodes);
    assert(q <= l <= site.nodes <= u64::MAX);
    lemma_put_power(c, q);
    let own = seq![Element { digest: q as u64, payload_len: 0 }];
    assert(next_own(w, site) =~= own);
    let h = protocols::put(c, OWN_KEY, own);
    assert(h.len() > 0);
    assert(MultiReplicaProtocol.receives(site, inbox).carry == Some(h));
}

/// In a star, a replica with nothing to deliver ships its filter to every neighbour, once.
pub proof fn lemma_star_receivers(site: Site, carry: Option<Carry>)
    requires
        site.kind == TopologyKind::Star,
        delivers_nothing(protocols::contents(carry)),
    ensures
        ({
            let messages = MultiReplicaProtocol.sends(site, carry);
            &&& messages.len() == site.neighbors().len()
            &&& forall|x: int|
                0 <= x < messages.len() ==> (#[trigger] messages[x]) == (
                    site.neighbors()[x],
                    Packet::Bloom(MultiReplicaProtocol::sketch(site.set, TopologyKind::Star)),
                )
        }),
{
    match carry {
        Some(c) => {
            lemma_nothing_delivered(c);
        },
        None => {},
    }
}

/// The false-positive rates, by the opposites of their natural logarithms, in billionths: one
/// in a hundred in stars, one in ten in chord rings up to a hundred thousand elements and
/// thirteen in a hundred beyond, twenty-seven in a hundred in trees up to seventy thousand
/// elements and thirty-one in a hundred beyond.
pub proof fn lemma_rates(set_len: nat)
    ensures
        ({
            let (star, ring, tree) = (
                rate_ln(TopologyKind::Star, set_len),
                rate_ln(TopologyKind::Chord, set_len),
                rate_ln(TopologyKind::Tree, set_len),
            );
            &&& star.exp == -50
            &&& 4_605_170_185 * 0x4_0000_0000_0000 < 1_000_000_000 * star.mant < 4_605_170_186
                * 0x4_0000_0000_0000
            &&& ring.exp == -51
            &&& set_len <= 100_000 ==> 2_302_585_092 * 0x8_0000_0000_0000 < 1_000_000_000
                * ring.mant < 2_302_585_093 * 0x8_0000_0000_0000
            &&& set_len > 100_000 ==> 2_040_220_828 * 0x8_0000_0000_0000 < 1_000_000_000
                * ring.mant < 2_040_220_829 * 0x8_0000_0000_0000
            &&& tree.exp == -52
            &&& set_len <= 70_000 ==> 1_309_333_319 * 0x10_0000_0000_0000 < 1_000_000_000
                * tree.mant < 1_309_333_320 * 0x10_0000_0000_0000
            &&& set_len > 70_000 ==> 1_171_182_981 * 0x10_0000_0000_0000 < 1_000_000_000
                * tree.mant < 1_171_182_982 * 0x10_0000_0000_0000
        }),
{
}

proof fn lemma_ruled_out(f: Filter, s: Seq<Element>, e: Element)
    ensures
        not_in(f, s).contains(e) <==> s.contains(e) && !f.has(e.digest.hash_writes()),
{
    protocols::lemma_kept(s, |x: Element| !f.has(x.digest.hash_writes()), e);
}

/// A sketch is answered with all that it rules out and nothing else: pending for its sender
/// are exactly the receiver's elements that the filter does not have, each of them once.
/// Where there are none nothing is pending for it, but in trees the bare answer is.
pub proof fn lemma_sketch_is_answered(
    p: MultiReplicaProtocol,
    site: Site,
    from: usize,
    f: Filter,
    e: Element,
)
    requires
        site.set.finite(),
        from != usize::MAX,
    ensures
        ({
            let c = protocols::contents(
                p.receives(site, seq![(from, Packet::Bloom(f))]).carry,
            );
            let back = protocols::under(c, from);
            &&& protocols::has_key(c, from) ==> back.no_duplicates()
            &&& protocols::has_key(c, from) ==> (back.contains(e) <==> site.set.contains(e)
                && !f.has(e.digest.hash_writes()))
            &&& site.set.contains(e) && !f.has(e.digest.hash_writes()) ==> protocols::has_key(
                c,
                from,
            )
            &&& protocols::has_key(c, from) && site.kind != TopologyKind::Tree ==> back.len() > 0
            &&& site.kind == TopologyKind::Tree ==> protocols::has_key(c, from)
        }),
{
    let inbox = seq![(from, Packet::Bloom(f))];
    let listed = replica::listing(site.set);
    let back = not_in(f, listed);
    replica::lemma_has_listing(site.set);
    assert(listed.to_set().contains(e) == listed.contains(e));
    lemma_ruled_out(f, listed, e);
    protocols::lemma_kept_once(listed, |x: Element| !f.has(x.digest.hash_writes()));
    let w0 = MultiReplicaProtocol::watched(site, inbox, 0);
    let w = MultiReplicaProtocol::watched(site, inbox, 1);
    assert(w == MultiReplicaProtocol::absorbed(site, w0, from, Packet::Bloom(f)));
    let none: Carry = Seq::empty();
    let got = w.gathered.pending;
    protocols::lemma_carry_keeps(none, from, back, from);
    if site.kind == TopologyKind::Tree || back.len() > 0 {
        assert(got == protocols::joined(none, from, back));
    } else {
        assert(got == none);
    }
    assert(protocols::keys_distinct(got));
    protocols::lemma_carry_keeps(got, OWN_KEY, next_own(w, site), from);
    let c = protocols::contents(p.receives(site, inbox).carry);
    let put = protocols::put(got, OWN_KEY, next_own(w, site));
    assert(c == if site.kind != TopologyKind::Star && site.nodes > 1 {
        put
    } else {
        got
    });
}

/// One of the first `n` messages is a filter of the node that does not have the digest.
pub open spec fn lacks(inbox: Seq<(usize, Packet)>, n: nat, to: usize, d: u64) -> bool {
    exists|k: int|
        0 <= k < n && (#[trigger] inbox[k]).0 == to && inbox[k].1 is Bloom && !(
        inbox[k].1->Bloom_0).has(d.hash_writes())
}

proof fn lemma_pending(site: Site, inbox: Seq<(usize, Packet)>, n: nat, to: usize, e: Element)
    requires
        site.set.finite(),
        n <= inbox.len(),
    ensures
        protocols::keys_distinct(MultiReplicaProtocol::watched(site, inbox, n).gathered.pending),
        protocols::pends(MultiReplicaProtocol::watched(site, inbox, n).gathered.pending, to, e)
            <==> site.set.contains(e) && lacks(inbox, n, to, e.digest),
    decreases n,
{
    if n > 0 {
        lemma_pending(site, inbox, (n - 1) as nat, to, e);
        let g = MultiReplicaProtocol::watched(site, inbox, (n - 1) as nat).gathered;
        let m = inbox[n - 1];
        let d = e.digest;
        let listed = replica::listing(site.set);
        let back = match m.1 {
            Packet::Bloom(f) => not_in(f, listed),
            _ => Seq::empty(),
        };
        protocols::lemma_queued_pends(g.pending, m.0, back, to, e);
        assert(protocols::queued(g.pending, m.0, Seq::<Element>::empty()) == g.pending);
        if let Packet::Bloom(f) = m.1 {
            replica::lemma_has_listing(site.set);
            assert(listed.to_set().contains(e) == listed.contains(e));
            lemma_ruled_out(f, listed, e);
        }
        let here = m.0 == to && m.1 is Bloom && !(m.1->Bloom_0).has(d.hash_writes());
        if lacks(inbox, (n - 1) as nat, to, d) {
            let k = choose|k: int|
                0 <= k < n - 1 && (#[trigger] inbox[k]).0 == to && inbox[k].1 is Bloom && !(
                inbox[k].1->Bloom_0).has(d.hash_writes());
            assert(inbox[k].0 == to);
        }
        if lacks(inbox, n, to, d) && !here {
            let k = choose|k: int|
                0 <= k < n && (#[trigger] inbox[k]).0 == to && inbox[k].1 is Bloom && !(
                inbox[k].1->Bloom_0).has(d.hash_writes());
            assert(k < n - 1);
            assert(inbox[k].0 == to);
            assert(lacks(inbox, (n - 1) as nat, to, d));
        }
        if here {
            assert(inbox[n - 1].0 == to);
            assert(lacks(inbox, n, to, d));
        }
    } else {
        assert(!lacks(inbox, 0, to, e.digest));
    }
}

/// Whatever came along with it, every filter is answered: pending for a node afterwards are
/// exactly the elements of the replica that a filter of the node does not have.
pub proof fn lemma_filters_are_answered(
    p: MultiReplicaProtocol,
    site: Site,
    inbox: Seq<(usize, Packet)>,
    to: usize,
    e: Element,
)
    requires
        site.set.finite(),
        to != usize::MAX,
    ensures
        protocols::pends(protocols::contents(p.receives(site, inbox).carry), to, e)
            <==> site.set.contains(e) && lacks(inbox, inbox.len(), to, e.digest),
{
    lemma_pending(site, inbox, inbox.len(), to, e);
    let w = MultiReplicaProtocol::watched(site, inbox, inbox.len());
    protocols::lemma_carry_keeps(w.gathered.pending, OWN_KEY, next_own(w, site), to);
}

/// A sketch is a filter that has all digests of the set, made for as many as there are at the
/// rate of the topology.
pub proof fn lemma_sketch(set: Set<Element>, kind: TopologyKind)
    requires
        set.finite(),
        set.len() > 0,
    ensures
        ({
            let f = MultiReplicaProtocol::sketch(set, kind);
            let rate = rate_ln(kind, set.len());
            &&& f.bits.len() == crate::simulator::algorithms::bloom::bits_at(
                rate,
                set.len(),
            ) as nat
            &&& f.hashes == crate::simulator::algorithms::bloom::hashes_at(rate) as u64
            &&& forall|e: Element| #[trigger] set.contains(e) ==> f.has(e.digest.hash_writes())
        }),
{
    let digests = replica::digests_of(set);
    let l = replica::listing(set);
    protocols::lemma_filter_made_for(digests, rate_ln(kind, set.len()));
    replica::lemma_has_listing(set);
    l.unique_seq_to_set();
    assert(digests.len() == set.len());
    assert forall|e: Element| #[trigger] set.contains(e) implies digests.contains(e.digest) by {
        protocols::lemma_with_digests(set, Seq::empty(), e);
    }
}

} // verus!
