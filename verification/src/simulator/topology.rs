//! Who can talk to whom.

use crate::simulator::counter;
use crate::simulator::counter::add_usize;
use vstd::arithmetic::power2::*;
use vstd::prelude::*;

verus! {

#[derive(Clone, Copy, Debug, PartialEq, Eq, Structural)]
pub enum TopologyKind {
    Star,
    Tree,
    Chord,
}

/// An undirected graph: each node has a list of neighbours.
#[derive(Debug)]
pub struct Topology {
    kind: TopologyKind,
    num_nodes: usize,
    adjacency: Vec<Vec<usize>>,
}

/// The neighbour lists of a star with node 0 in the middle.
pub open spec fn star_rows(n: nat) -> Seq<Seq<usize>> {
    Seq::new(
        n,
        |i: int|
            if i == 0 {
                Seq::new((n - 1) as nat, |j: int| (j + 1) as usize)
            } else {
                seq![0usize]
            },
    )
}

/// The neighbours of node `i` in a balanced binary tree of `n` nodes: the parent, then the
/// children.
pub open spec fn tree_row(n: int, i: int) -> Seq<usize> {
    (if i > 0 {
        seq![((i - 1) / 2) as usize]
    } else {
        Seq::empty()
    }) + (if 2 * i + 1 < n {
        seq![(2 * i + 1) as usize]
    } else {
        Seq::empty()
    }) + (if 2 * i + 2 < n {
        seq![(2 * i + 2) as usize]
    } else {
        Seq::empty()
    })
}

/// The neighbour lists of a balanced binary tree with root 0.
pub open spec fn tree_rows(n: nat) -> Seq<Seq<usize>> {
    Seq::new(n, |i: int| tree_row(n as int, i))
}

/// The lists after `b` was added to those of `a`, unless it is there.
pub open spec fn extended(rows: Seq<Seq<usize>>, a: int, b: int) -> Seq<Seq<usize>> {
    if rows[a].contains(b as usize) {
        rows
    } else {
        rows.update(a, rows[a].push(b as usize))
    }
}

/// The lists after an edge was added.
pub open spec fn linked(rows: Seq<Seq<usize>>, a: int, b: int) -> Seq<Seq<usize>> {
    if a == b {
        rows
    } else {
        extended(extended(rows, a, b), b, a)
    }
}

/// The lists after `node` was linked to the nodes that lie `offset`, `2 * offset`,
/// `4 * offset` and so on ahead of it in a ring of `n` nodes.
pub open spec fn chord_links(rows: Seq<Seq<usize>>, n: int, node: int, offset: int) -> Seq<
    Seq<usize>,
>
    decreases
            if offset < n {
                n - offset
            } else {
                0
            },
{
    if offset <= 0 || offset >= n {
        rows
    } else {
        chord_links(linked(rows, node, (node + offset) % n), n, node, 2 * offset)
    }
}

/// The lists after the first `k` nodes of a ring of `n` were linked.
pub open spec fn chord_rows_of(n: nat, k: nat) -> Seq<Seq<usize>>
    decreases k,
{
    if k == 0 {
        Seq::new(n, |i: int| Seq::empty())
    } else {
        chord_links(chord_rows_of(n, (k - 1) as nat), n as int, k - 1, 1)
    }
}

/// The neighbour lists of a chord ring.
pub open spec fn chord_rows(n: nat) -> Seq<Seq<usize>> {
    chord_rows_of(n, n)
}

/// The neighbour lists of each kind of graph.
pub open spec fn rows_of(kind: TopologyKind, n: nat) -> Seq<Seq<usize>> {
    match kind {
        TopologyKind::Star => star_rows(n),
        TopologyKind::Tree => tree_rows(n),
        TopologyKind::Chord => chord_rows(n),
    }
}

/// The sum of all list lengths.
pub open spec fn degree_sum(rows: Seq<Seq<usize>>) -> nat
    decreases rows.len(),
{
    if rows.len() == 0 {
        0
    } else {
        degree_sum(rows.drop_last()) + rows.last().len()
    }
}

/// The pairs of `a` with its neighbours that are larger, in order.
pub open spec fn row_edges(a: usize, row: Seq<usize>) -> Seq<(usize, usize)>
    decreases row.len(),
{
    if row.len() == 0 {
        Seq::empty()
    } else if a < row.last() {
        row_edges(a, row.drop_last()).push((a, row.last()))
    } else {
        row_edges(a, row.drop_last())
    }
}

/// All edges, each once, the smaller end first.
pub open spec fn all_edges(rows: Seq<Seq<usize>>) -> Seq<(usize, usize)>
    decreases rows.len(),
{
    if rows.len() == 0 {
        Seq::empty()
    } else {
        all_edges(rows.drop_last()) + row_edges((rows.len() - 1) as usize, rows.last())
    }
}

fn empty_rows(n: usize) -> (rows: Vec<Vec<usize>>)
    ensures
        rows@.len() == n,
        forall|i: int| 0 <= i < n ==> (#[trigger] rows@[i])@ == Seq::<usize>::empty(),
{
    let mut rows: Vec<Vec<usize>> = Vec::new();
    let mut i: usize = 0;
    while i < n
        invariant
            i <= n,
            rows@.len() == i,
            forall|j: int| 0 <= j < i ==> (#[trigger] rows@[j])@ == Seq::<usize>::empty(),
        decreases n - i,
    {
        rows.push(Vec::new());
        i = i + 1;
    }
    rows
}

/// Whether a list holds a value.
pub fn list_contains(list: &Vec<usize>, x: usize) -> (r: bool)
    ensures
        r == list@.contains(x),
{
    let mut i: usize = 0;
    while i < list.len()
        invariant
            i <= list@.len(),
            forall|j: int| 0 <= j < i ==> list@[j] != x,
        decreases list@.len() - i,
    {
        if list[i] == x {
            assert(list@[i as int] == x);
            return true;
        }
        i = i + 1;
    }
    false
}

/// The views of nested lists.
pub open spec fn views(rows: Seq<Vec<usize>>) -> Seq<Seq<usize>> {
    Seq::new(rows.len(), |i: int| rows[i]@)
}

impl Topology {
    /// The neighbours of each node, in order.
    pub closed spec fn rows(self) -> Seq<Seq<usize>> {
        views(self.adjacency@)
    }

    /// The kind of the graph.
    pub closed spec fn shape(self) -> TopologyKind {
        self.kind
    }

    /// The number of nodes.
    pub closed spec fn size(self) -> nat {
        self.num_nodes as nat
    }

    /// The lists are those of a graph of this kind and size.
    #[verifier::type_invariant]
    pub open spec fn wf(self) -> bool {
        self.rows() == rows_of(self.shape(), self.size())
    }

    pub fn build(kind: TopologyKind, num_nodes: usize) -> (t: Self)
        ensures
            t.shape() == kind,
            t.size() == num_nodes,
            t.wf(),
    {
        match kind {
            TopologyKind::Star => Self::star(num_nodes),
            TopologyKind::Tree => Self::tree(num_nodes),
            TopologyKind::Chord => Self::chord(num_nodes),
        }
    }

    pub fn star(num_nodes: usize) -> (t: Self)
        ensures
            t.shape() == TopologyKind::Star,
            t.size() == num_nodes,
            t.rows() == star_rows(num_nodes as nat),
    {
        let mut adjacency = empty_rows(num_nodes);
        let mut node: usize = 1;
        while node < num_nodes
            invariant
                1 <= node,
                node <= num_nodes || num_nodes == 0,
                adjacency@.len() == num_nodes,
                num_nodes > 0 ==> adjacency@[0]@ == Seq::new(
                    (node - 1) as nat,
                    |j: int| (j + 1) as usize,
                ),
                forall|i: int| 0 < i < node ==> (#[trigger] adjacency@[i])@ == seq![0usize],
                forall|i: int|
                    node <= i < num_nodes ==> (#[trigger] adjacency@[i])@ == Seq::<usize>::empty(),
            decreases num_nodes - node,
        {
            adjacency[0].push(node);
            adjacency[node].push(0);
            assert(adjacency@[node as int]@ =~= seq![0usize]);
            node = node + 1;
            assert(adjacency@[0]@ =~= Seq::new((node - 1) as nat, |j: int| (j + 1) as usize));
        }
        assert(views(adjacency@) =~= star_rows(num_nodes as nat));
        Topology { kind: TopologyKind::Star, num_nodes, adjacency }
    }

    pub fn tree(num_nodes: usize) -> (t: Self)
        ensures
            t.shape() == TopologyKind::Tree,
            t.size() == num_nodes,
            t.rows() == tree_rows(num_nodes as nat),
    {
        let mut adjacency = empty_rows(num_nodes);
        let mut node: usize = 1;
        assert(num_nodes > 0 ==> adjacency@[0]@ =~= tree_row(1, 0));
        while node < num_nodes
            invariant
                1 <= node,
                node <= num_nodes || num_nodes == 0,
                adjacency@.len() == num_nodes,
                forall|i: int|
                    0 <= i < node && i < num_nodes ==> (#[trigger] adjacency@[i])@ == tree_row(
                        node as int,
                        i,
                    ),
                forall|i: int|
                    node <= i < num_nodes ==> (#[trigger] adjacency@[i])@ == Seq::<usize>::empty(),
            decreases num_nodes - node,
        {
            let parent: usize = (node - 1) / 2;
            let ghost before = adjacency@;
            adjacency[node].push(parent);
            adjacency[parent].push(node);
            assert forall|i: int| 0 <= i < node + 1 implies (#[trigger] adjacency@[i])@
                == tree_row(node + 1, i) by {
                if i == node {
                    assert(adjacency@[i]@ =~= seq![parent]);
                    assert(tree_row(node + 1, i) =~= seq![parent]);
                } else if i == parent {
                    assert(adjacency@[i]@ =~= tree_row(node as int, i).push(node));
                    assert(tree_row(node + 1, i) =~= tree_row(node as int, i).push(node));
                } else {
                    assert(adjacency@[i]@ == before[i]@);
                    assert(tree_row(node + 1, i) =~= tree_row(node as int, i));
                }
            }
            node = node + 1;
        }
        assert(views(adjacency@) =~= tree_rows(num_nodes as nat));
        Topology { kind: TopologyKind::Tree, num_nodes, adjacency }
    }

    pub fn chord(num_nodes: usize) -> (t: Self)
        ensures
            t.shape() == TopologyKind::Chord,
            t.size() == num_nodes,
            t.rows() == chord_rows(num_nodes as nat),
    {
        let n: usize = num_nodes;
        let mut adjacency = empty_rows(n);
        assert(views(adjacency@) =~= chord_rows_of(n as nat, 0));
        let mut node: usize = 0;
        while node < n
            invariant
                node <= n,
                adjacency@.len() == n,
                views(adjacency@) == chord_rows_of(n as nat, node as nat),
            decreases n - node,
        {
            let mut offset: usize = 1;
            let mut more: bool = offset < n;
            let ghost goal = chord_rows_of(n as nat, (node + 1) as nat);
            while more
                invariant
                    node < n,
                    0 < offset,
                    adjacency@.len() == n,
                    more ==> offset < n,
                    more ==> chord_links(views(adjacency@), n as int, node as int, offset as int)
                        == goal,
                    !more ==> views(adjacency@) == goal,
                decreases
                    n - offset,
                    if more {
                        1int
                    } else {
                        0
                    },
            {
                let neighbor: usize = if node >= n - offset {
                    node - (n - offset)
                } else {
                    node + offset
                };
                proof {
                    lemma_ring_step(n as int, node as int, offset as int);
                    reveal_with_fuel(chord_links, 2);
                }
                Self::add_undirected_edge(&mut adjacency, node, neighbor);
                if offset >= n - offset {
                    more = false;
                } else {
                    offset = offset + offset;
                }
            }
            node = node + 1;
        }
        Topology { kind: TopologyKind::Chord, num_nodes, adjacency }
    }

    /// The neighbours of a node.
    pub fn neighbors(&self, node: usize) -> (r: &Vec<usize>)
        requires
            node < self.rows().len(),
        ensures
            r@ == self.rows()[node as int],
    {
        &self.adjacency[node]
    }

    pub fn is_neighbor(&self, a: usize, b: usize) -> (r: bool)
        requires
            a < self.rows().len(),
        ensures
            r == self.rows()[a as int].contains(b),
    {
        list_contains(&self.adjacency[a], b)
    }

    pub fn node_count(&self) -> (n: usize)
        ensures
            n == self.size(),
            self.wf(),
    {
        proof {
            use_type_invariant(self);
        }
        self.num_nodes
    }

    pub fn kind(&self) -> (k: TopologyKind)
        ensures
            k == self.shape(),
            self.wf(),
    {
        proof {
            use_type_invariant(self);
        }
        self.kind
    }

    /// Half the sum of all degrees.
    pub fn edge_count(&self) -> (n: usize)
        ensures
            n == counter::wrap_usize(degree_sum(self.rows()) as int) / 2,
            degree_sum(self.rows()) <= usize::MAX ==> n == degree_sum(self.rows()) / 2,
    {
        let ghost rows = self.rows();
        let mut sum: usize = 0;
        let mut i: usize = 0;
        while i < self.adjacency.len()
            invariant
                rows == self.rows(),
                i <= rows.len(),
                rows.len() == self.adjacency@.len(),
                sum == counter::wrap_usize(degree_sum(rows.take(i as int)) as int),
            decreases rows.len() - i,
        {
            proof {
                assert(rows.take(i + 1).drop_last() =~= rows.take(i as int));
                counter::lemma_wrap_usize_add(
                    degree_sum(rows.take(i as int)) as int,
                    rows[i as int].len() as int,
                );
            }
            sum = add_usize(sum, self.adjacency[i].len());
            i = i + 1;
        }
        assert(rows.take(i as int) =~= rows);
        sum / 2
    }

    /// All edges, each once, the smaller end first.
    pub fn edges(&self) -> (r: Vec<(usize, usize)>)
        ensures
            r@ == all_edges(self.rows()),
            2 * r@.len() == degree_sum(self.rows()),
            forall|a: usize, b: usize| #[trigger]
                r@.contains((a, b)) <==> a < self.rows().len() && a < b
                    && self.rows()[a as int].contains(b),
            r@.no_duplicates(),
    {
        proof {
            use_type_invariant(self);
            lemma_rows_len(self.shape(), self.size());
            lemma_edges(self.shape(), self.size());
        }
        let ghost rows = self.rows();
        let mut edges: Vec<(usize, usize)> = Vec::new();
        let mut a: usize = 0;
        while a < self.num_nodes
            invariant
                rows == self.rows(),
                rows.len() == self.adjacency@.len(),
                a <= self.num_nodes == rows.len(),
                edges@ == all_edges(rows.take(a as int)),
            decreases self.num_nodes - a,
        {
            let row = &self.adjacency[a];
            let ghost done = edges@;
            let mut i: usize = 0;
            assert(done + row_edges(a, row@.take(0)) =~= done);
            while i < row.len()
                invariant
                    i <= row@.len(),
                    edges@ == done + row_edges(a, row@.take(i as int)),
                decreases row@.len() - i,
            {
                let b: usize = row[i];
                proof {
                    assert(row@.take(i + 1).drop_last() =~= row@.take(i as int));
                }
                if a < b {
                    edges.push((a, b));
                }
                i = i + 1;
                assert(edges@ =~= done + row_edges(a, row@.take(i as int)));
            }
            assert(row@.take(i as int) =~= row@);
            assert(rows.take(a + 1).drop_last() =~= rows.take(a as int));
            a = a + 1;
        }
        assert(rows.take(a as int) =~= rows);
        edges
    }

    fn add_undirected_edge(adjacency: &mut Vec<Vec<usize>>, a: usize, b: usize)
        requires
            a < old(adjacency)@.len(),
            b < old(adjacency)@.len(),
        ensures
            final(adjacency)@.len() == old(adjacency)@.len(),
            views(final(adjacency)@) == linked(views(old(adjacency)@), a as int, b as int),
    {
        if a == b {
            return;
        }
        Self::extend_row(adjacency, a, b);
        Self::extend_row(adjacency, b, a);
    }

    fn extend_row(adjacency: &mut Vec<Vec<usize>>, a: usize, b: usize)
        requires
            a < old(adjacency)@.len(),
        ensures
            final(adjacency)@.len() == old(adjacency)@.len(),
            views(final(adjacency)@) == extended(views(old(adjacency)@), a as int, b as int),
    {
        let ghost before = views(adjacency@);
        if !list_contains(&adjacency[a], b) {
            adjacency[a].push(b);
            assert(views(adjacency@) =~= before.update(a as int, before[a as int].push(b)));
        }
    }

    pub fn is_root(&self, node: usize) -> (r: bool)
        ensures
            r == (self.shape() == TopologyKind::Tree && node == 0),
    {
        match self.kind {
            TopologyKind::Tree => node == 0,
            _ => false,
        }
    }

    /// The parent of a node in a graph of the given kind and size.
    pub open spec fn parent_of(kind: TopologyKind, n: int, node: int) -> Option<usize> {
        if kind == TopologyKind::Tree && 0 < node < n {
            Some(((node - 1) / 2) as usize)
        } else {
            None
        }
    }

    /// The children of a node in a graph of the given kind and size.
    pub open spec fn children_of(kind: TopologyKind, n: int, node: int) -> Seq<usize> {
        if kind == TopologyKind::Tree && node < n {
            (if 2 * node + 1 < n {
                seq![(2 * node + 1) as usize]
            } else {
                Seq::empty()
            }) + (if 2 * node + 2 < n {
                seq![(2 * node + 2) as usize]
            } else {
                Seq::empty()
            })
        } else {
            Seq::empty()
        }
    }

    pub fn parent(&self, node: usize) -> (r: Option<usize>)
        ensures
            r == Self::parent_of(self.shape(), self.size() as int, node as int),
    {
        match self.kind {
            TopologyKind::Tree => {
                if node == 0 || node >= self.num_nodes {
                    None
                } else {
                    Some((node - 1) / 2)
                }
            },
            _ => None,
        }
    }

    pub fn children(&self, node: usize) -> (r: Vec<usize>)
        ensures
            r@ == Self::children_of(self.shape(), self.size() as int, node as int),
    {
        let mut children: Vec<usize> = Vec::new();
        match self.kind {
            TopologyKind::Tree => {
                if node < self.num_nodes / 2 {
                    children.push(2 * node + 1);
                }
                if self.num_nodes > 0 && node < (self.num_nodes - 1) / 2 {
                    children.push(2 * node + 2);
                }
            },
            _ => {},
        }
        assert(children@ =~= Self::children_of(self.kind, self.num_nodes as int, node as int));
        children
    }
}

proof fn lemma_chord_links_len(rows: Seq<Seq<usize>>, n: int, node: int, offset: int)
    requires
        rows.len() == n,
        0 <= node < n,
    ensures
        chord_links(rows, n, node, offset).len() == rows.len(),
    decreases
            if offset < n {
                n - offset
            } else {
                0
            },
{
    if !(offset <= 0 || offset >= n) {
        lemma_ring_step(n, node, offset);
        lemma_chord_links_len(linked(rows, node, (node + offset) % n), n, node, 2 * offset);
    }
}

proof fn lemma_chord_rows_len(n: nat, k: nat)
    requires
        k <= n,
    ensures
        chord_rows_of(n, k).len() == n,
    decreases k,
{
    if k > 0 {
        lemma_chord_rows_len(n, (k - 1) as nat);
        lemma_chord_links_len(chord_rows_of(n, (k - 1) as nat), n as int, k - 1, 1);
    }
}

/// There is one list for each node.
pub proof fn lemma_rows_len(kind: TopologyKind, n: nat)
    ensures
        rows_of(kind, n).len() == n,
{
    lemma_chord_rows_len(n, n);
}

pub proof fn lemma_ring_step(n: int, node: int, offset: int)
    requires
        0 <= node < n,
        0 < offset < n,
    ensures
        (node + offset) % n == if node + offset >= n {
            node + offset - n
        } else {
            node + offset
        },
{
    if node + offset >= n {
        vstd::arithmetic::div_mod::lemma_mod_multiples_vanish(-1, node + offset, n);
        vstd::arithmetic::div_mod::lemma_small_mod((node + offset - n) as nat, n as nat);
        assert(n * -1 + (node + offset) == node + offset - n);
    } else {
        vstd::arithmetic::div_mod::lemma_small_mod((node + offset) as nat, n as nat);
    }
}

/// The exponent of the largest power of two that is at most `n`, for a positive `n`.
pub open spec fn floor_log2(n: nat) -> nat
    decreases n,
{
    if n <= 1 {
        0
    } else {
        1 + floor_log2(n / 2)
    }
}

/// A number lies between two powers of two.
pub proof fn lemma_floor_log2(n: nat)
    requires
        n >= 1,
    ensures
        pow2(floor_log2(n)) <= n < pow2(floor_log2(n) + 1),
        n >= 2 ==> floor_log2(n) >= 1,
        floor_log2(n) <= n,
    decreases n,
{
    lemma2_to64();
    if n > 1 {
        lemma_floor_log2(n / 2);
        lemma_pow2_unfold(floor_log2(n));
        lemma_pow2_unfold(floor_log2(n) + 1);
    }
}

/// What a list of neighbour lists has to satisfy to be an undirected graph without loops
/// and without double edges.
pub open spec fn is_graph(rows: Seq<Seq<usize>>) -> bool {
    &&& forall|a: int, b: usize|
        0 <= a < rows.len() && #[trigger] rows[a].contains(b) ==> b < rows.len() && a != b
            && rows[b as int].contains(a as usize)
    &&& forall|a: int| 0 <= a < rows.len() ==> (#[trigger] rows[a]).no_duplicates()
}

/// The lists hold one more edge.
proof fn lemma_linked_contains(rows: Seq<Seq<usize>>, a: int, b: int)
    requires
        is_graph(rows),
        0 <= a < rows.len() <= usize::MAX,
        0 <= b < rows.len(),
        a != b,
    ensures
        is_graph(linked(rows, a, b)),
        linked(rows, a, b).len() == rows.len(),
        forall|x: int, y: usize|
            0 <= x < rows.len() ==> (#[trigger] linked(rows, a, b)[x].contains(y) <==> (
            rows[x].contains(y) || (x == a && y == b) || (x == b && y == a))),
{
    let one = extended(rows, a, b);
    let two = linked(rows, a, b);
    assert forall|x: int, y: usize|
        0 <= x < rows.len() implies (#[trigger] one[x].contains(y) <==> (rows[x].contains(y) || (x
        == a && y == b))) by {
        lemma_extended_contains(rows, a, b, x, y);
    }
    assert forall|x: int, y: usize|
        0 <= x < rows.len() implies (#[trigger] two[x].contains(y) <==> (rows[x].contains(y) || (x
        == a && y == b) || (x == b && y == a))) by {
        lemma_extended_contains(one, b, a, x, y);
        assert(one[x].contains(y) <==> (rows[x].contains(y) || (x == a && y == b)));
    }
    assert forall|x: int| 0 <= x < two.len() implies (#[trigger] two[x]).no_duplicates() by {
        assert(rows[x].no_duplicates());
        assert(one[x].no_duplicates());
    }
    assert forall|x: int, y: usize|
        0 <= x < two.len() && #[trigger] two[x].contains(y) implies y < two.len() && x != y
        && two[y as int].contains(x as usize) by {
        assert(rows[x].contains(y) || (x == a && y == b) || (x == b && y == a));
        if rows[x].contains(y) {
            assert(rows[y as int].contains(x as usize));
        }
    }
}

proof fn lemma_extended_contains(rows: Seq<Seq<usize>>, a: int, b: int, x: int, y: usize)
    requires
        0 <= a < rows.len(),
        0 <= b <= usize::MAX,
        0 <= x < rows.len(),
    ensures
        extended(rows, a, b).len() == rows.len(),
        extended(rows, a, b)[x].contains(y) <==> (rows[x].contains(y) || (x == a && y == b)),
{
    if !rows[a].contains(b as usize) && x == a {
        let row = rows[a].push(b as usize);
        if rows[a].contains(y) {
            let i = choose|i: int| 0 <= i < rows[a].len() && rows[a][i] == y;
            assert(row[i] == y);
        }
        if y == b {
            assert(row[rows[a].len() as int] == y);
        }
        if row.contains(y) && y != b {
            let i = choose|i: int| 0 <= i < row.len() && row[i] == y;
            assert(rows[a][i] == y);
        }
    }
}

/// `b` lies a power of two ahead of `a` in a ring of `n` nodes, the power being less than `n`
/// and its exponent at least `p`.
pub open spec fn hop(n: int, a: int, b: int, p: nat) -> bool {
    exists|q: nat| p <= q && #[trigger] pow2(q) < n && b == (a + pow2(q)) % n
}

proof fn lemma_chord_links_contains(rows: Seq<Seq<usize>>, n: int, node: int, p: nat)
    requires
        is_graph(rows),
        rows.len() == n,
        0 <= node < n <= usize::MAX,
    ensures
        is_graph(chord_links(rows, n, node, pow2(p) as int)),
        chord_links(rows, n, node, pow2(p) as int).len() == n,
        forall|x: int, y: usize|
            0 <= x < n ==> (#[trigger] chord_links(rows, n, node, pow2(p) as int)[x].contains(y)
                <==> (rows[x].contains(y) || (x == node && hop(n, node, y as int, p)) || (y == node
                && hop(n, node, x, p)))),
    decreases
            if pow2(p) < n {
                n - pow2(p)
            } else {
                0
            },
{
    let offset = pow2(p) as int;
    lemma_pow2_pos(p);
    if offset >= n {
        assert forall|b: int| !#[trigger] hop(n, node, b, p) by {
            if hop(n, node, b, p) {
                let q = choose|q: nat|
                    p <= q && #[trigger] pow2(q) < n && b == (node + pow2(q)) % n;
                if p < q {
                    lemma_pow2_strictly_increases(p, q);
                }
            }
        }
    } else {
        let to = (node + offset) % n;
        lemma_ring_step(n, node, offset);
        lemma_linked_contains(rows, node, to);
        let next = linked(rows, node, to);
        lemma_pow2_unfold(p + 1);
        assert(pow2(p + 1) == 2 * offset);
        lemma_chord_links_contains(next, n, node, p + 1);
        let end = chord_links(next, n, node, 2 * offset);
        assert forall|b: int| #[trigger] hop(n, node, b, p) <==> (b == to || hop(
            n,
            node,
            b,
            p + 1,
        )) by {
            if hop(n, node, b, p) {
                let q = choose|q: nat|
                    p <= q && #[trigger] pow2(q) < n && b == (node + pow2(q)) % n;
                if q != p {
                    assert(p + 1 <= q && pow2(q) < n);
                }
            }
            if b == to {
                assert(pow2(p) < n);
            }
            if hop(n, node, b, p + 1) {
                let q = choose|q: nat|
                    p + 1 <= q && #[trigger] pow2(q) < n && b == (node + pow2(q)) % n;
                assert(p <= q && pow2(q) < n);
            }
        }
        assert forall|x: int, y: usize|
            0 <= x < n implies (#[trigger] chord_links(rows, n, node, offset)[x].contains(y) <==> (
        rows[x].contains(y) || (x == node && hop(n, node, y as int, p)) || (y == node && hop(
            n,
            node,
            x,
            p,
        )))) by {
            assert(end[x].contains(y) <==> (next[x].contains(y) || (x == node && hop(
                n,
                node,
                y as int,
                p + 1,
            )) || (y == node && hop(n, node, x, p + 1))));
            assert(next[x].contains(y) <==> (rows[x].contains(y) || (x == node && y == to) || (x
                == to && y == node)));
        }
    }
}

proof fn lemma_chord_rows_contains(n: nat, k: nat)
    requires
        k <= n <= usize::MAX,
    ensures
        is_graph(chord_rows_of(n, k)),
        chord_rows_of(n, k).len() == n,
        forall|x: int, y: usize|
            0 <= x < n && y < n ==> (#[trigger] chord_rows_of(n, k)[x].contains(y) <==> ((x < k
                && hop(n as int, x, y as int, 0)) || (y < k && hop(n as int, y as int, x, 0)))),
    decreases k,
{
    lemma_chord_rows_len(n, k);
    if k == 0 {
        let rows = chord_rows_of(n, 0);
        assert forall|x: int, y: usize| 0 <= x < n implies !#[trigger] rows[x].contains(y) by {
            assert(rows[x] =~= Seq::<usize>::empty());
        }
    } else {
        let prev = chord_rows_of(n, (k - 1) as nat);
        lemma_chord_rows_contains(n, (k - 1) as nat);
        lemma2_to64();
        lemma_chord_links_contains(prev, n as int, k - 1, 0);
        let rows = chord_rows_of(n, k);
        assert(rows == chord_links(prev, n as int, k - 1, pow2(0) as int));
        assert forall|x: int, y: usize|
            0 <= x < n && y < n implies (#[trigger] rows[x].contains(y) <==> ((x < k && hop(
            n as int,
            x,
            y as int,
            0,
        )) || (y < k && hop(n as int, y as int, x, 0)))) by {
            assert(prev[x].contains(y) <==> ((x < k - 1 && hop(n as int, x, y as int, 0)) || (y < k
                - 1 && hop(n as int, y as int, x, 0))));
        }
    }
}

/// In a chord ring two nodes are neighbours exactly when one lies a power of two ahead of
/// the other, the power being smaller than the ring.
pub proof fn lemma_chord_neighbors(n: nat, a: int, b: usize)
    requires
        0 <= a < n <= usize::MAX,
        b < n,
    ensures
        chord_rows(n)[a].contains(b) <==> (hop(n as int, a, b as int, 0) || hop(
            n as int,
            b as int,
            a,
            0,
        )),
{
    lemma_chord_rows_contains(n, n);
}

proof fn lemma_star_is_graph(n: nat)
    requires
        n <= usize::MAX,
    ensures
        is_graph(star_rows(n)),
{
    let rows = star_rows(n);
    assert forall|a: int, b: usize|
        0 <= a < rows.len() && #[trigger] rows[a].contains(b) implies b < rows.len() && a != b
        && rows[b as int].contains(a as usize) by {
        let i = choose|i: int| 0 <= i < rows[a].len() && rows[a][i] == b;
        if a == 0 {
            assert(b == i + 1);
            assert(rows[b as int][0] == 0);
        } else {
            assert(rows[0][a - 1] == a);
        }
    }
}

proof fn lemma_tree_is_graph(n: nat)
    requires
        n <= usize::MAX,
    ensures
        is_graph(tree_rows(n)),
{
    let rows = tree_rows(n);
    let m = n as int;
    assert forall|a: int, b: usize|
        0 <= a < rows.len() && #[trigger] rows[a].contains(b) implies b < rows.len() && a != b
        && rows[b as int].contains(a as usize) by {
        let i = choose|i: int| 0 <= i < rows[a].len() && rows[a][i] == b;
        let row = tree_row(m, b as int);
        if a > 0 && b == (a - 1) / 2 {
            if a == 2 * b + 1 {
                assert(row[if b > 0 {
                    1
                } else {
                    0
                }] == a);
            } else {
                assert(a == 2 * b + 2);
                assert(row[if b > 0 {
                    2
                } else {
                    1
                }] == a);
            }
        } else {
            assert(b == 2 * a + 1 || b == 2 * a + 2);
            assert(row[0] == a);
        }
    }
}

/// Every topology is an undirected graph without loops and without double edges.
pub proof fn lemma_topology_is_graph(kind: TopologyKind, n: nat)
    requires
        n <= usize::MAX,
    ensures
        rows_of(kind, n).len() == n,
        is_graph(rows_of(kind, n)),
{
    lemma_star_is_graph(n);
    lemma_tree_is_graph(n);
    lemma_chord_rows_contains(n, n);
}

/// Two nodes of a star are neighbours, or the middle is a neighbour of both.
pub proof fn lemma_star_diameter(n: nat, a: int, b: int)
    requires
        0 <= a < n <= usize::MAX,
        0 <= b < n,
        a != b,
    ensures
        star_rows(n)[a].contains(b as usize) || (star_rows(n)[a].contains(0) && star_rows(
            n,
        )[b].contains(0)),
{
    let rows = star_rows(n);
    if a == 0 {
        assert(rows[0][b - 1] == b);
    } else if b == 0 {
        assert(rows[a][0] == 0);
    } else {
        assert(rows[a][0] == 0 && rows[b][0] == 0);
    }
}

/// The parent of a node's children is the node, and every node but the root is a child of
/// its parent.
pub proof fn lemma_parent_and_children(n: int, node: int, child: usize)
    requires
        0 <= node < n <= usize::MAX,
    ensures
        Topology::children_of(TopologyKind::Tree, n, node).contains(child)
            <==> Topology::parent_of(TopologyKind::Tree, n, child as int) == Some(node as usize),
        Topology::parent_of(TopologyKind::Tree, n, child as int) is Some ==> Topology::parent_of(
            TopologyKind::Tree,
            n,
            child as int,
        )->0 < child,
{
    let c = Topology::children_of(TopologyKind::Tree, n, node);
    if c.contains(child) {
        let i = choose|i: int| 0 <= i < c.len() && c[i] == child;
    }
    if Topology::parent_of(TopologyKind::Tree, n, child as int) == Some(node as usize) {
        if child == 2 * node + 1 {
            assert(c[0] == child);
        } else {
            assert(child == 2 * node + 2);
            assert(c[1] == child);
        }
    }
}

/// The neighbours of a tree node are its parent and its children.
pub proof fn lemma_tree_neighbors(n: int, node: int)
    requires
        0 <= node < n,
    ensures
        tree_row(n, node) == (match Topology::parent_of(TopologyKind::Tree, n, node) {
            Some(p) => seq![p],
            None => Seq::empty(),
        }) + Topology::children_of(TopologyKind::Tree, n, node),
{
    assert(tree_row(n, node) =~= (match Topology::parent_of(TopologyKind::Tree, n, node) {
        Some(p) => seq![p],
        None => Seq::empty(),
    }) + Topology::children_of(TopologyKind::Tree, n, node));
}

proof fn lemma_star_degrees(n: nat, k: nat)
    requires
        0 < k <= n,
    ensures
        degree_sum(star_rows(n).take(k as int)) == n - 1 + k - 1,
    decreases k,
{
    let rows = star_rows(n).take(k as int);
    assert(rows.drop_last() =~= star_rows(n).take(k - 1));
    if k == 1 {
        assert(degree_sum(rows.drop_last()) == 0);
    } else {
        lemma_star_degrees(n, (k - 1) as nat);
    }
}

/// Children of the first `k` nodes of a tree of `n` nodes.
spec fn children_before(n: int, k: int) -> int {
    if k == 0 {
        0
    } else if 2 * k < n {
        2 * k
    } else {
        n - 1
    }
}

proof fn lemma_tree_degrees(n: nat, k: nat)
    requires
        0 < n,
        k <= n,
    ensures
        degree_sum(tree_rows(n).take(k as int)) == (if k == 0 {
            0
        } else {
            k - 1
        }) + children_before(n as int, k as int),
    decreases k,
{
    let rows = tree_rows(n).take(k as int);
    if k > 0 {
        assert(rows.drop_last() =~= tree_rows(n).take(k - 1));
        lemma_tree_degrees(n, (k - 1) as nat);
    }
}

/// Stars and trees have one edge less than nodes.
pub proof fn lemma_star_and_tree_edges(n: nat)
    requires
        n > 0,
    ensures
        degree_sum(star_rows(n)) == 2 * (n - 1),
        degree_sum(tree_rows(n)) == 2 * (n - 1),
{
    lemma_star_degrees(n, n);
    lemma_tree_degrees(n, n);
    assert(star_rows(n).take(n as int) =~= star_rows(n));
    assert(tree_rows(n).take(n as int) =~= tree_rows(n));
}

/// `b` can be reached from `a` in at most `k` steps from neighbour to neighbour.
pub open spec fn near(rows: Seq<Seq<usize>>, a: int, b: int, k: nat) -> bool
    decreases k,
{
    a == b || (k > 0 && near_through(rows, a, b, k))
}

/// Some neighbour of `a` is at most `k - 1` steps from `b`.
pub open spec fn near_through(rows: Seq<Seq<usize>>, a: int, b: int, k: nat) -> bool
    decreases k, 0nat,
    when k > 0
{
    exists|c: usize| #[trigger] rows[a].contains(c) && near(rows, c as int, b, (k - 1) as nat)
}

/// More steps reach as far.
pub proof fn lemma_near_more(rows: Seq<Seq<usize>>, a: int, b: int, k: nat, l: nat)
    requires
        near(rows, a, b, k),
        k <= l,
    ensures
        near(rows, a, b, l),
    decreases k,
{
    if a != b {
        let c = choose|c: usize| #[trigger]
            rows[a].contains(c) && near(rows, c as int, b, (k - 1) as nat);
        lemma_near_more(rows, c as int, b, (k - 1) as nat, (l - 1) as nat);
        assert(near_through(rows, a, b, l));
    }
}

/// Ways can be joined.
pub proof fn lemma_near_join(rows: Seq<Seq<usize>>, a: int, b: int, c: int, k: nat, l: nat)
    requires
        near(rows, a, b, k),
        near(rows, b, c, l),
    ensures
        near(rows, a, c, k + l),
    decreases k,
{
    if a == b {
        lemma_near_more(rows, b, c, l, k + l);
    } else {
        let d = choose|d: usize| #[trigger]
            rows[a].contains(d) && near(rows, d as int, b, (k - 1) as nat);
        lemma_near_join(rows, d as int, b, c, (k - 1) as nat, l);
        assert(near(rows, d as int, c, (k + l - 1) as nat));
        assert(near_through(rows, a, c, k + l));
    }
}

/// Ways lead back.
pub proof fn lemma_near_back(rows: Seq<Seq<usize>>, a: int, b: int, k: nat)
    requires
        is_graph(rows),
        rows.len() <= usize::MAX,
        0 <= a < rows.len(),
        near(rows, a, b, k),
    ensures
        near(rows, b, a, k),
    decreases k,
{
    if a != b {
        let c = choose|c: usize| #[trigger]
            rows[a].contains(c) && near(rows, c as int, b, (k - 1) as nat);
        lemma_near_back(rows, c as int, b, (k - 1) as nat);
        assert(rows[c as int].contains(a as usize));
        assert(near(rows, a as usize as int, a, 0));
        assert(near_through(rows, c as int, a, 1));
        lemma_near_join(rows, b, c as int, a, (k - 1) as nat, 1);
    }
}

proof fn lemma_tree_depth(n: nat, i: int)
    requires
        0 <= i < n <= usize::MAX,
    ensures
        near(tree_rows(n), i, 0, floor_log2((i + 1) as nat)),
    decreases i,
{
    if i > 0 {
        let up = (i - 1) / 2;
        lemma_tree_depth(n, up);
        assert((i + 1) / 2 == up + 1);
        let rows = tree_rows(n);
        assert(rows[i][0] == up as usize);
        assert(rows[i].contains(up as usize));
        assert(near_through(rows, i, 0, floor_log2((i + 1) as nat)));
    }
}

proof fn lemma_floor_log2_grows(a: nat, b: nat)
    requires
        a <= b,
    ensures
        floor_log2(a) <= floor_log2(b),
    decreases b,
{
    if a > 1 {
        lemma_floor_log2_grows(a / 2, b / 2);
    }
}

proof fn lemma_ring_way(n: nat, a: int, b: int, d: int)
    requires
        0 <= a < n <= usize::MAX,
        0 <= b < n,
        0 < d < n,
        b == (a + d) % n as int,
    ensures
        near(chord_rows(n), a, b, floor_log2(d as nat) + 1),
    decreases d,
{
    let rows = chord_rows(n);
    let p = floor_log2(d as nat);
    lemma_floor_log2(d as nat);
    lemma_pow2_pos(p);
    let step = pow2(p) as int;
    lemma_ring_step(n as int, a, step);
    lemma_ring_step(n as int, a, d);
    let c = (a + step) % n as int;
    assert(hop(n as int, a, c, 0));
    lemma_chord_neighbors(n, a, c as usize);
    let rest = d - step;
    if rest == 0 {
        assert(near(rows, c as usize as int, b, 0));
        lemma_near_more(rows, c, b, 0, p);
    } else {
        lemma_ring_step(n as int, c, rest);
        lemma_ring_way(n, c, b, rest);
        lemma_pow2_unfold(p + 1);
        lemma_floor_log2(rest as nat);
        if floor_log2(rest as nat) >= p {
            if floor_log2(rest as nat) > p {
                lemma_pow2_strictly_increases(p, floor_log2(rest as nat));
            }
        }
        lemma_near_more(rows, c, b, floor_log2(rest as nat) + 1, p);
    }
    assert(rows[a].contains(c as usize) && near(rows, c as usize as int, b, p));
    assert(near_through(rows, a, b, p + 1));
}

/// How many steps are enough between any two nodes: two in stars, twice the binary logarithm
/// of the size in trees, and one more than the binary logarithm in chord rings.
pub open spec fn diameter(kind: TopologyKind, n: nat) -> nat {
    match kind {
        TopologyKind::Star => 2,
        TopologyKind::Tree => 2 * floor_log2(n),
        TopologyKind::Chord => floor_log2(n) + 1,
    }
}

/// Any two nodes are connected, by a way that is no longer than the diameter.
pub proof fn lemma_diameter(kind: TopologyKind, n: nat, a: int, b: int)
    requires
        0 <= a < n <= usize::MAX,
        0 <= b < n,
    ensures
        near(rows_of(kind, n), a, b, diameter(kind, n)),
{
    lemma_topology_is_graph(kind, n);
    let rows = rows_of(kind, n);
    match kind {
        TopologyKind::Star => {
            if a != b {
                lemma_star_diameter(n, a, b);
                if rows[a].contains(b as usize) {
                    assert(near(rows, b as usize as int, b, 1));
                } else {
                    assert(rows[0].contains(b as usize)) by {
                        assert(rows[b].contains(0));
                    }
                    assert(near(rows, b as usize as int, b, 0));
                    assert(near_through(rows, 0, b, 1));
                    assert(near(rows, 0, b, 1));
                }
                assert(near_through(rows, a, b, 2));
            }
        },
        TopologyKind::Tree => {
            lemma_tree_depth(n, a);
            lemma_tree_depth(n, b);
            lemma_floor_log2_grows((a + 1) as nat, n);
            lemma_floor_log2_grows((b + 1) as nat, n);
            lemma_near_more(rows, a, 0, floor_log2((a + 1) as nat), floor_log2(n));
            lemma_near_more(rows, b, 0, floor_log2((b + 1) as nat), floor_log2(n));
            lemma_near_back(rows, b, 0, floor_log2(n));
            lemma_near_join(rows, a, 0, b, floor_log2(n), floor_log2(n));
        },
        TopologyKind::Chord => {
            if a != b {
                let d = if b > a {
                    b - a
                } else {
                    b - a + n
                };
                lemma_ring_step(n as int, a, d);
                lemma_ring_way(n, a, b, d);
                lemma_floor_log2_grows(d as nat, n);
                lemma_near_more(rows, a, b, floor_log2(d as nat) + 1, floor_log2(n) + 1);
            }
        },
    }
}

/// The nodes that lie one of the first `m` powers of two ahead of or behind a node.
spec fn ring_peers(n: int, a: int, m: nat) -> Set<usize>
    decreases m,
{
    if m == 0 {
        Set::empty()
    } else {
        let step = pow2((m - 1) as nat) as int;
        ring_peers(n, a, (m - 1) as nat).insert(((a + step) % n) as usize).insert(
            ((a - step) % n) as usize,
        )
    }
}

proof fn lemma_ring_peers(n: int, a: int, m: nat)
    ensures
        ring_peers(n, a, m).finite(),
        ring_peers(n, a, m).len() <= 2 * m,
    decreases m,
{
    if m > 0 {
        lemma_ring_peers(n, a, (m - 1) as nat);
    }
}

proof fn lemma_ring_peer(n: int, a: int, m: nat, q: nat)
    requires
        q < m,
    ensures
        ring_peers(n, a, m).contains(((a + pow2(q)) % n) as usize),
        ring_peers(n, a, m).contains(((a - pow2(q)) % n) as usize),
    decreases m,
{
    if q < m - 1 {
        lemma_ring_peer(n, a, (m - 1) as nat, q);
    }
}

proof fn lemma_chord_degree(n: nat, a: int)
    requires
        0 <= a < n <= usize::MAX,
    ensures
        chord_rows(n)[a].len() <= 2 * (floor_log2(n) + 1),
{
    lemma_topology_is_graph(TopologyKind::Chord, n);
    let row = chord_rows(n)[a];
    let m = floor_log2(n) + 1;
    let peers = ring_peers(n as int, a, m);
    lemma_ring_peers(n as int, a, m);
    assert forall|b: usize| row.to_set().contains(b) implies peers.contains(b) by {
        assert(row.contains(b));
        assert(b < n);
        lemma_chord_neighbors(n, a, b);
        lemma_floor_log2(n);
        if hop(n as int, a, b as int, 0) {
            let q = choose|q: nat| 0 <= q && #[trigger] pow2(q) < n && b == (a + pow2(q)) % n as int;
            if q >= m {
                if q > m {
                    lemma_pow2_strictly_increases(m, q);
                }
            }
            lemma_ring_peer(n as int, a, m, q);
        } else {
            let q = choose|q: nat| 0 <= q && #[trigger] pow2(q) < n && a == (b + pow2(q)) % n as int;
            if q >= m {
                if q > m {
                    lemma_pow2_strictly_increases(m, q);
                }
            }
            let step = pow2(q) as int;
            lemma_pow2_pos(q);
            lemma_ring_step(n as int, b as int, step);
            assert((a - step) % n as int == b) by {
                if b + step >= n {
                    vstd::arithmetic::div_mod::lemma_mod_multiples_vanish(
                        -1,
                        b as int,
                        n as int,
                    );
                    assert(n * -1 + b == a - step);
                }
                vstd::arithmetic::div_mod::lemma_small_mod(b as nat, n);
            }
            lemma_ring_peer(n as int, a, m, q);
        }
    }
    row.unique_seq_to_set();
    vstd::set_lib::lemma_len_subset(row.to_set(), peers);
}

proof fn lemma_chord_degrees(n: nat, k: nat)
    requires
        k <= n <= usize::MAX,
    ensures
        degree_sum(chord_rows(n).take(k as int)) <= k * (2 * (floor_log2(n) + 1)),
    decreases k,
{
    lemma_topology_is_graph(TopologyKind::Chord, n);
    let rows = chord_rows(n).take(k as int);
    if k > 0 {
        assert(rows.drop_last() =~= chord_rows(n).take(k - 1));
        lemma_chord_degrees(n, (k - 1) as nat);
        lemma_chord_degree(n, k - 1);
        let w = 2 * (floor_log2(n) + 1);
        assert(k * w == (k - 1) * w + w) by (nonlinear_arith);
    }
}

/// A chord ring has no more edges than its size times one more than the binary logarithm of
/// its size.
pub proof fn lemma_chord_edges(n: nat)
    requires
        n <= usize::MAX,
    ensures
        degree_sum(chord_rows(n)) <= 2 * (n * (floor_log2(n) + 1)),
{
    lemma_topology_is_graph(TopologyKind::Chord, n);
    lemma_chord_degrees(n, n);
    assert(chord_rows(n).take(n as int) =~= chord_rows(n));
    let w = floor_log2(n) + 1;
    assert(n * (2 * w) == 2 * (n * w)) by (nonlinear_arith);
}

/// The pairs of the neighbours of `a` that are smaller with `a`, in order.
spec fn row_lower(a: usize, row: Seq<usize>) -> Seq<(usize, usize)>
    decreases row.len(),
{
    if row.len() == 0 {
        Seq::empty()
    } else if row.last() < a {
        row_lower(a, row.drop_last()).push((row.last(), a))
    } else {
        row_lower(a, row.drop_last())
    }
}

/// All edges, each at its larger end.
spec fn all_lower(rows: Seq<Seq<usize>>) -> Seq<(usize, usize)>
    decreases rows.len(),
{
    if rows.len() == 0 {
        Seq::empty()
    } else {
        all_lower(rows.drop_last()) + row_lower((rows.len() - 1) as usize, rows.last())
    }
}

proof fn lemma_pushed<T>(s: Seq<T>, x: T, y: T)
    ensures
        s.push(x).contains(y) <==> s.contains(y) || y == x,
{
    if s.contains(y) {
        let i = choose|i: int| 0 <= i < s.len() && s[i] == y;
        assert(s.push(x)[i] == y);
    }
    assert(s.push(x)[s.len() as int] == x);
}

proof fn lemma_row_edges(a: usize, row: Seq<usize>)
    requires
        row.no_duplicates(),
        !row.contains(a),
    ensures
        row_edges(a, row).no_duplicates(),
        row_lower(a, row).no_duplicates(),
        row_edges(a, row).len() + row_lower(a, row).len() == row.len(),
        forall|x: usize, y: usize| #[trigger]
            row_edges(a, row).contains((x, y)) <==> x == a && a < y && row.contains(y),
        forall|x: usize, y: usize| #[trigger]
            row_lower(a, row).contains((x, y)) <==> y == a && x < a && row.contains(x),
    decreases row.len(),
{
    if row.len() > 0 {
        let rest = row.drop_last();
        let b = row.last();
        assert(rest.push(b) =~= row);
        assert forall|x: usize| #[trigger] row.contains(x) == (rest.contains(x) || x == b) by {
            lemma_pushed(rest, b, x);
        }
        assert(!rest.contains(b));
        assert(row.contains(b));
        lemma_row_edges(a, rest);
        assert forall|x: usize, y: usize| #[trigger]
            row_edges(a, row).contains((x, y)) <==> x == a && a < y && row.contains(y) by {
            lemma_pushed(row_edges(a, rest), (a, b), (x, y));
        }
        assert forall|x: usize, y: usize| #[trigger]
            row_lower(a, row).contains((x, y)) <==> y == a && x < a && row.contains(x) by {
            lemma_pushed(row_lower(a, rest), (b, a), (x, y));
        }
        assert(!row_edges(a, rest).contains((a, b)));
        assert(!row_lower(a, rest).contains((b, a)));
    }
}

proof fn lemma_joined<T>(s: Seq<T>, t: Seq<T>, x: T)
    ensures
        (s + t).contains(x) <==> s.contains(x) || t.contains(x),
{
    if s.contains(x) {
        let i = choose|i: int| 0 <= i < s.len() && s[i] == x;
        assert((s + t)[i] == x);
    }
    if t.contains(x) {
        let i = choose|i: int| 0 <= i < t.len() && t[i] == x;
        assert((s + t)[s.len() + i] == x);
    }
    if (s + t).contains(x) {
        let i = choose|i: int| 0 <= i < (s + t).len() && (s + t)[i] == x;
        if i >= s.len() {
            assert(t[i - s.len()] == x);
        }
    }
}

proof fn lemma_all_edges(rows: Seq<Seq<usize>>)
    requires
        rows.len() <= usize::MAX,
        forall|a: int| 0 <= a < rows.len() ==> (#[trigger] rows[a]).no_duplicates(),
        forall|a: int| 0 <= a < rows.len() ==> !(#[trigger] rows[a]).contains(a as usize),
    ensures
        all_edges(rows).no_duplicates(),
        all_lower(rows).no_duplicates(),
        all_edges(rows).len() + all_lower(rows).len() == degree_sum(rows),
        forall|x: usize, y: usize| #[trigger]
            all_edges(rows).contains((x, y)) <==> x < rows.len() && x < y
                && rows[x as int].contains(y),
        forall|x: usize, y: usize| #[trigger]
            all_lower(rows).contains((x, y)) <==> y < rows.len() && x < y
                && rows[y as int].contains(x),
        forall|i: int, j: int|
            0 <= i < j < all_edges(rows).len() ==> (#[trigger] all_edges(rows)[i]).0 <= (
            #[trigger] all_edges(rows)[j]).0,
    decreases rows.len(),
{
    if rows.len() > 0 {
        let rest = rows.drop_last();
        let a = (rows.len() - 1) as usize;
        let row = rows.last();
        assert forall|i: int| 0 <= i < rest.len() implies (#[trigger] rest[i]).no_duplicates()
            && !rest[i].contains(i as usize) by {
            assert(rest[i] == rows[i]);
        }
        lemma_all_edges(rest);
        assert(rows[a as int] == row);
        lemma_row_edges(a, row);
        let (s, t) = (all_edges(rest), row_edges(a, row));
        let (u, v) = (all_lower(rest), row_lower(a, row));
        assert forall|x: usize, y: usize| #[trigger]
            all_edges(rows).contains((x, y)) <==> x < rows.len() && x < y
                && rows[x as int].contains(y) by {
            lemma_joined(s, t, (x, y));
            if x < rest.len() {
                assert(rest[x as int] == rows[x as int]);
            }
        }
        assert forall|x: usize, y: usize| #[trigger]
            all_lower(rows).contains((x, y)) <==> y < rows.len() && x < y
                && rows[y as int].contains(x) by {
            lemma_joined(u, v, (x, y));
            if y < rest.len() {
                assert(rest[y as int] == rows[y as int]);
            }
        }
        assert forall|i: int| 0 <= i < s.len() implies (#[trigger] s[i]).0 < a by {
            let (x, y) = s[i];
            assert(s.contains((x, y)));
        }
        assert forall|i: int| 0 <= i < t.len() implies (#[trigger] t[i]).0 == a by {
            let (x, y) = t[i];
            assert(t.contains((x, y)));
        }
        assert forall|i: int| 0 <= i < u.len() implies (#[trigger] u[i]).1 < a by {
            let (x, y) = u[i];
            assert(u.contains((x, y)));
        }
        assert forall|i: int| 0 <= i < v.len() implies (#[trigger] v[i]).1 == a by {
            let (x, y) = v[i];
            assert(v.contains((x, y)));
        }
        assert forall|i: int, j: int|
            0 <= i < j < (s + t).len() implies (#[trigger] (s + t)[i]).0 <= (#[trigger] (s
            + t)[j]).0 by {
            if j >= s.len() {
                assert(t[j - s.len()].0 == a);
                if i >= s.len() {
                    assert(t[i - s.len()].0 == a);
                } else {
                    assert(s[i].0 < a);
                }
            }
        }
        assert((s + t).no_duplicates()) by {
            assert forall|i: int, j: int| 0 <= i < j < (s + t).len() implies (s + t)[i] != (s
                + t)[j] by {
                if i < s.len() && j >= s.len() {
                    assert(s[i].0 < a && t[j - s.len()].0 == a);
                } else if i >= s.len() {
                    assert(t[i - s.len()] != t[j - s.len()]);
                }
            }
        }
        assert((u + v).no_duplicates()) by {
            assert forall|i: int, j: int| 0 <= i < j < (u + v).len() implies (u + v)[i] != (u
                + v)[j] by {
                if i < u.len() && j >= u.len() {
                    assert(u[i].1 < a && v[j - u.len()].1 == a);
                } else if i >= u.len() {
                    assert(v[i - u.len()] != v[j - u.len()]);
                }
            }
        }
    }
}

/// The edges of a topology: a pair is listed if and only if its ends are neighbours and the
/// smaller one comes first. No pair occurs twice, first ends never decrease, and there are
/// half as many edges as the degrees add up to.
pub proof fn lemma_edges(kind: TopologyKind, n: nat)
    requires
        n <= usize::MAX,
    ensures
        ({
            let rows = rows_of(kind, n);
            let edges = all_edges(rows);
            &&& forall|a: usize, b: usize| #[trigger]
                edges.contains((a, b)) <==> a < n && a < b && rows[a as int].contains(b)
            &&& edges.no_duplicates()
            &&& 2 * edges.len() == degree_sum(rows)
            &&& forall|i: int, j: int|
                0 <= i < j < edges.len() ==> (#[trigger] edges[i]).0 <= (#[trigger] edges[j]).0
        }),
{
    lemma_topology_is_graph(kind, n);
    let rows = rows_of(kind, n);
    assert forall|a: int| 0 <= a < rows.len() implies !(#[trigger] rows[a]).contains(
        a as usize,
    ) by {
        if rows[a].contains(a as usize) {
            assert(a != a as usize);
        }
    }
    lemma_all_edges(rows);
    let (up, down) = (all_edges(rows), all_lower(rows));
    assert forall|p: (usize, usize)| #[trigger] up.to_set().contains(p) == down.to_set().contains(
        p,
    ) by {
        let (x, y) = p;
        assert(up.contains((x, y)) == (x < rows.len() && x < y && rows[x as int].contains(y)));
        assert(down.contains((x, y)) == (y < rows.len() && x < y && rows[y as int].contains(x)));
    }
    assert(up.to_set() =~= down.to_set());
    up.unique_seq_to_set();
    down.unique_seq_to_set();
}

/// In a star exactly the pairs with node 0 are neighbours.
pub proof fn lemma_star_neighbors(n: nat, a: int, b: usize)
    requires
        0 <= a < n <= usize::MAX,
    ensures
        rows_of(TopologyKind::Star, n)[a].contains(b) <==> b < n && a != b && (a == 0 || b == 0),
{
    let row = star_rows(n)[a];
    if a == 0 {
        if row.contains(b) {
            let i = choose|i: int| 0 <= i < row.len() && row[i] == b;
            assert(b == i + 1);
        }
        if 0 < b < n {
            assert(row[b - 1] == b);
        }
    } else {
        assert(row[0] == 0);
        if row.contains(b) {
            let i = choose|i: int| 0 <= i < row.len() && row[i] == b;
            assert(i == 0);
        }
    }
}

} // verus!
