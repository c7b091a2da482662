use reconciliation_simulator::simulator::topology::{Topology, TopologyKind};

#[test]
fn stars() {
    let t = Topology::star(4);
    assert_eq!(t.kind(), TopologyKind::Star);
    assert_eq!(t.node_count(), 4);
    assert_eq!(t.neighbors(0), &vec![1, 2, 3]);
    for i in 1..4 {
        assert_eq!(t.neighbors(i), &vec![0]);
    }
    assert_eq!(t.edge_count(), 3);
    assert_eq!(t.edges(), vec![(0, 1), (0, 2), (0, 3)]);
    assert_eq!(Topology::star(0).edge_count(), 0);
    assert_eq!(Topology::star(1).neighbors(0).len(), 0);
}

#[test]
fn trees() {
    let t = Topology::tree(6);
    assert_eq!(t.neighbors(0), &vec![1, 2]);
    assert_eq!(t.neighbors(1), &vec![0, 3, 4]);
    assert_eq!(t.neighbors(2), &vec![0, 5]);
    assert_eq!(t.neighbors(5), &vec![2]);
    assert_eq!(t.edge_count(), 5);
    assert!(t.is_root(0));
    assert!(!t.is_root(1));
    assert_eq!(t.parent(0), None);
    assert_eq!(t.parent(5), Some(2));
    assert_eq!(t.parent(6), None);
    assert_eq!(t.children(2), vec![5]);
    assert_eq!(t.children(1), vec![3, 4]);
    assert!(t.children(3).is_empty());
    assert!(t.children(100).is_empty());
    for n in 0..50 {
        let t = Topology::tree(n);
        for node in 0..n {
            for c in t.children(node) {
                assert_eq!(t.parent(c), Some(node));
            }
        }
    }
}

#[test]
fn only_trees_have_parents() {
    let t = Topology::star(3);
    assert!(!t.is_root(0));
    assert_eq!(t.parent(1), None);
    assert!(t.children(0).is_empty());
}

fn plain_chord(n: usize) -> Vec<Vec<usize>> {
    let mut adjacency = vec![Vec::new(); n];
    for node in 0..n {
        let mut offset = 1;
        while offset < n {
            let neighbor = (node + offset) % n;
            if !adjacency[node].contains(&neighbor) {
                adjacency[node].push(neighbor);
            }
            if !adjacency[neighbor].contains(&node) {
                adjacency[neighbor].push(node);
            }
            offset *= 2;
        }
    }
    adjacency
}

#[test]
fn chords() {
    for n in 0..40 {
        let t = Topology::chord(n);
        let expected = plain_chord(n);
        for node in 0..n {
            assert_eq!(t.neighbors(node), &expected[node]);
        }
    }
    assert_eq!(Topology::chord(8).neighbors(0), &vec![1, 2, 4, 6, 7]);
}

#[test]
fn all_graphs_are_undirected() {
    for kind in [TopologyKind::Star, TopologyKind::Tree, TopologyKind::Chord] {
        for n in 0..30 {
            let t = Topology::build(kind, n);
            assert_eq!(t.kind(), kind);
            let mut seen = 0;
            for a in 0..n {
                assert!(!t.is_neighbor(a, a));
                for &b in t.neighbors(a) {
                    assert!(t.is_neighbor(b, a));
                    if a < b {
                        seen += 1;
                    }
                }
            }
            assert_eq!(t.edge_count(), seen);
            assert_eq!(t.edges().len(), seen);
            if n > 0 && kind != TopologyKind::Chord {
                assert_eq!(seen, n - 1);
            }
        }
    }
}

fn floor_log2(n: usize) -> usize {
    (usize::BITS - 1 - n.leading_zeros()) as usize
}

#[test]
fn ways_are_no_longer_than_the_diameter() {
    for n in 1..70usize {
        for (kind, bound) in [
            (TopologyKind::Star, 2),
            (TopologyKind::Tree, 2 * floor_log2(n)),
            (TopologyKind::Chord, floor_log2(n) + 1),
        ] {
            let t = Topology::build(kind, n);
            for from in 0..n {
                let mut reached = vec![false; n];
                reached[from] = true;
                for _ in 0..bound {
                    let mut next = reached.clone();
                    for a in 0..n {
                        if reached[a] {
                            for &b in t.neighbors(a) {
                                next[b] = true;
                            }
                        }
                    }
                    reached = next;
                }
                assert!(reached.iter().all(|&r| r), "{kind:?} of {n} from {from}");
            }
            if kind == TopologyKind::Chord {
                assert!(t.edge_count() <= n * (floor_log2(n) + 1));
            }
        }
    }
}

#[test]
fn edges_are_listed_once_in_order() {
    for kind in [TopologyKind::Star, TopologyKind::Tree, TopologyKind::Chord] {
        for n in 0..20 {
            let t = Topology::build(kind, n);
            let edges = t.edges();
            assert_eq!(edges.len(), t.edge_count());
            assert!(edges.windows(2).all(|w| w[0].0 <= w[1].0));
            for a in 0..n {
                for b in 0..n {
                    let times = edges.iter().filter(|e| **e == (a, b)).count();
                    assert_eq!(times, usize::from(a < b && t.is_neighbor(a, b)));
                }
            }
        }
    }
}
