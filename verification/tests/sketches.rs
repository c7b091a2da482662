use reconciliation_simulator::simulator::algorithms::multiparty_sketch::{
    build_sketch, count_to_field, digest_hash, fadd, fdiv, finv, fmul, fpow, fsub, MCell, MSketch,
    CELL_BYTES, P,
};
use reconciliation_simulator::simulator::algorithms::riblt::mapping::SymbolMapping;
use reconciliation_simulator::simulator::algorithms::riblt::RatelessIBLT;
use reconciliation_simulator::simulator::replica::{Element, ElementSet, Replica};
use rand::rngs::StdRng;
use rand::{RngExt, SeedableRng};
use std::hash::{DefaultHasher, Hash, Hasher};

#[test]
fn field_operations() {
    assert_eq!(P, u64::MAX - 58);
    assert_eq!(fadd(P - 1, 1), 0);
    assert_eq!(fadd(P - 1, P - 1), P - 2);
    assert_eq!(fadd(3, 4), 7);
    assert_eq!(fsub(3, 4), P - 1);
    assert_eq!(fsub(4, 3), 1);
    assert_eq!(fmul(P - 1, P - 1), 1);
    assert_eq!(fmul(1 << 40, 1 << 40), ((1u128 << 80) % P as u128) as u64);
    assert_eq!(fpow(2, 64), 59);
    assert_eq!(fpow(7, 0), 1);
    for a in [1u64, 2, 3, 12345, P - 1, 1 << 63] {
        assert_eq!(fmul(a, finv(a)), 1);
        assert_eq!(fdiv(fmul(a, 99), a), 99);
    }
    assert_eq!(finv(0), 0);
    assert_eq!(fdiv(5, 0), 0);
}

#[test]
fn counts_in_the_field() {
    assert_eq!(count_to_field(5), 5);
    assert_eq!(count_to_field(0), 0);
    assert_eq!(count_to_field(-1), P - 1);
    assert_eq!(count_to_field(i64::MIN), P - (1u64 << 63));
}

#[test]
fn digests_are_hashed_by_the_default_hasher() {
    for d in [0u64, 1, 99, u64::MAX] {
        let mut h = DefaultHasher::new();
        d.hash(&mut h);
        assert_eq!(digest_hash(d), h.finish());
    }
}

#[test]
fn copies_make_pure_cells() {
    for k in [1i64, 2, 5, -1, -3, i64::MAX, i64::MIN] {
        let e = 0x1234_5678_9abc_def0u64;
        let f = count_to_field(k);
        let cell = MCell { sym: fmul(e, f), hash: fmul(digest_hash(e) % P, f), count: k };
        assert!(cell.is_pure());
        assert_eq!(cell.recover_digest_f(), e);
        let off = MCell { hash: fadd(cell.hash, 1), ..cell };
        assert!(!off.is_pure());
    }
    assert!(!MCell::default().is_pure());
}

fn walk(seed: u64, size: usize) -> Vec<usize> {
    let mut rng = StdRng::seed_from_u64(seed);
    let mut last = 0usize;
    let mut out = Vec::new();
    while last < size {
        out.push(last);
        let r: f64 = rng.random_range(0.0..1.0);
        let i = last as f64;
        let diff = ((1.5 + i) * (1.0 / (1.0 - r).sqrt() - 1.0)).ceil() as usize;
        last = last.saturating_add(diff);
    }
    out
}

#[test]
fn walks_agree_with_floating_point() {
    for seed in 0..300u64 {
        let expected = walk(seed.wrapping_mul(0x9E37_79B9_7F4A_7C15), 1 << 40);
        let mut mapping = SymbolMapping::new(seed.wrapping_mul(0x9E37_79B9_7F4A_7C15));
        for index in expected {
            assert_eq!(mapping.next(), Some(index));
        }
    }
}

#[test]
fn walks_go_past_their_first_buffer() {
    let mut mapping = SymbolMapping::new(7);
    let expected = walk(7, usize::MAX);
    assert!(expected.len() > 40);
    for index in expected {
        assert_eq!(mapping.next(), Some(index));
    }
    for _ in 0..100 {
        assert_eq!(mapping.next(), Some(usize::MAX));
    }
}

fn sketch(digests: &[u64], size: usize) -> MSketch {
    let mut s = MSketch::new(size);
    for &d in digests {
        s.encode_element(d, 1);
    }
    s
}

#[test]
fn cells_hold_the_sums_along_the_walk() {
    let d = 0xdead_beef_u64;
    let s = sketch(&[d], 50);
    let on_walk = walk(digest_hash(d), 50);
    for (j, cell) in s.cells.iter().enumerate() {
        let expected = if on_walk.contains(&j) {
            MCell { sym: d % P, hash: digest_hash(d) % P, count: 1 }
        } else {
            MCell::default()
        };
        assert_eq!(*cell, expected);
    }
}

#[test]
fn removal_undoes_insertion() {
    let mut s = sketch(&[1, 2, 3, 2], 40);
    for d in [2u64, 3, 1, 2] {
        s.encode_element(d, -1);
    }
    assert!(s.cells.iter().all(|c| *c == MCell::default()));
}

#[test]
fn sums_of_sketches_are_sketches_of_sums() {
    let mut a = sketch(&[1, 2, 3], 32);
    let b = sketch(&[3, 4], 32);
    a.add_sketch(&b);
    assert_eq!(a.cells, sketch(&[4, 3, 3, 2, 1], 32).cells);
    a.sub_sketch(&b);
    assert_eq!(a.cells, sketch(&[1, 2, 3], 32).cells);
}

#[test]
fn longer_sketches_extend_shorter_ones() {
    let long = sketch(&[5, 6, 7, 8], 64);
    let short = sketch(&[5, 6, 7, 8], 20);
    assert_eq!(long.cells[..20], short.cells[..]);
}

#[test]
fn decoding_finds_repeated_digests_once() {
    let s = sketch(&[10, 10, 10, 20, 30, 30], 64);
    let mut found = s.try_decode().unwrap();
    found.sort_unstable();
    assert_eq!(found, vec![10, 20, 30]);
    assert_eq!(MSketch::new(0).try_decode(), Some(vec![]));
    assert_eq!(MSketch::new(9).try_decode(), Some(vec![]));
}

#[test]
fn small_sketches_do_not_decode() {
    let many: Vec<u64> = (1..100).collect();
    assert!(sketch(&many, 5).try_decode().is_none());
}

#[test]
fn cells_that_cancel_in_number_alone_do_not_decode() {
    let mut s = MSketch::new(1);
    s.encode_element(5, 1);
    s.encode_element(9, -1);
    assert_eq!(s.cells[0].count, 0);
    assert_eq!(s.try_decode(), None);
    s.encode_element(9, 1);
    assert_eq!(s.try_decode(), Some(vec![5]));
}

#[test]
fn peeling_tells_insertions_from_removals() {
    let mut s = sketch(&[1, 2], 40);
    s.encode_element(3, -1);
    let p = s.peel();
    let mut inserted = p.inserted.clone();
    inserted.sort_unstable();
    assert_eq!(inserted, vec![1, 2]);
    assert_eq!(p.removed, vec![3]);
    assert!(p.cells.iter().all(|c| *c == MCell::default()));
}

#[test]
fn replicas_are_sketched_by_their_digests() {
    let set = ElementSet::from_elements(&vec![Element::new(8, 1), Element::new(3, 7)]);
    let s = build_sketch(&Replica::new(0, set), 16);
    assert_eq!(s.cells, sketch(&[3, 8], 16).cells);
    assert_eq!(CELL_BYTES, 24);
}

#[test]
fn rateless_decoding_finds_both_sides() {
    let a: Vec<u64> = (0..1000).map(|i| i * 31 + 5).collect();
    let mut b = a.clone();
    b.truncate(980);
    b.extend(1_000_000..1_000_030u64);
    let mut local = RatelessIBLT::riblt_from(a.clone());
    let mut remote = RatelessIBLT::riblt_from(b.clone());
    let n = local.find_all_differences(&mut remote);
    assert_eq!(local.consumed_symbols(), n);
    assert!(n >= 50, "50 differences need at least as many symbols, not {n}");
    assert!(n < 200, "{n} symbols for 50 differences");
    let mut mine = local.get_local_only_symbols();
    mine.sort_unstable();
    assert_eq!(mine, a[980..].to_vec());
    let mut theirs = local.get_remote_only_symbols();
    theirs.sort_unstable();
    assert_eq!(theirs, (1_000_000..1_000_030u64).collect::<Vec<_>>());
}

#[test]
fn equal_lists_need_one_symbol() {
    let mut a = RatelessIBLT::riblt_from(vec![3, 1, 2]);
    let mut b = RatelessIBLT::riblt_from(vec![1, 2, 3]);
    assert_eq!(a.find_all_differences(&mut b), 1);
    assert!(a.get_local_only_symbols().is_empty());
    assert!(a.get_remote_only_symbols().is_empty());
    let mut more = RatelessIBLT::riblt_from(vec![1, 2, 3, 4]);
    assert_eq!(more.find_all_differences(&mut b), 1);
    assert_eq!(more.get_local_only_symbols(), vec![4]);
}

#[test]
fn the_largest_digests_are_found() {
    let mut a = RatelessIBLT::riblt_from(vec![u64::MAX]);
    let mut b = RatelessIBLT::riblt_from(vec![]);
    assert_eq!(a.find_all_differences(&mut b), 1);
    assert_eq!(a.get_local_only_symbols(), vec![u64::MAX]);
    assert!(a.get_remote_only_symbols().is_empty());
    let mut c = RatelessIBLT::riblt_from(vec![7, u64::MAX - 1, 8]);
    let mut d = RatelessIBLT::riblt_from(vec![8, u64::MAX, 9]);
    c.find_all_differences(&mut d);
    let mut mine = c.get_local_only_symbols();
    mine.sort_unstable();
    assert_eq!(mine, vec![7, u64::MAX - 1]);
    let mut theirs = c.get_remote_only_symbols();
    theirs.sort_unstable();
    assert_eq!(theirs, vec![9, u64::MAX]);
}

#[test]
fn digests_that_occur_twice_are_coded_once() {
    let mut a = RatelessIBLT::riblt_from(vec![5, 5, 6]);
    let mut b = RatelessIBLT::riblt_from(vec![6, 1, 6]);
    let n = a.find_all_differences(&mut b);
    assert!(n < 100, "{n}");
    assert_eq!(a.get_local_only_symbols(), vec![5]);
    assert_eq!(a.get_remote_only_symbols(), vec![1]);
}

#[test]
fn what_is_found_makes_up_the_difference() {
    let a: Vec<u64> = (0..60).map(|i| i * 17 + 1).collect();
    let b: Vec<u64> = (20..75).map(|i| i * 17 + 1).collect();
    let mut difference = sketch(&a, 128);
    difference.sub_sketch(&sketch(&b, 128));
    let p = difference.peel();
    assert!(p.cells.iter().all(|c| *c == MCell::default()));
    let mut again = sketch(&p.inserted, 128);
    again.sub_sketch(&sketch(&p.removed, 128));
    assert_eq!(again.cells, difference.cells);
    assert_eq!(p.inserted.len(), 20);
    assert_eq!(p.removed.len(), 15);
}

#[test]
fn the_first_cell_counts_everything() {
    assert_eq!(sketch(&[9, 9, 4, 1, 7], 12).cells[0].count, 5);
    assert_eq!(sketch(&[], 12).cells[0].count, 0);
}

#[test]
fn reported_digests_do_not_repeat() {
    let a: Vec<u64> = (0..90u64).map(|i| (i / 3) * 11 + 2).collect();
    let b: Vec<u64> = (30..150u64).map(|i| (i / 2) * 11 + 2).collect();
    let mut local = RatelessIBLT::riblt_from(a);
    let mut remote = RatelessIBLT::riblt_from(b);
    local.find_all_differences(&mut remote);
    let mut mine = local.get_local_only_symbols();
    mine.sort_unstable();
    assert_eq!(mine, (0..15u64).map(|i| i * 11 + 2).collect::<Vec<_>>());
    let mut theirs = local.get_remote_only_symbols();
    theirs.sort_unstable();
    assert_eq!(theirs, (30..75u64).map(|i| i * 11 + 2).collect::<Vec<_>>());
}
