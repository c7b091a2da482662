use reconciliation_simulator::simulator::algorithms::counting_bloom::CountingBf;

#[test]
fn insert_and_query_found() {
    let mut cbf = CountingBf::new(64, 3);
    cbf.insert(42);
    assert!(cbf.query(42) >= 1);
}

#[test]
fn query_absent_is_zero() {
    let cbf = CountingBf::new(64, 3);
    assert_eq!(cbf.query(99), 0);
}

#[test]
fn add_aggregates_counts() {
    let mut a = CountingBf::new(64, 3);
    let mut b = CountingBf::new(64, 3);
    a.insert(7);
    b.insert(7);
    a.add(&b);
    assert!(a.query(7) >= 2);
}

#[test]
fn sub_restores_zero() {
    let mut a = CountingBf::new(64, 3);
    let mut b = CountingBf::new(64, 3);
    a.insert(7);
    b.insert(7);
    a.add(&b);
    a.sub(&b);
    a.sub(&{
        let mut tmp = CountingBf::new(64, 3);
        tmp.insert(7);
        tmp
    });
    assert_eq!(a.query(7), 0);
}

#[test]
fn byte_len_correct() {
    let cbf = CountingBf::new(128, 3);
    assert_eq!(cbf.byte_len(), 128 * 4);
}

#[test]
fn query_without_hashes_is_zero() {
    let mut cbf = CountingBf::new(8, 0);
    cbf.insert(3);
    assert_eq!(cbf.query(3), 0);
}

#[test]
fn single_cell_counts_every_hash() {
    let mut cbf = CountingBf::new(1, 3);
    cbf.insert(3);
    assert_eq!(cbf.query(3), 3);
    assert_eq!(cbf.query(4), 3);
}

#[test]
fn subtraction_stops_at_zero() {
    let mut a = CountingBf::new(64, 3);
    let mut b = CountingBf::new(64, 3);
    b.insert(5);
    a.sub(&b);
    assert_eq!(a.query(5), 0);
    a.insert(5);
    assert!(a.query(5) >= 1);
}

#[test]
fn another_insertion_never_lowers_an_answer() {
    let mut cbf = CountingBf::new(16, 2);
    cbf.insert(1);
    let before = cbf.query(1);
    for d in 2..50u64 {
        cbf.insert(d);
        assert!(cbf.query(1) >= before);
    }
}

#[test]
fn answers_are_never_too_low() {
    let list: Vec<u64> = (0..200u64).map(|i| (i * i) % 37).collect();
    let mut cbf = CountingBf::new(64, 3);
    let mut reversed = CountingBf::new(64, 3);
    for &d in &list {
        cbf.insert(d);
    }
    for &d in list.iter().rev() {
        reversed.insert(d);
    }
    for d in 0..60u64 {
        let times = list.iter().filter(|&&x| x == d).count() as u32;
        assert!(cbf.query(d) >= times, "{d}");
        assert_eq!(cbf.query(d), reversed.query(d));
    }
}
