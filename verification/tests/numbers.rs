use reconciliation_simulator::simulator::binary64::{Binary64, Double};
use reconciliation_simulator::simulator::text::{decimal, join_with_commas, truth};

fn to_f64(x: Binary64) -> f64 {
    x.mant as f64 * 2f64.powi(x.exp)
}

fn of(x: f64) -> Binary64 {
    Binary64::from_bits(x.to_bits()).unwrap()
}

struct Numbers(u64);

impl Numbers {
    fn next(&mut self) -> u64 {
        self.0 ^= self.0 << 13;
        self.0 ^= self.0 >> 7;
        self.0 ^= self.0 << 17;
        self.0
    }

    fn positive(&mut self) -> f64 {
        let mant = (self.next() >> 12) | (1 << 52);
        let exp = (self.next() % 80) as i32 - 40;
        mant as f64 * 2f64.powi(exp - 52)
    }
}

#[test]
fn arithmetic_rounds_like_the_hardware() {
    let mut n = Numbers(88172645463325252);
    for _ in 0..20_000 {
        let (a, b) = (n.positive(), n.positive());
        assert_eq!(to_f64(of(a).times(of(b))), a * b);
        assert_eq!(to_f64(of(a).over(of(b))), a / b);
        assert_eq!(to_f64(of(a).plus(of(b))), a + b);
        assert_eq!(to_f64(of(a).sqrt()), a.sqrt());
        assert_eq!(of(a).ceil_usize(), a.ceil() as usize);
        assert_eq!(of(a).round_usize(), a.round() as usize);
        let k = n.next();
        assert_eq!(to_f64(Binary64::from_u64(k)), k as f64);
        assert_eq!(to_f64(Binary64::from_ratio_52(k)), k as f64 * 2f64.powi(-52));
    }
}

#[test]
fn halves_round_to_even_and_up() {
    assert_eq!(to_f64(Binary64::from_u64((1 << 53) + 1)), (1u64 << 53) as f64);
    assert_eq!(to_f64(Binary64::from_u64((1 << 53) + 3)), ((1u64 << 53) + 4) as f64);
    assert_eq!(of(2.5).round_usize(), 3);
    assert_eq!(of(2.5).ceil_usize(), 3);
    assert_eq!(of(1e300).ceil_usize(), usize::MAX);
    assert_eq!(of(0.0).ceil_usize(), 0);
    for x in [1.0f64, 1.75, 9007199254740992.0, 9007199254740994.0, 9007199254740996.0, 1e300] {
        assert_eq!(to_f64(of(x).minus_one()), x - 1.0);
    }
    assert_eq!(to_f64(Binary64::one()), 1.0);
}

#[test]
fn encodings_of_other_numbers_are_refused() {
    assert!(Binary64::from_bits(f64::INFINITY.to_bits()).is_none());
    assert!(Binary64::from_bits(f64::NAN.to_bits()).is_none());
    assert!(Binary64::from_bits((-1.0f64).to_bits()).is_none());
    assert_eq!(to_f64(of(f64::from_bits(1)).times(of(2f64.powi(600)))), 2f64.powi(600 - 1074));
}

#[test]
fn doubles_are_classified_by_their_bits() {
    for x in [0.0f64, -0.0, 1e-320, 0.5, 1.0] {
        assert!(Double { bits: x.to_bits() }.in_unit_interval(), "{x}");
    }
    for x in [-1e-320f64, -1.0, 1.0 + f64::EPSILON, f64::INFINITY, f64::NAN, -f64::INFINITY] {
        assert!(!Double { bits: x.to_bits() }.in_unit_interval(), "{x}");
    }
    for x in [1e-320f64, 1.0, f64::INFINITY] {
        assert!(Double { bits: x.to_bits() }.is_positive(), "{x}");
    }
    for x in [0.0f64, -0.0, -1.0, f64::NAN] {
        assert!(!Double { bits: x.to_bits() }.is_positive(), "{x}");
    }
    let half = Double { bits: 0.5f64.to_bits() };
    let third = Double { bits: (1.0f64 / 3.0).to_bits() };
    assert!(half.at_least(&third));
    assert!(!third.at_least(&half));
    assert_eq!(half.number(), of(0.5));
}

#[test]
fn numbers_as_text() {
    for n in [0u128, 7, 10, 12_345, u64::MAX as u128, u128::MAX] {
        assert_eq!(decimal(n), format!("{n}"));
    }
    assert_eq!(truth(true), "true");
    assert_eq!(truth(false), "false");
    let fields = vec!["a".to_string(), "".to_string(), "bc".to_string()];
    assert_eq!(join_with_commas(&fields), "a,,bc");
    assert_eq!(join_with_commas(&vec![]), "");
}
