use core_to_core_latency::double::{Double, HUNDRED_BITS, NAN_BITS, NINETY_NINE_BITS, TWO_BITS, ZERO_BITS};
use core_to_core_latency::sorting::stable_sort;

fn d(x: f64) -> Double {
    Double { bits: x.to_bits() }
}

fn samples() -> Vec<f64> {
    vec![
        f64::NEG_INFINITY,
        f64::MIN,
        -1.5,
        -f64::MIN_POSITIVE,
        -5e-324,
        -0.0,
        0.0,
        5e-324,
        f64::MIN_POSITIVE,
        1.0,
        1.0000000000000002,
        99.0,
        1e300,
        f64::MAX,
        f64::INFINITY,
        f64::NAN,
        -f64::NAN,
    ]
}

#[test]
fn order_is_that_of_floats() {
    for &a in &samples() {
        assert_eq!(d(a).is_nan(), a.is_nan());
        for &b in &samples() {
            assert_eq!(d(a).is_below(d(b)), a < b, "{} < {}", a, b);
        }
    }
}

#[test]
fn smaller_of_two_is_that_of_floats() {
    for &a in &samples() {
        for &b in &samples() {
            let expected = a.min(b);
            let r = f64::from_bits(d(a).at_most(d(b)).bits);
            assert!(r == expected || (r.is_nan() && expected.is_nan()), "{} {}", a, b);
        }
    }
    assert_eq!(d(f64::NAN).at_most(d(99.0)), d(99.0));
}

#[test]
fn named_bit_patterns() {
    assert_eq!(f64::from_bits(ZERO_BITS), 0.0);
    assert_eq!(f64::from_bits(TWO_BITS), 2.0);
    assert_eq!(f64::from_bits(NINETY_NINE_BITS), 99.0);
    assert_eq!(f64::from_bits(HUNDRED_BITS), 100.0);
    assert!(f64::from_bits(NAN_BITS).is_nan());
    assert_eq!(Double::zero(), d(0.0));
}

#[test]
fn sort_is_stable() {
    let values: Vec<Double> = [3.0, 0.0, -1.0, -0.0, 2.5, 0.0, f64::INFINITY, -0.0]
        .iter()
        .map(|&x| d(x))
        .collect();
    let mut expected: Vec<f64> = values.iter().map(|v| f64::from_bits(v.bits)).collect();
    expected.sort_by(|a, b| a.partial_cmp(b).unwrap());
    let sorted = stable_sort(&values);
    assert_eq!(sorted, expected.iter().map(|&x| d(x)).collect::<Vec<Double>>());
    assert_eq!(stable_sort(&[]), Vec::<Double>::new());
}

#[test]
fn sort_of_many_numbers() {
    let mut x: u64 = 12345;
    let mut values: Vec<f64> = Vec::new();
    for _ in 0..1000 {
        x = x.wrapping_mul(6364136223846793005).wrapping_add(1442695040888963407);
        values.push(((x >> 33) % 500) as f64 - 250.0);
    }
    let doubles: Vec<Double> = values.iter().map(|&v| d(v)).collect();
    values.sort_by(|a, b| a.partial_cmp(b).unwrap());
    let sorted: Vec<f64> = stable_sort(&doubles).iter().map(|v| f64::from_bits(v.bits)).collect();
    assert_eq!(sorted, values);
}
