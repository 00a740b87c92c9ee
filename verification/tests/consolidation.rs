use radial_nav::error::FilterError;
use radial_nav::filter::{beam_deviation_filter, beam_filter, get_spread, mean_of, sort_samples};
use radial_nav::arithmetic::{Arithmetic, Op};
use radial_nav::scalar::Scalar;

fn s(x: f64) -> Scalar {
    Scalar::from_bits(x.to_bits())
}

fn f(x: Scalar) -> f64 {
    f64::from_bits(x.to_bits())
}

fn fpu(op: Op) -> Scalar {
    s(match op {
        Op::Add(a, b) => f(a) + f(b),
        Op::Sub(a, b) => f(a) - f(b),
        Op::Mul(a, b) => f(a) * f(b),
        Op::Div(a, b) => f(a) / f(b),
        Op::Sqrt(a) => f(a).sqrt(),
        Op::Sin(a) => f(a).sin(),
        Op::Cos(a) => f(a).cos(),
        Op::Asin(a) => f(a).asin(),
        Op::Acos(a) => f(a).acos(),
        Op::FromInt(n) => n as f64,
    })
}

fn unit() -> Arithmetic<fn(Op) -> Scalar> {
    Arithmetic::new(fpu)
}

fn samples(values: &[f64]) -> Vec<Scalar> {
    values.iter().map(|x| s(*x)).collect()
}

fn numbers(values: &[Scalar]) -> Vec<f64> {
    values.iter().map(|x| f(*x)).collect()
}

#[test]
fn deviation_filter_of_four_is_the_sample_past_the_middle() {
    let out = beam_deviation_filter(&samples(&[1.0, 2.0, 3.0, 4.0]), &unit());
    assert_eq!(f(out), 3.0);
}

#[test]
fn deviation_filter_of_nothing_is_zero() {
    let out = beam_deviation_filter(&samples(&[]), &unit());
    assert_eq!(out.to_bits(), 0.0f64.to_bits());
}

#[test]
fn deviation_filter_of_one_is_that_one() {
    let out = beam_deviation_filter(&samples(&[7.25]), &unit());
    assert_eq!(f(out), 7.25);
    let out = beam_deviation_filter(&samples(&[-0.0]), &unit());
    assert_eq!(out.to_bits(), (-0.0f64).to_bits());
}

#[test]
fn deviation_filter_of_two_is_the_larger() {
    let out = beam_deviation_filter(&samples(&[9.0, 5.0]), &unit());
    assert_eq!(f(out), 9.0);
}

#[test]
fn deviation_filter_of_ten_averages_three_in_the_middle() {
    let v = samples(&[10.0, 1.0, 9.0, 2.0, 8.0, 3.0, 7.0, 4.0, 6.0, 5.0]);
    let out = beam_deviation_filter(&v, &unit());
    assert_eq!(f(out), (5.0 + 6.0 + 7.0) / 3.0);
}

#[test]
fn deviation_filter_of_twenty_averages_five_in_the_middle() {
    let mut values: Vec<f64> = Vec::new();
    for k in 0..20 {
        values.push(((k * 7) % 20) as f64);
    }
    let out = beam_deviation_filter(&samples(&values), &unit());
    assert_eq!(f(out), (8.0 + 9.0 + 10.0 + 11.0 + 12.0) / 5.0);
}

#[test]
fn deviation_filter_ignores_the_order_of_the_samples() {
    let a = beam_deviation_filter(&samples(&[4.0, 1.0, 3.0, 2.0, 100.0, -5.0, 2.5]), &unit());
    let b = beam_deviation_filter(&samples(&[-5.0, 100.0, 2.5, 2.0, 3.0, 1.0, 4.0]), &unit());
    assert_eq!(a.to_bits(), b.to_bits());
    assert_eq!(f(a), 2.5);
}

#[test]
fn deviation_filter_drops_an_outlier() {
    let out = beam_deviation_filter(&samples(&[10.0, 10.1, 1000.0, 10.2, 9.9]), &unit());
    assert_eq!(f(out), 10.1);
}

#[test]
fn sorting_puts_samples_in_ascending_order() {
    let out = sort_samples(&samples(&[3.0, -1.0, 2.0, f64::INFINITY, -7.5, 0.0, 2.0]));
    assert_eq!(numbers(&out), vec![-7.5, -1.0, 0.0, 2.0, 2.0, 3.0, f64::INFINITY]);
}

#[test]
fn sorting_puts_minus_zero_before_zero() {
    let out = sort_samples(&samples(&[0.0, -0.0, 0.0, -0.0]));
    let bits: Vec<u64> = out.iter().map(|x| x.to_bits()).collect();
    let neg = (-0.0f64).to_bits();
    let pos = 0.0f64.to_bits();
    assert_eq!(bits, vec![neg, neg, pos, pos]);
}

#[test]
fn sorting_agrees_with_the_total_order() {
    let mut values: Vec<f64> = Vec::new();
    let mut seed: u64 = 0x2545_F491_4F6C_DD1D;
    for _ in 0..500 {
        seed ^= seed << 13;
        seed ^= seed >> 7;
        seed ^= seed << 17;
        values.push(((seed % 20001) as f64 - 10000.0) / 8.0);
    }
    let out = numbers(&sort_samples(&samples(&values)));
    let mut expected = values.clone();
    expected.sort_by(|a, b| a.total_cmp(b));
    assert_eq!(out, expected);
}

#[test]
fn sorting_nothing_gives_nothing() {
    assert!(sort_samples(&samples(&[])).is_empty());
}

#[test]
fn beam_filter_keeps_the_cluster_and_drops_the_outlier() {
    let out = beam_filter(&samples(&[10.0, 10.1, 10.2, 50.0]), &unit()).unwrap();
    assert_eq!(f(out), (10.0 + 10.1 + 10.2) / 3.0);
    assert!((f(out) - 10.1).abs() < 1e-9);
}

#[test]
fn beam_filter_of_nothing_fails() {
    assert_eq!(beam_filter(&samples(&[]), &unit()), Err(FilterError::EmptySampleSet));
}

#[test]
fn beam_filter_of_one_is_that_one() {
    let out = beam_filter(&samples(&[42.5]), &unit()).unwrap();
    assert_eq!(f(out), 42.5);
}

#[test]
fn beam_filter_without_neighbours_takes_the_first_sample() {
    // spread 10, beam 2: the squared distance 100 is outside it either way.
    let out = beam_filter(&samples(&[0.0, 10.0]), &unit()).unwrap();
    assert_eq!(f(out), 0.0);
}

#[test]
fn beam_filter_takes_the_first_of_equal_clusters() {
    // spread 100, beam 20: 0 and 1 are neighbours, and so are 100 and 101.
    let out = beam_filter(&samples(&[100.0, 0.0, 101.0, 1.0]), &unit()).unwrap();
    assert_eq!(f(out), (100.0 + 101.0) / 2.0);
}

#[test]
fn beam_filter_takes_the_larger_cluster_where_it_comes_later() {
    let out = beam_filter(&samples(&[0.0, 1.0, 100.0, 101.0, 102.0]), &unit()).unwrap();
    assert_eq!(f(out), (100.0 + 101.0 + 102.0) / 3.0);
}

#[test]
fn beam_filter_counts_the_edge_of_the_beam_in() {
    // spread 20, beam 4: the squared distance from 0 to 2 is exactly 4.
    let out = beam_filter(&samples(&[0.0, 2.0, 20.0]), &unit()).unwrap();
    assert_eq!(f(out), 1.0);
}

#[test]
fn beam_filter_of_equal_samples_is_that_sample() {
    let out = beam_filter(&samples(&[3.5, 3.5, 3.5]), &unit()).unwrap();
    assert_eq!(f(out), 3.5);
}

#[test]
fn spread_is_greatest_less_least() {
    assert_eq!(f(get_spread(&samples(&[10.0, 10.1, 10.2, 50.0]), &unit())), 40.0);
    assert_eq!(f(get_spread(&samples(&[-3.0, 4.0, 1.0]), &unit())), 7.0);
    assert_eq!(f(get_spread(&samples(&[5.0]), &unit())), 0.0);
}

#[test]
fn mean_is_sum_over_count() {
    assert_eq!(f(mean_of(&samples(&[1.0, 2.0, 6.0]), &unit())), 3.0);
    assert!(f(mean_of(&samples(&[]), &unit())).is_nan());
}
