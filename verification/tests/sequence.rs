//! The library's exact fractions, checked against the familiar
//! floating-point values of the first Halton numbers in bases 2 and 3.

use halton::{number, Fraction, Sequence};

fn to_f64(f: Fraction) -> f64 {
    f.num as f64 / f.den as f64
}

/// Approximate equality: absolute or relative error within one epsilon.
fn assert_close(expected: f64, actual: f64) {
    let diff = (expected - actual).abs();
    let scale = expected.abs().max(actual.abs());
    assert!(
        diff <= f64::EPSILON || diff <= scale * f64::EPSILON,
        "expected {expected}, got {actual}"
    );
}

#[test]
fn number_base_2() {
    assert_close(0.0, to_f64(number(2, 0)));
    assert_close(0.5, to_f64(number(2, 1)));
    assert_close(0.25, to_f64(number(2, 2)));
    assert_close(0.75, to_f64(number(2, 3)));
    assert_close(0.125, to_f64(number(2, 4)));
    assert_close(0.625, to_f64(number(2, 5)));
    assert_close(0.375, to_f64(number(2, 6)));
    assert_close(0.875, to_f64(number(2, 7)));
    assert_close(0.0625, to_f64(number(2, 8)));
    assert_close(0.5625, to_f64(number(2, 9)));
}

#[test]
fn number_base_3() {
    assert_close(0.0, to_f64(number(3, 0)));
    assert_close(0.3333333333333333, to_f64(number(3, 1)));
    assert_close(0.6666666666666666, to_f64(number(3, 2)));
    assert_close(0.1111111111111111, to_f64(number(3, 3)));
    assert_close(0.4444444444444444, to_f64(number(3, 4)));
    assert_close(0.7777777777777777, to_f64(number(3, 5)));
    assert_close(0.2222222222222222, to_f64(number(3, 6)));
    assert_close(0.5555555555555555, to_f64(number(3, 7)));
    assert_close(0.8888888888888888, to_f64(number(3, 8)));
    assert_close(0.0370370370370370, to_f64(number(3, 9)));
}

#[test]
fn sequence_base_2() {
    let mut seq = Sequence::new(2);
    assert_close(0.5, to_f64(seq.next().unwrap()));
    assert_close(0.25, to_f64(seq.next().unwrap()));
    assert_close(0.75, to_f64(seq.next().unwrap()));
    assert_close(0.125, to_f64(seq.next().unwrap()));
    assert_close(0.625, to_f64(seq.next().unwrap()));
    assert_close(0.375, to_f64(seq.next().unwrap()));
    assert_close(0.875, to_f64(seq.next().unwrap()));
    assert_close(0.0625, to_f64(seq.next().unwrap()));
    assert_close(0.5625, to_f64(seq.next().unwrap()));
}

#[test]
fn sequence_base_3() {
    let mut seq = Sequence::new(3);
    assert_close(0.3333333333333333, to_f64(seq.next().unwrap()));
    assert_close(0.6666666666666666, to_f64(seq.next().unwrap()));
    assert_close(0.1111111111111111, to_f64(seq.next().unwrap()));
    assert_close(0.4444444444444444, to_f64(seq.next().unwrap()));
    assert_close(0.7777777777777777, to_f64(seq.next().unwrap()));
    assert_close(0.2222222222222222, to_f64(seq.next().unwrap()));
    assert_close(0.5555555555555555, to_f64(seq.next().unwrap()));
    assert_close(0.8888888888888888, to_f64(seq.next().unwrap()));
    assert_close(0.0370370370370370, to_f64(seq.next().unwrap()));
}

#[test]
fn sequence_skip_base_2() {
    let mut seq = Sequence::skip_and_new(2, 8);
    assert_close(0.5625, to_f64(seq.next().unwrap()));
}

#[test]
fn sequence_skip_base_3() {
    let mut seq = Sequence::skip_and_new(3, 8);
    assert_close(0.0370370370370370, to_f64(seq.next().unwrap()));
}

#[test]
fn sequence_iteratate_to_last() {
    let mut seq = Sequence::new(2);
    let mut last = None;
    while let Some(v) = seq.next() {
        last = Some(v);
    }
    assert_close(0.9999990463256836, to_f64(last.unwrap()));
}

#[test]
fn sequence_last() {
    let seq = Sequence::new(2);
    assert_close(0.9999990463256836, to_f64(seq.last().unwrap()));
}

#[test]
fn sequence_nth_last() {
    let mut seq = Sequence::new(2);
    assert_close(0.9999990463256836, to_f64(seq.nth(1048574).unwrap()));
    assert_eq!(None, seq.next());
}

#[test]
fn sequence_skip_last() {
    let mut seq = Sequence::skip_and_new(2, 1048574);
    assert_close(0.9999990463256836, to_f64(seq.next().unwrap()));
    assert_eq!(None, seq.next());
}

#[test]
fn sequence_iter() {
    let mut seq = Sequence::new(2);
    let mut taken: Vec<f64> = Vec::new();
    for _ in 0..3 {
        taken.push(to_f64(seq.next().unwrap()));
    }
    assert_eq!(vec![0.5, 0.25, 0.75], taken);
}

#[test]
fn sequence_count() {
    let seq = Sequence::new(2);
    assert_eq!(1048575, seq.count());
}

#[test]
fn sequence_size_hint() {
    let seq = Sequence::new(2);
    assert_eq!((1048575, Some(1048575)), seq.size_hint());
}
