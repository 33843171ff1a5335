//! Behavioural properties of the generator and the direct computation:
//! range of the values, agreement between the two computations,
//! repositioning, exhaustion, and the remaining-count bookkeeping.

use halton::{number, Fraction, GenericSequence, Sequence};

fn to_f64(f: Fraction) -> f64 {
    f.num as f64 / f.den as f64
}

/// Values for indices at least 1 are strictly between 0 and 1; index 0
/// yields exactly 0.
#[test]
fn values_lie_in_unit_interval() {
    for base in [2u64, 3, 7, 10, 50] {
        assert_eq!(0, number(base, 0).num);
        for index in [1u64, 2, 5, 99, 100000, u64::MAX] {
            let f = number(base, index);
            assert!(0 < f.num && f.num < f.den, "base {base}, index {index}");
        }
    }
}

/// The k-th value produced by stepping equals the directly computed value
/// at index k.
#[test]
fn stepping_matches_direct_computation() {
    for base in [2u64, 3, 5, 17] {
        let mut seq = Sequence::new(base);
        for index in 1..=200u64 {
            assert_eq!(number(base, index), seq.next().unwrap());
        }
    }
}

/// `reposition(n)` followed by one step yields the same value as `n + 1`
/// plain steps from a fresh generator, for small skips and for skips well
/// past the threshold where a direct O(D) rebuild pays off.
#[test]
fn repositioning_matches_stepping() {
    for n in [0u64, 1, 7, 49, 50, 51, 1000, 4095] {
        let mut direct = Sequence::new(3);
        direct.reposition(n);
        let via_reposition = direct.next();

        let mut stepped = Sequence::new(3);
        let mut value = None;
        for _ in 0..=n {
            value = stepped.next();
        }
        assert_eq!(value, via_reposition, "skip {n}");
    }
}

/// A generator is exhausted after exactly `base^D - 1` successful steps,
/// and every step after that yields nothing, permanently.
#[test]
fn exhaustion_is_exact_and_permanent() {
    let mut seq = GenericSequence::<3>::new(2);
    for _ in 0..7 {
        assert!(seq.next().is_some());
    }
    assert_eq!(None, seq.next());
    assert_eq!(None, seq.next());
    assert_eq!(None, seq.next());
}

/// `remaining` falls by exactly 1 per successful step and hits 0 exactly at
/// exhaustion.
#[test]
fn remaining_counts_down_to_exhaustion() {
    let mut seq = GenericSequence::<4>::new(3);
    let total = 3u64 * 3 * 3 * 3 - 1;
    assert_eq!(Some(total), seq.remaining());
    for produced in 1..=total {
        assert!(seq.next().is_some());
        assert_eq!(Some(total - produced), seq.remaining());
    }
    assert_eq!(Some(0), seq.remaining());
    assert_eq!(None, seq.next());
    assert_eq!(Some(0), seq.remaining());
}

/// The ninth value of the base-2 sequence, reached by repositioning.
#[test]
fn ninth_value_by_repositioning() {
    let mut seq = Sequence::new(2);
    seq.reposition(8);
    let f = seq.next().unwrap();
    assert_eq!(0.5625, to_f64(f));
}

/// Exact fractions behind the first values: 1/2 for base 2, 1/3 for base 3,
/// and the largest base-2 value (2^20 - 1) / 2^20.
#[test]
fn exact_fractions() {
    assert_eq!(Fraction { num: 1, den: 2 }, number(2, 1));
    assert_eq!(Fraction { num: 1, den: 3 }, number(3, 1));
    assert_eq!(Fraction { num: 3, den: 4 }, number(2, 3));
    let last = Sequence::new(2).last().unwrap();
    assert_eq!(
        Fraction {
            num: (1u128 << 20) - 1,
            den: 1u128 << 20,
        },
        last
    );
    assert_eq!(0.9999990463256836, to_f64(last));
}

/// For pseudo-random (base, index) pairs the direct computation agrees with
/// stepping a generator to that index.
#[test]
fn direct_and_generator_agree_on_random_pairs() {
    let mut state: u64 = 0x853c49e6748fea9b;
    let mut rand = move || {
        state = state
            .wrapping_mul(6364136223846793005)
            .wrapping_add(1442695040888963407);
        state
    };
    for _ in 0..1000 {
        let base = 2 + (rand() >> 33) % 49;
        let index = 1 + (rand() >> 33) % 100000;
        let direct = number(base, index);
        let mut seq = Sequence::new(base);
        let stepped = seq.nth(index - 1).unwrap();
        assert_eq!(direct, stepped, "base {base}, index {index}");
    }
}

/// When `base^D - 1` overflows 64 bits, the size queries report overflow
/// distinctly instead of wrapping; stepping still works.
#[test]
fn size_queries_report_overflow() {
    let mut seq = Sequence::new(50);
    assert_eq!(None, seq.max());
    assert_eq!(None, seq.remaining());
    assert_eq!((0, None), seq.size_hint());
    assert_eq!(Some(0), seq.pos());
    assert_eq!(Fraction { num: 1, den: 50 }, seq.next().unwrap());
    assert_eq!(Some(1), seq.pos());
}

/// `pos` and `max` agree with stepping: after k steps the position is k and
/// the maximum stays put.
#[test]
fn position_tracks_steps() {
    let mut seq = GenericSequence::<5>::new(2);
    assert_eq!(Some(0), seq.pos());
    assert_eq!(Some(31), seq.max());
    for k in 1..=10u64 {
        seq.next().unwrap();
        assert_eq!(Some(k), seq.pos());
    }
    assert_eq!(Some(31), seq.max());
}

/// `skip_and_new` equals construction followed by repositioning.
#[test]
fn skip_and_new_matches_reposition() {
    for n in [0u64, 5, 100, 5000] {
        let mut a = Sequence::skip_and_new(7, n);
        let mut b = Sequence::new(7);
        b.reposition(n);
        assert_eq!(a.pos(), b.pos());
        assert_eq!(a.next(), b.next());
    }
}

/// Repositioning past the end exhausts the generator, exactly as stepping
/// that far would.
#[test]
fn reposition_past_end_exhausts() {
    let mut seq = GenericSequence::<3>::new(2);
    seq.reposition(7);
    assert_eq!(None, seq.next());
    let mut seq2 = GenericSequence::<3>::new(2);
    seq2.reposition(1000);
    assert_eq!(Some(0), seq2.remaining());
    assert_eq!(None, seq2.next());
    let mut seq3 = GenericSequence::<3>::new(2);
    assert_eq!(None, seq3.nth(7));
    assert_eq!(Some(7), seq3.pos());
}

/// Cloning duplicates the state: the copy continues from the same position
/// and advances independently of the original.
#[test]
fn clone_duplicates_state() {
    let mut seq = Sequence::new(5);
    for _ in 0..30 {
        seq.next().unwrap();
    }
    let mut copy = seq.clone();
    assert_eq!(seq.pos(), copy.pos());
    let from_copy = copy.next();
    assert_eq!(seq.next(), from_copy);
    copy.next().unwrap();
    assert_eq!(Some(31), seq.pos());
    assert_eq!(Some(32), copy.pos());
}

/// `last` consumes the generator and produces the final value; on an
/// exhausted generator it yields nothing.
#[test]
fn last_on_exhausted_generator() {
    let mut seq = GenericSequence::<3>::new(2);
    seq.reposition(7);
    assert_eq!(None, seq.last());
    let half = GenericSequence::<3>::skip_and_new(2, 3);
    assert_eq!(Fraction { num: 7, den: 8 }, half.last().unwrap());
}
