//! Direct computation of Halton numbers.
//!
//! [`number`] maps an index straight to its sequence value by reflecting the
//! index's base-`b` digits around the radix point.  The value is returned as
//! an exact [`Fraction`] whose denominator is the power of the base matching
//! the index's digit count.

use vstd::prelude::*;
use vstd::arithmetic::power::*;
use vstd::arithmetic::div_mod::*;
use crate::model::{digit_count, radix_reversed, lemma_pow_unfold};

verus! {

/// An exact non-negative fraction.  Values emitted by this crate satisfy
/// `num < den`, so they lie in `[0, 1)`.
#[derive(Clone, Copy, Debug, PartialEq, Eq, Structural)]
pub struct Fraction {
    /// Numerator.
    pub num: u128,
    /// Denominator; always a power of the sequence's base, hence nonzero.
    pub den: u128,
}

/// `f` is the Halton number at `index` of the sequence for `base`: the
/// radical inverse of `index`, as an exact fraction over the power of the
/// base given by the index's digit count.
pub open spec fn is_halton_value(f: Fraction, base: int, index: int) -> bool {
    &&& f.num == radix_reversed(base, index)
    &&& f.den == pow(base, digit_count(base, index))
}

/// Returns the number at `index` of the Halton sequence for `base`.  The
/// index is 1-based; `index == 0` yields the fraction `0 / 1`.
///
/// Bases below 2 carry no digit representation, so they are rejected by
/// precondition rather than by a branch on the hot path.
#[verifier::loop_isolation(false)]
pub fn number(base: u64, index: u64) -> (r: Fraction)
    requires
        base >= 2,
    ensures
        is_halton_value(r, base as int, index as int),
        index >= 1 ==> 0 < r.num < r.den,
        index == 0 ==> r.num == 0 && r.den == 1,
{
    let ghost bb: int = base as int;
    let b: u128 = base as u128;
    let mut i: u128 = index as u128;
    let mut num: u128 = 0;
    let mut den: u128 = 1;
    let ghost mut m: nat = 0;
    proof {
        lemma_pow0(bb);
    }
    while i > 0
        invariant
            i <= index,
            den == pow(bb, m),
            num < den,
            pow(bb, m) * i <= index,
            radix_reversed(bb, index as int)
                == num * pow(bb, digit_count(bb, i as int)) + radix_reversed(bb, i as int),
            digit_count(bb, index as int) == m + digit_count(bb, i as int),
        decreases i,
    {
        let d = i % b;
        let ghost i0: int = i as int;
        let ghost q0: int = i0 / bb;
        let ghost d0: int = i0 % bb;
        let ghost p_rest: int = pow(bb, digit_count(bb, q0));
        proof {
            lemma_mod_division_less_than_divisor(i0, bb);
            lemma_div_pos_is_pos(i0, bb);
            lemma_fundamental_div_mod(i0, bb);
            // one digit moves from the unprocessed part to the accumulator
            assert(digit_count(bb, i0) == digit_count(bb, q0) + 1);
            assert(radix_reversed(bb, i0) == d0 * p_rest + radix_reversed(bb, q0));
            lemma_pow_unfold(bb, digit_count(bb, i0));
            assert(pow(bb, digit_count(bb, i0)) == bb * p_rest);
            assert(num * (bb * p_rest) + (d0 * p_rest + radix_reversed(bb, q0))
                == (num * bb + d0) * p_rest + radix_reversed(bb, q0)) by (nonlinear_arith)
            {}
            // bounds for the widened arithmetic below
            assert(pow(bb, m) <= pow(bb, m) * i0) by (nonlinear_arith)
                requires i0 >= 1 && pow(bb, m) >= 1,
            {}
            assert(den * b <= index * b) by (nonlinear_arith)
                requires den <= index && b >= 2,
            {}
            assert(index * b <= u64::MAX * u64::MAX) by (nonlinear_arith)
                requires index <= u64::MAX && b <= u64::MAX,
            {}
            assert(num * b + d < den * b) by (nonlinear_arith)
                requires num < den && d < b && b >= 2 && den >= 1,
            {}
            lemma_pow_unfold(bb, m + 1);
            assert(pow(bb, m + 1) * q0 <= pow(bb, m) * i0) by (nonlinear_arith)
                requires
                    pow(bb, m + 1) == bb * pow(bb, m),
                    bb * q0 <= i0,
                    q0 >= 0,
                    pow(bb, m) >= 1,
            {}
        }
        num = num * b + d;
        den = den * b;
        i = i / b;
        proof {
            m = m + 1;
        }
    }
    proof {
        lemma_pow0(bb);
        assert(radix_reversed(bb, 0) == 0);
        assert(digit_count(bb, 0) == 0);
        if index >= 1 {
            lemma_value_in_unit_interval(bb, index as int);
        }
    }
    Fraction { num, den }
}

/// The Halton value of an index is unique: any two fractions that meet the
/// value contract for the same base and index — whether produced by the
/// direct computation or by stepping a generator to that index — are equal.
pub proof fn lemma_halton_value_unique(f1: Fraction, f2: Fraction, base: int, index: int)
    requires
        is_halton_value(f1, base, index),
        is_halton_value(f2, base, index),
    ensures
        f1 == f2,
{
}

/// Halton numbers lie strictly between 0 and 1: for every index at least 1,
/// the reversed-digit numerator is strictly between 0 and the denominator
/// `pow(base, digit_count(base, index))`.  (Index 0 yields exactly 0.)
pub proof fn lemma_value_in_unit_interval(base: int, p: int)
    requires
        base >= 2,
        p >= 1,
    ensures
        0 < radix_reversed(base, p) < pow(base, digit_count(base, p)),
    decreases p,
{
    let q = p / base;
    let d = p % base;
    lemma_div_pos_is_pos(p, base);
    lemma_mod_division_less_than_divisor(p, base);
    let pr = pow(base, digit_count(base, q));
    lemma_pow_positive(base, digit_count(base, q));
    assert(radix_reversed(base, p) == d * pr + radix_reversed(base, q));
    assert(digit_count(base, p) == digit_count(base, q) + 1);
    lemma_pow_unfold(base, digit_count(base, p));
    assert(pow(base, digit_count(base, p)) == base * pr);
    if q == 0 {
        if p >= base {
            lemma_div_non_zero(p, base);
        }
        assert(p < base);
        lemma_small_mod(p as nat, base as nat);
        assert(d == p);
        lemma_pow0(base);
        assert(radix_reversed(base, p) == d);
        assert(d < base * pr) by (nonlinear_arith)
            requires d < base && pr == 1,
        {}
    } else {
        lemma_div_decreases(p, base);
        lemma_value_in_unit_interval(base, q);
        assert(0 <= d * pr) by (nonlinear_arith)
            requires d >= 0 && pr >= 1,
        {}
        assert(d * pr + radix_reversed(base, q) < base * pr) by (nonlinear_arith)
            requires
                d < base,
                radix_reversed(base, q) < pr,
                pr >= 1,
        {}
    }
}

} // verus!
