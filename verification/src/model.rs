//! The mathematical model of Halton sequences.
//!
//! A sequence index is read as a string of base-`b` digits; its Halton value
//! is the fraction obtained by reflecting those digits around the radix
//! point.  The spec functions here describe both views of that quantity: one
//! recursing over an integer index ([`digit_count`], [`radix_reversed`]) and
//! one recursing over a digit string stored least-significant first
//! ([`seq_position`], [`seq_reversed`]), together with the lemmas that tie
//! the two views together.

use vstd::prelude::*;
use vstd::arithmetic::power::*;
use vstd::arithmetic::div_mod::*;
use vstd::arithmetic::mul::*;

verus! {

/// Number of base-`base` digits of `p` (zero for `p == 0`).
pub open spec fn digit_count(base: int, p: int) -> nat
    decreases p,
    when base >= 2 && p >= 0
    via digit_count_decreases
{
    if base < 2 || p <= 0 {
        0
    } else {
        digit_count(base, p / base) + 1
    }
}

#[via_fn]
proof fn digit_count_decreases(base: int, p: int) {
    if base >= 2 && p > 0 {
        lemma_div_decreases(p, base);
        lemma_div_pos_is_pos(p, base);
    }
}

/// The numerator of the radical inverse of `p` in base `base`: the value of
/// the digits of `p` written in reverse order.  The radical inverse itself is
/// `radix_reversed(base, p) / pow(base, digit_count(base, p))`.
pub open spec fn radix_reversed(base: int, p: int) -> int
    decreases p,
    when base >= 2 && p >= 0
    via radix_reversed_decreases
{
    if base < 2 || p <= 0 {
        0
    } else {
        (p % base) * pow(base, digit_count(base, p / base)) + radix_reversed(base, p / base)
    }
}

#[via_fn]
proof fn radix_reversed_decreases(base: int, p: int) {
    if base >= 2 && p > 0 {
        lemma_div_decreases(p, base);
        lemma_div_pos_is_pos(p, base);
    }
}

/// The integer whose base-`base` digits, least significant first, are `s`.
pub open spec fn seq_position(s: Seq<u64>, base: int) -> int
    decreases s.len(),
{
    if s.len() == 0 {
        0
    } else {
        s[0] + base * seq_position(s.drop_first(), base)
    }
}

/// The value of the digit string `s` (least significant digit first) read in
/// reverse: digit `s[i]` carries weight `pow(base, s.len() - 1 - i)`.
pub open spec fn seq_reversed(s: Seq<u64>, base: int) -> int
    decreases s.len(),
{
    if s.len() == 0 {
        0
    } else {
        s[0] * pow(base, (s.len() - 1) as nat) + seq_reversed(s.drop_first(), base)
    }
}

/// One unfolding step of the (opaque) `pow` function.
pub proof fn lemma_pow_unfold(base: int, e: nat)
    requires
        e >= 1,
    ensures
        pow(base, e) == base * pow(base, (e - 1) as nat),
{
    reveal(pow);
}

/// A digit string of valid digits denotes a position below `pow(base, len)`.
pub proof fn lemma_seq_position_bound(s: Seq<u64>, base: int)
    requires
        base >= 2,
        forall|i: int| 0 <= i < s.len() ==> (s[i] as int) < base,
    ensures
        0 <= seq_position(s, base) < pow(base, s.len()),
    decreases s.len(),
{
    if s.len() == 0 {
        lemma_pow0(base);
    } else {
        lemma_seq_position_bound(s.drop_first(), base);
        let q = seq_position(s.drop_first(), base);
        assert(seq_position(s, base) == s[0] + base * q);
        lemma_pow_unfold(base, s.len());
        assert(s[0] + base * q < base * pow(base, (s.len() - 1) as nat)) by (nonlinear_arith)
            requires
                (s[0] as int) < base,
                0 <= q,
                q < pow(base, (s.len() - 1) as nat),
                base >= 2,
        {}
        assert(0 <= base * q) by (nonlinear_arith)
            requires 0 <= q && base >= 2,
        {}
    }
}

/// The reversed reading of a valid digit string is below `pow(base, len)`.
pub proof fn lemma_seq_reversed_bound(s: Seq<u64>, base: int)
    requires
        base >= 2,
        forall|i: int| 0 <= i < s.len() ==> (s[i] as int) < base,
    ensures
        0 <= seq_reversed(s, base) < pow(base, s.len()),
    decreases s.len(),
{
    if s.len() == 0 {
        lemma_pow0(base);
    } else {
        lemma_seq_reversed_bound(s.drop_first(), base);
        let e = (s.len() - 1) as nat;
        let r = seq_reversed(s.drop_first(), base);
        lemma_pow_positive(base, e);
        assert(seq_reversed(s, base) == s[0] * pow(base, e) + r);
        lemma_pow_unfold(base, s.len());
        assert(s[0] * pow(base, e) + r < base * pow(base, e)) by (nonlinear_arith)
            requires
                (s[0] as int) < base,
                0 <= r,
                r < pow(base, e),
                pow(base, e) >= 1,
        {}
        assert(0 <= s[0] * pow(base, e)) by (nonlinear_arith)
            requires pow(base, e) >= 1,
        {}
    }
}

/// Digits at positions `m` and above that are all zero do not contribute to
/// the position.
pub proof fn lemma_seq_position_trailing_zeros(s: Seq<u64>, base: int, m: int)
    requires
        0 <= m <= s.len(),
        forall|i: int| m <= i < s.len() ==> s[i] == 0,
    ensures
        seq_position(s, base) == seq_position(s.subrange(0, m), base),
    decreases s.len(),
{
    if s.len() == 0 {
        assert(s.subrange(0, m) =~= s);
    } else if m == 0 {
        assert(forall|i: int| 0 <= i < s.drop_first().len() ==> s.drop_first()[i] == 0);
        lemma_seq_position_trailing_zeros(s.drop_first(), base, 0);
        assert(s.drop_first().subrange(0, 0) =~= s.subrange(0, 0));
        assert(seq_position(s, base) == s[0] + base * seq_position(s.drop_first(), base));
        assert(seq_position(s.subrange(0, 0), base) == 0);
    } else {
        lemma_seq_position_trailing_zeros(s.drop_first(), base, m - 1);
        assert(s.subrange(0, m).drop_first() =~= s.drop_first().subrange(0, m - 1));
        assert(seq_position(s.subrange(0, m), base)
            == s[0] + base * seq_position(s.subrange(0, m).drop_first(), base));
    }
}

/// Appending a digit at the most significant end adds its place value.
pub proof fn lemma_seq_position_push(s: Seq<u64>, base: int, v: u64)
    requires
        base >= 2,
    ensures
        seq_position(s.push(v), base) == seq_position(s, base) + v * pow(base, s.len()),
    decreases s.len(),
{
    if s.len() == 0 {
        assert(s.push(v).len() == 1);
        assert(s.push(v)[0] == v);
        assert(s.push(v).drop_first() =~= Seq::<u64>::empty());
        assert(seq_position(Seq::<u64>::empty(), base) == 0);
        assert(seq_position(s.push(v), base)
            == s.push(v)[0] + base * seq_position(s.push(v).drop_first(), base));
        lemma_pow0(base);
    } else {
        lemma_seq_position_push(s.drop_first(), base, v);
        assert(s.push(v).drop_first() =~= s.drop_first().push(v));
        assert(seq_position(s.push(v), base)
            == s[0] + base * seq_position(s.drop_first().push(v), base));
        let q = seq_position(s.drop_first(), base);
        let e = (s.len() - 1) as nat;
        assert(seq_position(s.drop_first().push(v), base) == q + v * pow(base, e));
        lemma_pow_unfold(base, s.len());
        assert(base * (q + v * pow(base, e)) == base * q + v * (base * pow(base, e)))
            by (nonlinear_arith)
        {}
    }
}

/// A digit string whose digits are all `base - 1` denotes the largest
/// position with that many digits.
pub proof fn lemma_seq_position_all_max(s: Seq<u64>, base: int)
    requires
        base >= 2,
        forall|i: int| 0 <= i < s.len() ==> (s[i] as int) == base - 1,
    ensures
        seq_position(s, base) == pow(base, s.len()) - 1,
    decreases s.len(),
{
    if s.len() == 0 {
        lemma_pow0(base);
    } else {
        lemma_seq_position_all_max(s.drop_first(), base);
        let e = (s.len() - 1) as nat;
        assert(seq_position(s, base) == (base - 1) + base * (pow(base, e) - 1));
        lemma_pow_unfold(base, s.len());
        assert(base * (pow(base, e) - 1) == base * pow(base, e) - base) by (nonlinear_arith)
        {}
    }
}

/// The two views of the model agree.  A digit string with `m` significant
/// digits denotes a position with `digit_count` equal to `m`, and reading the
/// string in reverse computes `radix_reversed` of that position.
pub proof fn lemma_digits_characterize(s: Seq<u64>, base: int, m: int)
    requires
        base >= 2,
        0 <= m <= s.len(),
        forall|i: int| 0 <= i < s.len() ==> (s[i] as int) < base,
        forall|i: int| m <= i < s.len() ==> s[i] == 0,
        m >= 1 ==> s[m - 1] >= 1,
    ensures
        digit_count(base, seq_position(s, base)) == m,
        radix_reversed(base, seq_position(s, base)) == seq_reversed(s.subrange(0, m), base),
        m >= 1 ==> seq_position(s, base) >= 1,
    decreases m,
{
    let p = seq_position(s, base);
    lemma_seq_position_bound(s, base);
    if m == 0 {
        lemma_seq_position_trailing_zeros(s, base, 0);
        assert(p == 0);
        assert(s.subrange(0, 0) =~= Seq::<u64>::empty());
    } else {
        let t = s.drop_first();
        let q = seq_position(t, base);
        lemma_seq_position_bound(t, base);
        assert(p == s[0] + base * q);
        lemma_fundamental_div_mod_converse(p, base, q, s[0] as int);
        assert(p / base == q && p % base == s[0]);
        assert(t.len() == s.len() - 1);
        assert(forall|i: int| m - 1 <= i < t.len() ==> t[i] == 0);
        lemma_digits_characterize(t, base, m - 1);
        // p >= 1: either the low digit or the rest is nonzero
        if m == 1 {
            assert(s[0] >= 1);
            assert(base * q >= 0) by (nonlinear_arith)
                requires base >= 2, q >= 0,
            {}
            assert(p >= 1);
        } else {
            assert(q >= 1);
            assert(base * q >= base) by (nonlinear_arith)
                requires base >= 2, q >= 1,
            {}
            assert(p >= 1);
        }
        assert(digit_count(base, p) == digit_count(base, q) + 1);
        assert(digit_count(base, p) == m);
        assert(radix_reversed(base, p)
            == s[0] * pow(base, digit_count(base, q)) + radix_reversed(base, q));
        assert(s.subrange(0, m).len() == m);
        assert(s.subrange(0, m)[0] == s[0]);
        assert(s.subrange(0, m).drop_first() =~= t.subrange(0, m - 1));
        assert(seq_reversed(s.subrange(0, m), base)
            == s[0] * pow(base, (m - 1) as nat) + seq_reversed(t.subrange(0, m - 1), base));
    }
}

/// Incrementing a digit string as an odometer — zeroing a maximal run of
/// low digits equal to `base - 1` and raising the next digit — adds one to
/// the position it denotes.
pub proof fn lemma_odometer(s: Seq<u64>, t: Seq<u64>, base: int, l: int)
    requires
        base >= 2,
        s.len() == t.len(),
        0 <= l < s.len(),
        forall|j: int| 0 <= j < l ==> (s[j] as int) == base - 1,
        forall|j: int| 0 <= j < l ==> t[j] == 0,
        (t[l] as int) == s[l] + 1,
        forall|j: int| l < j < s.len() ==> t[j] == s[j],
    ensures
        seq_position(t, base) == seq_position(s, base) + 1,
    decreases l,
{
    if l == 0 {
        assert(t.drop_first() =~= s.drop_first());
        assert(seq_position(t, base) == t[0] + base * seq_position(t.drop_first(), base));
        assert(seq_position(s, base) == s[0] + base * seq_position(s.drop_first(), base));
    } else {
        lemma_odometer(s.drop_first(), t.drop_first(), base, l - 1);
        assert(seq_position(t, base) == t[0] + base * seq_position(t.drop_first(), base));
        assert(seq_position(s, base) == s[0] + base * seq_position(s.drop_first(), base));
        assert(t[0] == 0 && (s[0] as int) == base - 1);
        let qs = seq_position(s.drop_first(), base);
        assert(base * (qs + 1) == base * qs + base) by (nonlinear_arith)
        {}
    }
}

} // verus!
