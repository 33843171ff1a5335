//! The incremental Halton sequence generator.
//!
//! The generator keeps the current index as a base-`b` odometer `d` of `D`
//! digits, least significant first, together with a cache `r` of partial
//! reversed sums: `r[i]` is the reversed reading of the digits above
//! position `i`.  A step increments the odometer and repairs only the cache
//! entries below the highest digit that carried, so stepping costs amortized
//! O(1); random access rebuilds the whole state in O(D).
//!
//! Every emitted value is exact: a [`Fraction`] whose denominator is
//! `pow(b, k)`, where `k` is the digit count of the current position.  The
//! field `k` tracks that digit count and `pows` caches the powers
//! `pows[i] == b^i`, so that no step recomputes a power from scratch.

use vstd::prelude::*;
use vstd::arithmetic::power::*;
use vstd::arithmetic::div_mod::*;
use crate::model::{
    seq_position, seq_reversed, lemma_pow_unfold,
    lemma_seq_position_bound, lemma_seq_reversed_bound, lemma_seq_position_trailing_zeros,
    lemma_seq_position_push, lemma_seq_position_all_max, lemma_digits_characterize,
    lemma_odometer,
};
use crate::radical::{Fraction, is_halton_value, lemma_value_in_unit_interval};

verus! {

/// An incremental generator of Halton sequence values for one base, holding
/// `D` digits.  The largest representable index is `base^D - 1`; after that
/// index has been produced the generator is permanently exhausted.
///
/// Cloning duplicates the state: the copy continues independently.
#[derive(Clone)]
pub struct GenericSequence<const D: usize> {
    /// The base (radix) of the sequence; at least 2.
    b: u64,
    /// The current index as a base-`b` odometer, least significant digit
    /// first.
    d: Vec<u64>,
    /// Cache of partial reversed sums: `r[i]` is the reversed reading of the
    /// digits strictly above position `i` (zero at and above the top digit).
    r: Vec<u128>,
    /// Number of significant digits of the current index.
    k: usize,
    /// Cached powers of the base: `pows[i] == b^i`, for `i` up to `D`.
    pows: Vec<u128>,
}

impl<const D: usize> GenericSequence<D> {
    /// The generator's base.
    pub closed spec fn base(self) -> int {
        self.b as int
    }

    /// The index the digit odometer currently denotes.
    pub closed spec fn position(self) -> int {
        seq_position(self.d@, self.b as int)
    }

    /// The largest representable index; the generator is exhausted there.
    pub open spec fn max_position(self) -> int {
        pow(self.base(), D as nat) - 1
    }

    /// Well-formedness: digit and cache arrays have length `D`, every digit
    /// is below the base, `k` counts the significant digits, `pows` caches
    /// the powers of the base, and each `r[i]` is the reversed reading of
    /// the digits above `i`.
    pub closed spec fn wf(self) -> bool {
        &&& self.b >= 2
        &&& self.d@.len() == D
        &&& self.r@.len() == D
        &&& self.pows@.len() == D + 1
        &&& pow(self.b as int, D as nat) <= u128::MAX
        &&& forall|i: int| 0 <= i <= D ==> (#[trigger] self.pows@[i] as int) == pow(self.b as int, i as nat)
        &&& forall|i: int| 0 <= i < D ==> (#[trigger] self.d@[i] as int) < self.b
        &&& self.k <= D
        &&& forall|i: int| self.k <= i < D ==> (#[trigger] self.d@[i]) == 0
        &&& (self.k >= 1 ==> self.d@[self.k - 1] >= 1)
        &&& forall|i: int| 0 <= i < D ==> (#[trigger] self.r@[i] as int) == (
            if i + 1 < self.k {
                seq_reversed(self.d@.subrange(i + 1, self.k as int), self.b as int)
            } else {
                0
            })
    }

    /// Constructs a generator for `base`, positioned before the first value.
    ///
    /// `base` must be at least 2, and `base^D` must fit the width used for
    /// numerators and denominators.
    #[verifier::loop_isolation(false)]
    pub fn new(base: u64) -> (s: Self)
        requires
            base >= 2,
            pow(base as int, D as nat) <= u128::MAX,
        ensures
            s.wf(),
            s.base() == base,
            s.position() == 0,
    {
        let ghost bb: int = base as int;
        let mut d: Vec<u64> = Vec::new();
        let mut r: Vec<u128> = Vec::new();
        let mut j: usize = 0;
        while j < D
            invariant
                j <= D,
                d@.len() == j,
                r@.len() == j,
                forall|t: int| 0 <= t < j ==> d@[t] == 0 && r@[t] == 0,
            decreases D - j,
        {
            d.push(0);
            r.push(0);
            j += 1;
        }
        let mut pows: Vec<u128> = Vec::new();
        pows.push(1);
        proof {
            lemma_pow0(bb);
        }
        while pows.len() <= D
            invariant
                1 <= pows@.len() <= D + 1,
                forall|t: int| 0 <= t < pows@.len() ==> (#[trigger] pows@[t] as int) == pow(bb, t as nat),
            decreases D + 1 - pows@.len(),
        {
            let i = pows.len();
            let prev = pows[i - 1];
            proof {
                assert(prev as int == pow(bb, (i - 1) as nat));
                lemma_pow_unfold(bb, i as nat);
                assert(pow(bb, i as nat) == bb * pow(bb, (i - 1) as nat));
                lemma_pow_increases(base as nat, i as nat, D as nat);
                assert(prev as int * base as int == bb * pow(bb, (i - 1) as nat))
                    by (nonlinear_arith)
                    requires
                        prev as int == pow(bb, (i - 1) as nat),
                        bb == base as int,
                {}
                assert(prev as int * base as int == pow(bb, i as nat));
                assert(pow(bb, i as nat) <= u128::MAX);
            }
            let next_pow = prev * (base as u128);
            pows.push(next_pow);
        }
        let s = GenericSequence { b: base, d, r, k: 0, pows };
        proof {
            lemma_seq_position_trailing_zeros(s.d@, bb, 0);
            assert(s.d@.subrange(0, 0) =~= Seq::<u64>::empty());
        }
        s
    }

    /// Advances the generator by one index and returns the value there, or
    /// `None` exactly when the generator is exhausted (the last
    /// representable index has already been produced).  Exhaustion is
    /// permanent: the state is left unchanged, so every later step also
    /// returns `None`.
    #[verifier::loop_isolation(false)]
    #[verifier::rlimit(100)]
    pub fn next(&mut self) -> (res: Option<Fraction>)
        requires
            old(self).wf(),
        ensures
            final(self).wf(),
            final(self).base() == old(self).base(),
            old(self).position() < old(self).max_position() ==> {
                &&& final(self).position() == old(self).position() + 1
                &&& res matches Some(f)
                    && is_halton_value(f, old(self).base(), old(self).position() + 1)
            },
            old(self).position() == old(self).max_position() ==> *final(self) == *old(self),
            res is None <==> old(self).position() == old(self).max_position(),
            res matches Some(f) ==> 0 < f.num < f.den,
    {
        let ghost bb: int = self.b as int;
        let b = self.b;
        proof {
            lemma_seq_position_bound(self.d@, bb);
        }
        // Find the lowest digit that can absorb the increment.
        let mut l: usize = 0;
        while l < D && self.d[l] == b - 1
            invariant
                l <= D,
                forall|j: int| 0 <= j < l ==> (#[trigger] self.d@[j] as int) == b - 1,
            decreases D - l,
        {
            l += 1;
        }
        if l == D {
            // Every digit is at its maximum: the largest index is reached.
            proof {
                lemma_seq_position_all_max(self.d@, bb);
            }
            return None;
        }
        let ghost old_d = self.d@;
        let ghost old_r = self.r@;
        let ghost old_k = self.k as int;
        proof {
            // The scan cannot run past the significant digits: the digit at
            // `old_k` (if any) is 0, not `b - 1`.
            if self.k < D && l > self.k {
                assert(self.d@[self.k as int] == 0);
                assert(false);
            }
            assert(l <= self.k);
        }
        // Zero the maximal run of carried digits.
        let mut j: usize = 0;
        while j < l
            invariant
                j <= l,
                l < D,
                self.b == b,
                self.k == old_k,
                self.d@.len() == D,
                self.r@ == old_r,
                self.pows@ == old(self).pows@,
                forall|t: int| 0 <= t < j ==> (#[trigger] self.d@[t]) == 0,
                forall|t: int| j <= t < D ==> (#[trigger] self.d@[t]) == old_d[t],
            decreases l - j,
        {
            self.d[j] = 0;
            j += 1;
        }
        // Raise the first digit that does not carry.
        let dl = self.d[l];
        proof {
            assert((dl as int) < bb);
            assert((dl as int) != bb - 1);
        }
        self.d[l] = dl + 1;
        let ghost new_d = self.d@;
        proof {
            lemma_odometer(old_d, new_d, bb, l as int);
            assert(seq_position(new_d, bb) == seq_position(old_d, bb) + 1);
        }
        // The digit count grows exactly when the carry created a new digit.
        let newk = if l >= self.k { l + 1 } else { self.k };
        let ghost nk = newk as int;
        self.k = newk;
        proof {
            assert(l < nk <= D);
            assert(forall|t: int| nk <= t < D ==> (#[trigger] new_d[t]) == 0);
            if l as int >= old_k {
                assert(old_d[l as int] == 0);
                assert(new_d[nk - 1] == 1);
            } else {
                if nk - 1 == l {
                    assert(new_d[nk - 1] == dl + 1 >= 1);
                } else {
                    assert(new_d[nk - 1] == old_d[old_k - 1] >= 1);
                }
            }
        }
        // Repair the cache below the carry level.
        if l >= 1 {
            let h = self.k - 1;
            let dl1 = self.d[l];
            let pw = self.pows[h - l];
            let rl = self.r[l];
            let ghost above = new_d.subrange(l as int + 1, nk);
            proof {
                // The digits above `l` are untouched, so `r[l]` already
                // reads them in reverse; when there are none it is zero.
                if l as int + 1 < old_k {
                    assert(old_d.subrange(l as int + 1, old_k) =~= above);
                    assert(rl as int == seq_reversed(above, bb));
                } else {
                    assert(rl == 0);
                    assert(above.len() == 0);
                    assert(rl as int == seq_reversed(above, bb));
                }
                assert(forall|t: int| 0 <= t < above.len() ==> (#[trigger] above[t] as int) < bb);
                lemma_seq_reversed_bound(above, bb);
                // The repaired entry reads the digits from `l` up in reverse.
                let sub_l = new_d.subrange(l as int, nk);
                assert(sub_l.drop_first() =~= above);
                assert(sub_l[0] == dl1);
                assert(seq_reversed(sub_l, bb)
                    == dl1 * pow(bb, (nk - l - 1) as nat) + seq_reversed(above, bb));
                // No overflow: the result is below pow(b, nk - l) <= pow(b, D).
                assert(pw as int == pow(bb, (nk - l - 1) as nat));
                lemma_pow_unfold(bb, (nk - l) as nat);
                assert((dl1 as int) * (pw as int) + (rl as int) < bb * pow(bb, (nk - l - 1) as nat))
                    by (nonlinear_arith)
                    requires
                        (dl1 as int) < bb,
                        0 <= (rl as int) < pow(bb, (nk - l - 1) as nat),
                        (pw as int) == pow(bb, (nk - l - 1) as nat),
                        pow(bb, (nk - l - 1) as nat) >= 0,
                    {}
                lemma_pow_increases(b as nat, (nk - l) as nat, D as nat);
                assert((dl1 as int) * (pw as int) + (rl as int) <= u128::MAX);
            }
            self.r[l - 1] = (dl1 as u128) * pw + rl;
            // The zeroed digits contribute nothing: copy the entry down.
            let mut i2 = l - 1;
            while i2 >= 1
                invariant
                    i2 <= l - 1,
                    l < D,
                    self.b == b,
                    self.k == newk,
                    self.d@ == new_d,
                    self.r@.len() == D,
                    self.pows@ == old(self).pows@,
                    forall|t: int| i2 <= t <= l - 1 ==> (#[trigger] self.r@[t] as int)
                        == seq_reversed(new_d.subrange(t + 1, nk), bb),
                    forall|t: int| 0 <= t < i2 ==> (#[trigger] self.r@[t]) == old_r[t],
                    forall|t: int| l - 1 < t < D ==> (#[trigger] self.r@[t]) == old_r[t],
                decreases i2,
            {
                let v = self.r[i2];
                proof {
                    let sub_i = new_d.subrange(i2 as int, nk);
                    assert(sub_i.drop_first() =~= new_d.subrange(i2 as int + 1, nk));
                    assert(sub_i[0] == new_d[i2 as int]);
                    assert(new_d[i2 as int] == 0);
                    assert(seq_reversed(sub_i, bb)
                        == seq_reversed(new_d.subrange(i2 as int + 1, nk), bb));
                }
                self.r[i2 - 1] = v;
                i2 -= 1;
            }
        }
        proof {
            // The cache invariant holds for the new state.
            assert forall|i: int| 0 <= i < D implies (#[trigger] self.r@[i] as int) == (
                if i + 1 < nk {
                    seq_reversed(new_d.subrange(i + 1, nk), bb)
                } else {
                    0
                }) by {
                if i + 1 < nk {
                    if i >= l {
                        // Untouched entry; the digits it reads are unchanged.
                        assert(self.r@[i] == old_r[i]);
                        assert(i + 1 < old_k || l as int >= old_k);
                        if l as int >= old_k {
                            // nk == l + 1, so i + 1 < nk means i < l: contradiction.
                            assert(false);
                        } else {
                            assert(old_d.subrange(i + 1, old_k) =~= new_d.subrange(i + 1, nk));
                        }
                    }
                } else {
                    assert(i >= nk - 1);
                    if l >= 1 && i <= l - 1 {
                        assert(false);
                    }
                    assert(self.r@[i] == old_r[i]);
                    assert(!(i + 1 < old_k));
                }
            }
        }
        // Emit the value at the new position.
        let h2 = self.k - 1;
        let d0 = self.d[0];
        let pw2 = self.pows[h2];
        let r0 = self.r[0];
        proof {
            lemma_digits_characterize(new_d, bb, nk);
            let sub0 = new_d.subrange(0, nk);
            assert(sub0.drop_first() =~= new_d.subrange(1, nk));
            assert(sub0[0] == d0);
            assert(seq_reversed(sub0, bb)
                == d0 * pow(bb, (nk - 1) as nat) + seq_reversed(new_d.subrange(1, nk), bb));
            if nk == 1 {
                assert(new_d.subrange(1, nk).len() == 0);
            }
            assert(r0 as int == seq_reversed(new_d.subrange(1, nk), bb));
            assert(forall|t: int| 0 <= t < sub0.len() ==> (#[trigger] sub0[t] as int) < bb);
            lemma_seq_reversed_bound(new_d.subrange(1, nk), bb);
            assert(pw2 as int == pow(bb, (nk - 1) as nat));
            lemma_pow_unfold(bb, nk as nat);
            assert((d0 as int) * (pw2 as int) + (r0 as int) < bb * pow(bb, (nk - 1) as nat))
                by (nonlinear_arith)
                requires
                    (d0 as int) < bb,
                    0 <= (r0 as int) < pow(bb, (nk - 1) as nat),
                    (pw2 as int) == pow(bb, (nk - 1) as nat),
                    pow(bb, (nk - 1) as nat) >= 0,
                {}
            lemma_pow_increases(b as nat, nk as nat, D as nat);
            assert((d0 as int) * (pw2 as int) + (r0 as int) <= u128::MAX);
            // The new position is in range, so the old one was below the
            // maximum.
            lemma_seq_position_bound(new_d, bb);
            // The emitted value lies strictly between 0 and 1.
            lemma_value_in_unit_interval(bb, seq_position(new_d, bb));
        }
        let num = (d0 as u128) * pw2 + r0;
        let den = self.pows[self.k];
        Some(Fraction { num, den })
    }

    /// Reads the current position out of the digit odometer, most
    /// significant digit first.
    #[verifier::loop_isolation(false)]
    fn position_u128(&self) -> (p: u128)
        requires
            self.wf(),
        ensures
            p as int == self.position(),
    {
        let ghost bb: int = self.b as int;
        let mut acc: u128 = 0;
        let mut i = self.k;
        proof {
            lemma_pow0(bb);
            assert(self.d@.subrange(self.k as int, self.k as int).len() == 0);
        }
        while i > 0
            invariant
                i <= self.k,
                acc as int == seq_position(self.d@.subrange(i as int, self.k as int), bb),
                (acc as int) < pow(bb, (self.k - i) as nat),
            decreases i,
        {
            let d = self.d[i - 1];
            proof {
                let sub = self.d@.subrange(i - 1, self.k as int);
                assert(sub.drop_first() =~= self.d@.subrange(i as int, self.k as int));
                assert(sub[0] == self.d@[i - 1]);
                assert(seq_position(sub, bb) == d + bb * (acc as int));
                lemma_pow_unfold(bb, (self.k - i + 1) as nat);
                assert((d as int) + bb * (acc as int) < bb * pow(bb, (self.k - i) as nat))
                    by (nonlinear_arith)
                    requires
                        (d as int) < bb,
                        0 <= (acc as int) < pow(bb, (self.k - i) as nat),
                        pow(bb, (self.k - i) as nat) >= 1,
                    {}
                lemma_pow_increases(self.b as nat, (self.k - i + 1) as nat, D as nat);
                assert(bb * pow(bb, (self.k - i) as nat) <= u128::MAX);
            }
            acc = (self.b as u128) * acc + (d as u128);
            i -= 1;
        }
        proof {
            lemma_seq_position_trailing_zeros(self.d@, bb, self.k as int);
        }
        acc
    }

    /// The 1-based index of the value most recently produced (0 before the
    /// first step), or `None` if that index does not fit in 64 bits.
    pub fn pos(&self) -> (p: Option<u64>)
        requires
            self.wf(),
        ensures
            self.position() <= u64::MAX ==> p == Some(self.position() as u64),
            self.position() > u64::MAX ==> p is None,
    {
        let v = self.position_u128();
        if v <= u64::MAX as u128 {
            Some(v as u64)
        } else {
            None
        }
    }

    /// The largest representable index, `base^D - 1`, or `None` if that
    /// quantity overflows 64 bits.
    pub fn max(&self) -> (m: Option<u64>)
        requires
            self.wf(),
        ensures
            self.max_position() <= u64::MAX ==> m == Some(self.max_position() as u64),
            self.max_position() > u64::MAX ==> m is None,
    {
        proof {
            lemma_pow_positive(self.b as int, D as nat);
        }
        let mp = self.pows[D] - 1;
        if mp <= u64::MAX as u128 {
            Some(mp as u64)
        } else {
            None
        }
    }

    /// The exact count of values left to produce before exhaustion, or
    /// `None` if the range of the sequence overflows 64 bits.
    pub fn remaining(&self) -> (r: Option<u64>)
        requires
            self.wf(),
        ensures
            self.max_position() <= u64::MAX
                ==> r == Some((self.max_position() - self.position()) as u64),
            self.max_position() > u64::MAX ==> r is None,
    {
        proof {
            lemma_pow_positive(self.b as int, D as nat);
        }
        let mp = self.pows[D] - 1;
        if mp <= u64::MAX as u128 {
            let p = self.position_u128();
            proof {
                lemma_seq_position_bound(self.d@, self.b as int);
            }
            Some((mp - p) as u64)
        } else {
            None
        }
    }

    /// Lower and upper bounds on the number of values left: both exact when
    /// the count is representable, `(0, None)` when it overflows.
    pub fn size_hint(&self) -> (sh: (u64, Option<u64>))
        requires
            self.wf(),
        ensures
            self.max_position() <= u64::MAX ==> {
                &&& sh.0 as int == self.max_position() - self.position()
                &&& sh.1 == Some(sh.0)
            },
            self.max_position() > u64::MAX ==> sh.0 == 0 && sh.1 is None,
    {
        proof {
            lemma_seq_position_bound(self.d@, self.b as int);
        }
        match self.remaining() {
            Some(rem) => (rem, Some(rem)),
            None => (0, None),
        }
    }

    /// The number of values left to produce, consuming the generator.  The
    /// count must be representable in 64 bits.
    pub fn count(self) -> (c: u64)
        requires
            self.wf(),
            self.max_position() <= u64::MAX,
        ensures
            c as int == self.max_position() - self.position(),
    {
        proof {
            lemma_seq_position_bound(self.d@, self.b as int);
        }
        self.remaining().unwrap()
    }

    /// Rebuilds the whole state — digits and cache — for the index
    /// `target`, in O(D).
    #[verifier::loop_isolation(false)]
    #[verifier::rlimit(100)]
    fn rebuild(&mut self, target: u128)
        requires
            old(self).wf(),
            target as int <= old(self).max_position(),
        ensures
            final(self).wf(),
            final(self).base() == old(self).base(),
            final(self).position() == target as int,
    {
        let ghost bb: int = self.b as int;
        let b = self.b as u128;
        // Decompose the target into base-b digits, least significant first.
        let mut x = target;
        let mut i: usize = 0;
        proof {
            lemma_pow0(bb);
            assert(self.d@.subrange(0, 0).len() == 0);
        }
        while x > 0
            invariant
                i <= D,
                self.b == old(self).b,
                self.k == old(self).k,
                self.d@.len() == D,
                self.r@ == old(self).r@,
                self.pows@ == old(self).pows@,
                forall|t: int| 0 <= t < i ==> (#[trigger] self.d@[t] as int) < bb,
                (x == 0 && i >= 1) ==> self.d@[i - 1] >= 1,
                seq_position(self.d@.subrange(0, i as int), bb) + (x as int) * pow(bb, i as nat)
                    == target as int,
                (x as int) * pow(bb, i as nat) <= target as int,
            decreases x,
        {
            proof {
                lemma_pow_positive(bb, i as nat);
                assert(pow(bb, i as nat) <= (x as int) * pow(bb, i as nat))
                    by (nonlinear_arith)
                    requires (x as int) >= 1 && pow(bb, i as nat) >= 1,
                {}
                if i == D {
                    assert(pow(bb, D as nat) <= target as int);
                    assert(false);
                }
                lemma_mod_division_less_than_divisor(x as int, bb);
                lemma_fundamental_div_mod(x as int, bb);
            }
            let dig = (x % b) as u64;
            let ghost pre = self.d@;
            self.d[i] = dig;
            proof {
                assert(self.d@.subrange(0, i as int) =~= pre.subrange(0, i as int));
                lemma_seq_position_push(self.d@.subrange(0, i as int), bb, dig);
                assert(self.d@.subrange(0, i as int + 1)
                    =~= self.d@.subrange(0, i as int).push(dig));
                lemma_pow_unfold(bb, (i + 1) as nat);
                assert((x as int) * pow(bb, i as nat)
                    == (x as int % bb) * pow(bb, i as nat)
                        + (x as int / bb) * (bb * pow(bb, i as nat)))
                    by (nonlinear_arith)
                    requires (x as int) == bb * (x as int / bb) + (x as int % bb),
                {}
                lemma_div_pos_is_pos(x as int, bb);
                lemma_div_decreases(x as int, bb);
                // When the quotient hits zero the digit written was the
                // (nonzero) top digit.
                assert((x as int) / bb == 0 ==> (x as int) % bb == x as int);
            }
            x = x / b;
            i += 1;
        }
        let newk = i;
        let ghost filled = self.d@;
        // Clear any unused high digits.
        let mut j = newk;
        while j < D
            invariant
                newk <= j <= D,
                self.b == old(self).b,
                self.k == old(self).k,
                self.d@.len() == D,
                self.r@ == old(self).r@,
                self.pows@ == old(self).pows@,
                forall|t: int| 0 <= t < newk ==> (#[trigger] self.d@[t]) == filled[t],
                forall|t: int| newk <= t < j ==> (#[trigger] self.d@[t]) == 0,
            decreases D - j,
        {
            self.d[j] = 0;
            j += 1;
        }
        self.k = newk;
        let ghost new_d = self.d@;
        let ghost nk = newk as int;
        proof {
            assert(new_d.subrange(0, nk) =~= filled.subrange(0, nk));
            lemma_seq_position_trailing_zeros(new_d, bb, nk);
            assert(seq_position(new_d, bb) == target as int);
        }
        // Rebuild the cache from scratch: clear it, then fold the digits in
        // from the top.
        let mut j2: usize = 0;
        while j2 < D
            invariant
                j2 <= D,
                self.b == old(self).b,
                self.k == newk,
                self.d@ == new_d,
                self.r@.len() == D,
                self.pows@ == old(self).pows@,
                forall|t: int| 0 <= t < j2 ==> (#[trigger] self.r@[t]) == 0,
            decreases D - j2,
        {
            self.r[j2] = 0;
            j2 += 1;
        }
        if newk >= 2 {
            let h = newk - 1;
            let mut i2 = h;
            while i2 >= 1
                invariant
                    i2 <= h,
                    h == nk - 1,
                    h < D,
                    self.b == old(self).b,
                    self.k == newk,
                    self.d@ == new_d,
                    self.r@.len() == D,
                    self.pows@ == old(self).pows@,
                    forall|t: int| i2 <= t < D ==> (#[trigger] self.r@[t] as int) == (
                        if t + 1 < nk {
                            seq_reversed(new_d.subrange(t + 1, nk), bb)
                        } else {
                            0
                        }),
                    forall|t: int| 0 <= t < i2 ==> (#[trigger] self.r@[t]) == 0,
                decreases i2,
            {
                let di = self.d[i2];
                let pw = self.pows[h - i2];
                let rv = self.r[i2];
                let ghost above = new_d.subrange(i2 as int + 1, nk);
                proof {
                    if i2 as int + 1 >= nk {
                        assert(above.len() == 0);
                    }
                    assert(rv as int == seq_reversed(above, bb));
                    assert(forall|t: int| 0 <= t < above.len()
                        ==> (#[trigger] above[t] as int) < bb);
                    lemma_seq_reversed_bound(above, bb);
                    let sub_i = new_d.subrange(i2 as int, nk);
                    assert(sub_i.drop_first() =~= above);
                    assert(sub_i[0] == di);
                    assert(seq_reversed(sub_i, bb)
                        == di * pow(bb, (nk - i2 - 1) as nat) + seq_reversed(above, bb));
                    assert(pw as int == pow(bb, (nk - i2 - 1) as nat));
                    lemma_pow_unfold(bb, (nk - i2) as nat);
                    assert((di as int) * (pw as int) + (rv as int)
                        < bb * pow(bb, (nk - i2 - 1) as nat))
                        by (nonlinear_arith)
                        requires
                            (di as int) < bb,
                            0 <= (rv as int) < pow(bb, (nk - i2 - 1) as nat),
                            (pw as int) == pow(bb, (nk - i2 - 1) as nat),
                            pow(bb, (nk - i2 - 1) as nat) >= 0,
                        {}
                    lemma_pow_increases(self.b as nat, (nk - i2) as nat, D as nat);
                    assert((di as int) * (pw as int) + (rv as int) <= u128::MAX);
                }
                self.r[i2 - 1] = (di as u128) * pw + rv;
                i2 -= 1;
            }
        }
    }

    /// Advances the generator by `n` indices in O(D), without producing the
    /// skipped values: afterwards the generator behaves exactly as if `n`
    /// single steps had been taken, saturating at exhaustion.
    pub fn reposition(&mut self, n: u64)
        requires
            old(self).wf(),
        ensures
            final(self).wf(),
            final(self).base() == old(self).base(),
            final(self).position() == (
                if old(self).position() + n <= old(self).max_position() {
                    old(self).position() + n
                } else {
                    old(self).max_position()
                }),
    {
        let ghost bb: int = self.b as int;
        proof {
            lemma_seq_position_bound(self.d@, bb);
            lemma_pow_positive(bb, D as nat);
        }
        let p = self.position_u128();
        let mp = self.pows[D] - 1;
        let t = if (n as u128) > mp - p {
            mp
        } else {
            p + (n as u128)
        };
        self.rebuild(t);
    }

    /// Skips `n` values and produces the one after them: returns the value
    /// at index `position + n + 1`, or `None` (leaving the generator
    /// exhausted) if that index is past the end of the sequence.  Equivalent
    /// to `n + 1` single steps, keeping only the last result, but O(D).
    pub fn nth(&mut self, n: u64) -> (res: Option<Fraction>)
        requires
            old(self).wf(),
        ensures
            final(self).wf(),
            final(self).base() == old(self).base(),
            old(self).position() + n + 1 <= old(self).max_position() ==> {
                &&& final(self).position() == old(self).position() + n + 1
                &&& res matches Some(f)
                    && is_halton_value(f, old(self).base(), old(self).position() + n + 1)
            },
            old(self).position() + n + 1 > old(self).max_position() ==> {
                &&& final(self).position() == old(self).max_position()
                &&& res is None
            },
    {
        self.reposition(n);
        self.next()
    }

    /// Constructs a generator for `base` already positioned at index `n`:
    /// equivalent to `new(base)` followed by `reposition(n)`, so the first
    /// step produces the value at index `n + 1`.
    pub fn skip_and_new(base: u64, n: u64) -> (s: Self)
        requires
            base >= 2,
            pow(base as int, D as nat) <= u128::MAX,
        ensures
            s.wf(),
            s.base() == base,
            s.position() == (
                if n <= pow(base as int, D as nat) - 1 {
                    n as int
                } else {
                    pow(base as int, D as nat) - 1
                }),
    {
        let mut s = Self::new(base);
        s.reposition(n);
        s
    }

    /// Each successful step — which moves the position up by exactly one —
    /// reduces the count of values left to produce by exactly one, and that
    /// count reaches zero exactly when the generator is exhausted.
    pub proof fn lemma_remaining_law(pre: Self, post: Self)
        requires
            pre.wf(),
            post.wf(),
            post.base() == pre.base(),
            pre.position() < pre.max_position(),
            post.position() == pre.position() + 1,
        ensures
            post.max_position() == pre.max_position(),
            post.max_position() - post.position()
                == (pre.max_position() - pre.position()) - 1,
            post.max_position() - post.position() == 0 <==> post.position()
                == post.max_position(),
    {
    }

    /// Produces the very last value of the sequence (the one at the largest
    /// representable index), or `None` if the generator is already
    /// exhausted.
    pub fn last(self) -> (res: Option<Fraction>)
        requires
            self.wf(),
        ensures
            self.position() < self.max_position() ==> (res matches Some(f)
                && is_halton_value(f, self.base(), self.max_position())),
            self.position() == self.max_position() ==> res is None,
    {
        let ghost bb: int = self.b as int;
        proof {
            lemma_seq_position_bound(self.d@, bb);
            lemma_pow_positive(bb, D as nat);
        }
        let p = self.position_u128();
        let mp = self.pows[D] - 1;
        if p == mp {
            None
        } else {
            let mut g = self;
            g.rebuild(mp - 1);
            g.next()
        }
    }
}

/// Repositioning by `n` and then stepping once lands on the same position
/// as `n + 1` single steps: the law relating the position clauses in the
/// contracts of `reposition` and `next`, with `m` the largest representable
/// index at which both saturate.
pub proof fn lemma_reposition_step_law(p: int, n: int, m: int)
    requires
        0 <= p <= m,
        0 <= n,
    ensures
        ({
            let after_reposition = if p + n <= m { p + n } else { m };
            let after_step = if after_reposition < m { after_reposition + 1 } else { after_reposition };
            after_step == if p + n + 1 <= m { p + n + 1 } else { m }
        }),
{
}

/// A generator with the default digit depth of 20.
pub type Sequence = GenericSequence<20>;

} // verus!
