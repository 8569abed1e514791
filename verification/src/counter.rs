//! Odometer-style enumerator over fixed-length digit vectors drawn from a
//! half-open integer range, with index conversions in either direction.  The
//! conversions are exact inverses while width^n fits in 64 bits.
use vstd::prelude::*;

verus! {

use vstd::arithmetic::div_mod::{
    lemma_add_mod_noop,
    lemma_fundamental_div_mod_converse,
    lemma_mod_breakdown,
    lemma_mul_mod_noop_general,
    lemma_small_mod,
};
use vstd::arithmetic::mul::lemma_mul_is_commutative;
use vstd::arithmetic::power::{lemma_pow_positive, pow};
use crate::arith::{lemma_wrapping_add, lemma_wrapping_mul};

/// All elements of a sequence lie in the half-open range `[lo, hi)`.
pub open spec fn digits_in_range(s: Seq<u64>, lo: u64, hi: u64) -> bool {
    forall|i: int| 0 <= i < s.len() ==> lo <= #[trigger] s[i] < hi
}

/// Odometer value of a digit vector: position 0 is the fastest-moving digit.
pub open spec fn cval(s: Seq<u64>, lo: u64, w: int) -> int
    decreases s.len(),
{
    if s.len() == 0 {
        0
    } else {
        (s[0] - lo) + w * cval(s.drop_first(), lo, w)
    }
}

/// Index value of a digit vector: position 0 is the most significant digit.
pub open spec fn bval(s: Seq<u64>, lo: u64, w: int) -> int
    decreases s.len(),
{
    if s.len() == 0 {
        0
    } else {
        bval(s.drop_last(), lo, w) * w + (s.last() - lo)
    }
}

/// The digit vector of an index, most significant digit first.
pub open spec fn index_digits(index: int, lo: u64, w: int, n: nat) -> Seq<u64>
    decreases n,
{
    if n == 0 {
        Seq::empty()
    } else {
        index_digits(index / w, lo, w, (n - 1) as nat).push((index % w + lo) as u64)
    }
}

/// `pow(b, e + 1) == b * pow(b, e)`.
proof fn lemma_pow_succ(b: int, e: nat)
    ensures
        pow(b, (e + 1) as nat) == b * pow(b, e),
{
    vstd::arithmetic::power::lemma_pow1(b);
    vstd::arithmetic::power::lemma_pow_adds(b, 1, e);
}

/// A digit vector of all `lo` digits has odometer value zero.
pub proof fn lemma_cval_all_lo(s: Seq<u64>, lo: u64, w: int)
    requires
        forall|i: int| 0 <= i < s.len() ==> s[i] == lo,
    ensures
        cval(s, lo, w) == 0,
    decreases s.len(),
{
    if s.len() != 0 {
        lemma_cval_all_lo(s.drop_first(), lo, w);
    }
}

/// Changing one digit changes the odometer value by the digit difference at
/// that digit's weight.
pub proof fn lemma_cval_update(s: Seq<u64>, lo: u64, w: int, j: int, x: u64)
    requires
        0 <= j < s.len(),
    ensures
        cval(s.update(j, x), lo, w) == cval(s, lo, w) + (x - s[j]) * pow(w, j as nat),
    decreases j,
{
    if j == 0 {
        assert(s.update(0, x).drop_first() =~= s.drop_first());
        vstd::arithmetic::power::lemma_pow0(w);
        assert((x - s[0]) * 1 == x - s[0]) by (nonlinear_arith);
    } else {
        assert(s.update(j, x).drop_first() =~= s.drop_first().update(j - 1, x));
        lemma_cval_update(s.drop_first(), lo, w, j - 1, x);
        let d: int = x - s[j];
        let p = pow(w, (j - 1) as nat);
        lemma_pow_succ(w, (j - 1) as nat);
        assert(pow(w, j as nat) == w * p);
        assert(w * (cval(s.drop_first(), lo, w) + d * p) == w * cval(s.drop_first(), lo, w) + d * (
        w * p)) by (nonlinear_arith);
    }
}

/// The odometer value of an in-range digit vector lies in `[0, width^n)`.
pub proof fn lemma_cval_bounds(s: Seq<u64>, lo: u64, hi: u64)
    requires
        lo < hi,
        digits_in_range(s, lo, hi),
    ensures
        0 <= cval(s, lo, (hi - lo) as int) < pow((hi - lo) as int, s.len()),
    decreases s.len(),
{
    let w: int = (hi - lo) as int;
    if s.len() == 0 {
        vstd::arithmetic::power::lemma_pow0(w);
    } else {
        lemma_cval_bounds(s.drop_first(), lo, hi);
        let rest = cval(s.drop_first(), lo, w);
        let p = pow(w, (s.len() - 1) as nat);
        lemma_pow_succ(w, (s.len() - 1) as nat);
        assert(pow(w, s.len()) == w * p);
        assert(0 <= s[0] - lo < w);
        assert(w * rest >= 0) by (nonlinear_arith)
            requires
                w >= 1,
                rest >= 0,
        ;
        assert((s[0] - lo) + w * rest < w * p) by (nonlinear_arith)
            requires
                s[0] - lo < w,
                w >= 1,
                rest < p,
                (s[0] - lo) >= 0,
        ;
    }
}

/// The index value of an in-range digit vector lies in `[0, width^n)`.
pub proof fn lemma_bval_bounds(s: Seq<u64>, lo: u64, hi: u64)
    requires
        lo < hi,
        digits_in_range(s, lo, hi),
    ensures
        0 <= bval(s, lo, (hi - lo) as int) < pow((hi - lo) as int, s.len()),
    decreases s.len(),
{
    let w: int = (hi - lo) as int;
    if s.len() == 0 {
        vstd::arithmetic::power::lemma_pow0(w);
    } else {
        assert(digits_in_range(s.drop_last(), lo, hi));
        lemma_bval_bounds(s.drop_last(), lo, hi);
        let front = bval(s.drop_last(), lo, w);
        let p = pow(w, (s.len() - 1) as nat);
        vstd::arithmetic::power::lemma_pow_adds(w, (s.len() - 1) as nat, 1);
        vstd::arithmetic::power::lemma_pow1(w);
        assert(pow(w, s.len()) == p * w);
        assert(0 <= s.last() - lo < w);
        assert(front * w >= 0) by (nonlinear_arith)
            requires
                w >= 1,
                front >= 0,
        ;
        assert(front * w + (s.last() - lo) < p * w) by (nonlinear_arith)
            requires
                s.last() - lo < w,
                w >= 1,
                front < p,
                front >= 0,
        ;
    }
}

/// Two in-range digit vectors of the same length with the same odometer value
/// are equal.
pub proof fn lemma_cval_unique(s1: Seq<u64>, s2: Seq<u64>, lo: u64, hi: u64)
    requires
        lo < hi,
        s1.len() == s2.len(),
        digits_in_range(s1, lo, hi),
        digits_in_range(s2, lo, hi),
        cval(s1, lo, (hi - lo) as int) == cval(s2, lo, (hi - lo) as int),
    ensures
        s1 =~= s2,
    decreases s1.len(),
{
    let w: int = (hi - lo) as int;
    if s1.len() != 0 {
        let v = cval(s1, lo, w);
        lemma_cval_bounds(s1.drop_first(), lo, hi);
        lemma_cval_bounds(s2.drop_first(), lo, hi);
        assert(lo <= s1[0] < hi && lo <= s2[0] < hi);
        lemma_mul_is_commutative(w, cval(s1.drop_first(), lo, w));
        lemma_mul_is_commutative(w, cval(s2.drop_first(), lo, w));
        assert(v == cval(s1.drop_first(), lo, w) * w + (s1[0] - lo));
        assert(v == cval(s2.drop_first(), lo, w) * w + (s2[0] - lo));
        lemma_fundamental_div_mod_converse(v, w, cval(s1.drop_first(), lo, w), s1[0] - lo);
        lemma_fundamental_div_mod_converse(v, w, cval(s2.drop_first(), lo, w), s2[0] - lo);
        assert(s1[0] == s2[0]);
        lemma_cval_unique(s1.drop_first(), s2.drop_first(), lo, hi);
        assert forall|k: int| 0 <= k < s1.len() implies s1[k] == s2[k] by {
            if k > 0 {
                assert(s1.drop_first()[k - 1] == s1[k]);
                assert(s2.drop_first()[k - 1] == s2[k]);
            }
        }
        assert(s1 =~= s2);
    }
}

/// The digit vector extracted from an index is in range, has the requested
/// length, and its index value is the index reduced modulo width^n.
pub proof fn lemma_index_digits_props(index: int, lo: u64, hi: u64, n: nat)
    requires
        lo < hi,
        index >= 0,
        hi - lo + lo <= u64::MAX,
    ensures
        index_digits(index, lo, (hi - lo) as int, n).len() == n,
        digits_in_range(index_digits(index, lo, (hi - lo) as int, n), lo, hi),
        bval(index_digits(index, lo, (hi - lo) as int, n), lo, (hi - lo) as int) == index % pow(
            (hi - lo) as int,
            n,
        ),
    decreases n,
{
    let w: int = (hi - lo) as int;
    if n == 0 {
        vstd::arithmetic::power::lemma_pow0(w);
        lemma_small_mod(0, 1);
        assert(index % 1 == 0) by {
            vstd::arithmetic::div_mod::lemma_mod_mod(index, 1, 1);
            vstd::arithmetic::div_mod::lemma_mod_self_0(1);
            vstd::arithmetic::div_mod::lemma_mod_twice(index, 1);
            assert(index % 1 >= 0 && index % 1 < 1);
        }
    } else {
        vstd::arithmetic::div_mod::lemma_div_pos_is_pos(index, w);
        lemma_index_digits_props(index / w, lo, hi, (n - 1) as nat);
        let prefix = index_digits(index / w, lo, w, (n - 1) as nat);
        let d: u64 = (index % w + lo) as u64;
        assert(0 <= index % w < w);
        assert(index_digits(index, lo, w, n) == prefix.push(d));
        assert(prefix.push(d).drop_last() =~= prefix);
        assert(prefix.push(d).last() == d);
        assert(bval(prefix.push(d), lo, w) == bval(prefix, lo, w) * w + (d - lo));
        let p = pow(w, (n - 1) as nat);
        lemma_pow_positive(w, (n - 1) as nat);
        lemma_pow_succ(w, (n - 1) as nat);
        assert(pow(w, n) == w * p);
        lemma_mod_breakdown(index, w, p);
        assert(index % (w * p) == w * ((index / w) % p) + index % w);
        lemma_mul_is_commutative((index / w) % p, w);
    }
}

/// Extracting the digits of a digit vector's own index value restores the
/// vector exactly.
pub proof fn lemma_index_digits_of_bval(s: Seq<u64>, lo: u64, hi: u64)
    requires
        lo < hi,
        digits_in_range(s, lo, hi),
    ensures
        index_digits(bval(s, lo, (hi - lo) as int), lo, (hi - lo) as int, s.len()) =~= s,
    decreases s.len(),
{
    let w: int = (hi - lo) as int;
    if s.len() != 0 {
        let v = bval(s, lo, w);
        assert(digits_in_range(s.drop_last(), lo, hi));
        lemma_bval_bounds(s.drop_last(), lo, hi);
        lemma_fundamental_div_mod_converse(v, w, bval(s.drop_last(), lo, w), s.last() - lo);
        assert(v / w == bval(s.drop_last(), lo, w));
        assert(v % w == s.last() - lo);
        lemma_index_digits_of_bval(s.drop_last(), lo, hi);
        assert(index_digits(v, lo, w, s.len()) == index_digits(v / w, lo, w, (s.len() - 1) as nat)
            .push((v % w + lo) as u64));
        assert((v % w + lo) as u64 == s.last());
        assert(s.drop_last().push(s.last()) =~= s);
    }
}

/// Index round trip: while width^n fits in 64 bits, converting a digit vector
/// to its index (which is what `to_index` computes, modulo 2^64) and
/// extracting the digits again (which is what `from_index` computes) is the
/// identity.
pub proof fn lemma_index_round_trip(s: Seq<u64>, lo: u64, hi: u64)
    requires
        lo < hi,
        digits_in_range(s, lo, hi),
        pow((hi - lo) as int, s.len()) <= 0x1_0000_0000_0000_0000,
    ensures
        index_digits(
            bval(s, lo, (hi - lo) as int) % 0x1_0000_0000_0000_0000,
            lo,
            (hi - lo) as int,
            s.len(),
        ) =~= s,
{
    lemma_bval_bounds(s, lo, hi);
    lemma_small_mod(bval(s, lo, (hi - lo) as int) as nat, 0x1_0000_0000_0000_0000);
    lemma_index_digits_of_bval(s, lo, hi);
}

/// An odometer over digit vectors of length `n` with digits drawn from
/// `[start, end)`.
pub struct RangeCounter {
    pub n: usize,
    pub start: u64,
    pub end: u64,
    pub counter: Vec<u64>,
}

impl RangeCounter {
    /// Well-formed: a nonempty range and `n` in-range digits.
    pub open spec fn wf(self) -> bool {
        &&& self.start < self.end
        &&& self.counter@.len() == self.n
        &&& digits_in_range(self.counter@, self.start, self.end)
    }

    /// The number of distinct digit values.
    pub open spec fn width(self) -> int {
        self.end - self.start
    }

    /// The odometer value of the current state.
    pub open spec fn value(self) -> int {
        cval(self.counter@, self.start, self.width())
    }

    /// The number of states: width^n.
    pub open spec fn space(self) -> int {
        pow(self.width(), self.n as nat)
    }

    /// A fresh counter: all digits at the low end of the range.
    pub fn new(start: u64, end: u64, n: usize) -> (c: RangeCounter)
        requires
            start < end,
        ensures
            c.wf(),
            c.n == n,
            c.start == start,
            c.end == end,
            forall|i: int| 0 <= i < n ==> c.counter@[i] == start,
            c.value() == 0,
    {
        let mut counter: Vec<u64> = Vec::new();
        let mut i: usize = 0;
        while i < n
            invariant
                0 <= i <= n,
                counter@.len() == i,
                forall|j: int| 0 <= j < i ==> counter@[j] == start,
            decreases n - i,
        {
            counter.push(start);
            i = i + 1;
        }
        let c = RangeCounter { n, start, end, counter };
        proof {
            lemma_cval_all_lo(c.counter@, start, c.width());
        }
        c
    }

    /// Advance the odometer by one.  Returns true exactly when the counter has
    /// completed a full cycle and is back at the all-low state: over a whole
    /// sweep of width^n calls, exhaustion is reported exactly once, at the end.
    pub fn next(&mut self) -> (wrapped: bool)
        requires
            old(self).wf(),
        ensures
            final(self).wf(),
            final(self).n == old(self).n,
            final(self).start == old(self).start,
            final(self).end == old(self).end,
            0 <= final(self).value() < final(self).space(),
            old(self).value() + 1 < old(self).space() ==> !wrapped && final(self).value() == old(
                self,
            ).value() + 1,
            old(self).value() + 1 == old(self).space() ==> wrapped && final(self).value() == 0,
            wrapped <==> old(self).value() + 1 == old(self).space(),
    {
        proof {
            lemma_cval_bounds(self.counter@, self.start, self.end);
        }
        let ghost w: int = self.width();
        if self.n == 0 {
            proof {
                vstd::arithmetic::power::lemma_pow0(w);
            }
            return true;
        }
        let v0 = self.counter[0];
        proof {
            lemma_cval_update(self.counter@, self.start, w, 0, (v0 + 1) as u64);
            vstd::arithmetic::power::lemma_pow0(w);
        }
        self.counter[0] = v0 + 1;
        let mut i: usize = 0;
        while i < self.n
            invariant
                self.n == old(self).n,
                self.start == old(self).start,
                self.end == old(self).end,
                self.start < self.end,
                w == self.width(),
                self.counter@.len() == self.n,
                0 <= i <= self.n,
                forall|j: int|
                    0 <= j < self.n && j != i ==> self.start <= #[trigger] self.counter@[j]
                        < self.end,
                i < self.n ==> self.start <= self.counter@[i as int] <= self.end,
                cval(self.counter@, self.start, w) == old(self).value() + 1,
                i < self.n && self.counter@[i as int] == self.end ==> forall|j: int|
                    0 <= j < i ==> self.counter@[j] == self.start,
            decreases self.n - i,
        {
            if self.counter[i] == self.end {
                proof {
                    lemma_cval_update(self.counter@, self.start, w, i as int, self.start);
                    lemma_pow_succ(w, i as nat);
                    assert(pow(w, (i + 1) as nat) == w * pow(w, i as nat));
                    assert((self.start - self.end) * pow(w, i as nat) == -(w * pow(w, i as nat)))
                        by (nonlinear_arith)
                        requires
                            w == self.end - self.start,
                    ;
                }
                self.counter[i] = self.start;
                if i + 1 < self.counter.len() {
                    let vi = self.counter[i + 1];
                    proof {
                        lemma_cval_update(self.counter@, self.start, w, i + 1, (vi + 1) as u64);
                        lemma_pow_succ(w, i as nat);
                        assert((vi + 1 - vi) * pow(w, (i + 1) as nat) == pow(w, (i + 1) as nat))
                            by (nonlinear_arith);
                    }
                    self.counter[i + 1] = vi + 1;
                } else {
                    proof {
                        assert(forall|j: int|
                            0 <= j < self.counter@.len() ==> self.counter@[j] == self.start);
                        lemma_cval_all_lo(self.counter@, self.start, w);
                        lemma_cval_bounds(self.counter@, self.start, self.end);
                    }
                    return true;
                }
            }
            i = i + 1;
        }
        proof {
            lemma_cval_bounds(self.counter@, self.start, self.end);
        }
        false
    }

    /// The index of the current state, most significant digit first, reduced
    /// modulo 2^64.
    pub fn to_index(&self) -> (index: u64)
        requires
            self.wf(),
        ensures
            index as int == bval(self.counter@, self.start, self.width())
                % 0x1_0000_0000_0000_0000,
    {
        broadcast use lemma_wrapping_add, lemma_wrapping_mul;

        let ghost w: int = self.width();
        let ghost m: int = 0x1_0000_0000_0000_0000;
        let base = self.end - self.start;
        let mut index: u64 = 0;
        let mut i: usize = 0;
        proof {
            lemma_small_mod(0, m as nat);
        }
        while i < self.n
            invariant
                self.wf(),
                w == self.width(),
                m == 0x1_0000_0000_0000_0000,
                base == self.end - self.start,
                0 <= i <= self.n,
                index as int == bval(self.counter@.take(i as int), self.start, w) % m,
            decreases self.n - i,
        {
            let ghost prefix = self.counter@.take(i as int);
            let ghost bv = bval(prefix, self.start, w);
            proof {
                assert(self.counter@.take(i + 1).drop_last() =~= prefix);
                assert(self.counter@.take(i + 1).last() == self.counter@[i as int]);
                lemma_mul_mod_noop_general(bv, w, m);
                lemma_add_mod_noop(bv * w, (self.counter@[i as int] - self.start) as int, m);
                lemma_small_mod((self.counter@[i as int] - self.start) as nat, m as nat);
            }
            index = index.wrapping_mul(base).wrapping_add(self.counter[i] - self.start);
            i = i + 1;
        }
        proof {
            assert(self.counter@.take(self.n as int) =~= self.counter@);
        }
        index
    }

    /// The digit vector of an index, most significant digit first: the exact
    /// inverse of `to_index` whenever width^n is at most 2^64.
    pub fn from_index(&self, index: u64) -> (result: Vec<u64>)
        requires
            self.wf(),
        ensures
            result@ =~= index_digits(index as int, self.start, self.width(), self.n as nat),
    {
        let ghost w: int = self.width();
        let ghost index0: int = index as int;
        let mut index = index;
        let base = self.end - self.start;
        let mut result: Vec<u64> = Vec::new();
        let mut k: usize = 0;
        while k < self.n
            invariant
                0 <= k <= self.n,
                result@.len() == k,
            decreases self.n - k,
        {
            result.push(0);
            k = k + 1;
        }
        let mut i: usize = self.n;
        while i > 0
            invariant
                self.wf(),
                w == self.width(),
                base == self.end - self.start,
                0 <= i <= self.n,
                result@.len() == self.n,
                index_digits(index as int, self.start, w, i as nat) + result@.skip(i as int)
                    =~= index_digits(index0, self.start, w, self.n as nat),
            decreases i,
        {
            i = i - 1;
            let d = index % base + self.start;
            proof {
                assert(0 <= (index as int) % w < w);
                assert(index_digits(index as int, self.start, w, (i + 1) as nat) == index_digits(
                    index as int / w,
                    self.start,
                    w,
                    i as nat,
                ).push(d));
                assert(result@.update(i as int, d).skip(i as int) =~= seq![d] + result@.skip(
                    i + 1,
                ));
                assert(index_digits(index as int / w, self.start, w, i as nat) + (seq![d]
                    + result@.skip(i + 1)) =~= (index_digits(index as int / w, self.start, w, i as nat)
                    .push(d)) + result@.skip(i + 1));
            }
            result[i] = d;
            index = index / base;
        }
        proof {
            assert(index_digits(index as int, self.start, w, 0) =~= Seq::<u64>::empty());
            assert(result@.skip(0) =~= result@);
            assert(Seq::<u64>::empty() + result@ =~= result@);
        }
        result
    }
}

} // verus!
