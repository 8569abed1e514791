//! The two accumulator hash models over tuples of `u64` values: the current
//! xxHash-derived scheme and the older 1000003-based scheme.  Each model has a
//! forward per-element step, an exact reverse step, and a length-dependent
//! finalisation; the reverse steps are what the preimage search is built on.
use vstd::prelude::*;

verus! {

use crate::arith::{
    addw, inv64, lemma_addw_subw, lemma_inv64, lemma_inverse_constants, lemma_mulw_cancel,
    lemma_mulw_distrib, lemma_rotate_round_trip, lemma_wrapping_add, lemma_wrapping_mul,
    lemma_wrapping_sub, lemma_xor_cancel, mulw, rot_left, rot_right, subw, PYHASH_XXROTATE,
    PYHASH_PARAM_OLD_1,
    PYHASH_PARAM_OLD_2, PYHASH_PARAM_OLD_3, PYHASH_PARAM_OLD_4, PYHASH_XXPRIME_1,
    PYHASH_XXPRIME_1_INV, PYHASH_XXPRIME_2, PYHASH_XXPRIME_2_INV, PYHASH_XXPRIME_5,
};

// ----------------------------------------------------------------------------
// Current (xxHash-style) model.
// ----------------------------------------------------------------------------
/// One forward accumulation step of the current model.
#[verifier::opaque]
pub open spec fn forward_step(acc: u64, e: u64) -> u64 {
    mulw(rot_left(addw(acc, mulw(e, PYHASH_XXPRIME_2))), PYHASH_XXPRIME_1)
}

/// The exact inverse of `forward_step` for a fixed element.
#[verifier::opaque]
pub open spec fn reverse_step(acc: u64, e: u64) -> u64 {
    subw(rot_right(mulw(acc, PYHASH_XXPRIME_1_INV)), mulw(e, PYHASH_XXPRIME_2))
}

/// Fold a sequence left-to-right through `forward_step`.
pub open spec fn forward_fold(acc: u64, s: Seq<u64>) -> u64
    decreases s.len(),
{
    if s.len() == 0 {
        acc
    } else {
        forward_fold(forward_step(acc, s[0]), s.drop_first())
    }
}

/// Undo the steps of a sequence right-to-left through `reverse_step`.
pub open spec fn reverse_fold(h: u64, s: Seq<u64>) -> u64
    decreases s.len(),
{
    if s.len() == 0 {
        h
    } else {
        reverse_step(reverse_fold(h, s.drop_first()), s[0])
    }
}

/// The length-dependent value added by finalisation.
pub open spec fn finalize_tweak(len: u64) -> u64 {
    len ^ PYHASH_XXPRIME_5 ^ 3527539
}

/// The current tuple hash of a sequence.
pub open spec fn modern_hash(s: Seq<u64>) -> u64 {
    addw(forward_fold(PYHASH_XXPRIME_5, s), finalize_tweak(s.len() as u64))
}

/// The forward and reverse steps of the current model are exact inverses.
pub proof fn lemma_step_round_trip(acc: u64, e: u64)
    ensures
        reverse_step(forward_step(acc, e), e) == acc,
        forward_step(reverse_step(acc, e), e) == acc,
{
    reveal(crate::hash::forward_step);
    reveal(crate::hash::reverse_step);
    lemma_inverse_constants();
    let ep = mulw(e, PYHASH_XXPRIME_2);
    assert(reverse_step(forward_step(acc, e), e) == acc) by {
        lemma_mulw_cancel(rot_left(addw(acc, ep)), PYHASH_XXPRIME_1, PYHASH_XXPRIME_1_INV);
        lemma_rotate_round_trip(addw(acc, ep));
        lemma_addw_subw(acc, ep);
    }
    assert(forward_step(reverse_step(acc, e), e) == acc) by {
        lemma_addw_subw(rot_right(mulw(acc, PYHASH_XXPRIME_1_INV)), ep);
        lemma_rotate_round_trip(mulw(acc, PYHASH_XXPRIME_1_INV));
        lemma_mulw_cancel(acc, PYHASH_XXPRIME_1, PYHASH_XXPRIME_1_INV);
    }
}

/// Folding a concatenation folds the pieces in order.
pub proof fn lemma_fold_concat(acc: u64, s: Seq<u64>, t: Seq<u64>)
    ensures
        forward_fold(acc, s + t) == forward_fold(forward_fold(acc, s), t),
    decreases s.len(),
{
    if s.len() == 0 {
        assert(s + t =~= t);
    } else {
        assert((s + t).drop_first() =~= s.drop_first() + t);
        lemma_fold_concat(forward_step(acc, s[0]), s.drop_first(), t);
    }
}

/// Folding one pushed element is one step.
pub proof fn lemma_fold_snoc(acc: u64, s: Seq<u64>, x: u64)
    ensures
        forward_fold(acc, s.push(x)) == forward_step(forward_fold(acc, s), x),
{
    assert(s.push(x) =~= s + seq![x]);
    lemma_fold_concat(acc, s, seq![x]);
    assert(seq![x].len() == 1 && seq![x][0] == x);
    assert(seq![x].drop_first() =~= Seq::<u64>::empty());
    let base = forward_fold(acc, s);
    assert(forward_fold(base, seq![x]) == forward_fold(forward_step(base, x), Seq::<u64>::empty()));
    assert(forward_fold(forward_step(base, x), Seq::<u64>::empty()) == forward_step(base, x));
}

/// Reverse-folding undoes forward-folding.
pub proof fn lemma_reverse_fold_inverse(acc: u64, s: Seq<u64>)
    ensures
        reverse_fold(forward_fold(acc, s), s) == acc,
    decreases s.len(),
{
    if s.len() != 0 {
        lemma_reverse_fold_inverse(forward_step(acc, s[0]), s.drop_first());
        lemma_step_round_trip(acc, s[0]);
    }
}

/// Forward-folding undoes reverse-folding.
pub proof fn lemma_forward_fold_inverse(h: u64, s: Seq<u64>)
    ensures
        forward_fold(reverse_fold(h, s), s) == h,
    decreases s.len(),
{
    if s.len() != 0 {
        lemma_forward_fold_inverse(h, s.drop_first());
        lemma_step_round_trip(reverse_fold(h, s.drop_first()), s[0]);
    }
}

/// The current tuple hash, computed exactly as CPython computes it.
pub fn tuple_hash(item: &Vec<u64>) -> (r: u64)
    ensures
        r == modern_hash(item@),
{
    broadcast use lemma_wrapping_mul, lemma_wrapping_add, lemma_wrapping_sub;

    let length = item.len() as u64;
    let mut acc = PYHASH_XXPRIME_5;
    let mut i: usize = 0;
    while i < item.len()
        invariant
            0 <= i <= item@.len(),
            acc == forward_fold(PYHASH_XXPRIME_5, item@.take(i as int)),
        decreases item@.len() - i,
    {
        proof {
            reveal(crate::hash::forward_step);
            lemma_fold_snoc(PYHASH_XXPRIME_5, item@.take(i as int), item@[i as int]);
            assert(item@.take(i as int).push(item@[i as int]) =~= item@.take(i + 1));
        }
        acc = acc.wrapping_add(item[i].wrapping_mul(PYHASH_XXPRIME_2));
        acc = PYHASH_XXROTATE(acc);
        acc = acc.wrapping_mul(PYHASH_XXPRIME_1);
        i = i + 1;
    }
    proof {
        assert(item@.take(item@.len() as int) =~= item@);
    }
    acc.wrapping_add(length ^ PYHASH_XXPRIME_5 ^ 3527539)
}

// ----------------------------------------------------------------------------
// Older (1000003-based) model.
// ----------------------------------------------------------------------------
/// Double a value modulo 2^64, written as a shift as the older scheme does.
pub open spec fn shl1(x: u64) -> u64 {
    x << 1
}

/// The multiplier update: after a step with `rem` elements still to come, the
/// multiplier grows by a fixed even amount.
pub open spec fn legacy_next_mult(mult: u64, rem: u64) -> u64 {
    addw(addw(mult, PYHASH_PARAM_OLD_3), shl1(rem))
}

/// The multiplier in force at position `i` of a tuple of length `len`.
pub open spec fn legacy_mult_at(len: u64, i: nat) -> u64
    decreases i,
{
    if i == 0 {
        PYHASH_PARAM_OLD_2
    } else {
        legacy_next_mult(legacy_mult_at(len, (i - 1) as nat), subw(len, i as u64))
    }
}

/// One forward step of the older model.
#[verifier::opaque]
pub open spec fn legacy_step(acc: u64, e: u64, mult: u64) -> u64 {
    mulw(acc ^ e, mult)
}

/// Its exact inverse for a fixed element and (odd) multiplier.
#[verifier::opaque]
pub open spec fn legacy_rev_step(acc: u64, e: u64, mult: u64) -> u64 {
    mulw(acc, inv64(mult)) ^ e
}

/// Fold a sequence that starts at position `pos` of a tuple of length `len`.
pub open spec fn legacy_fold_at(acc: u64, len: u64, pos: nat, s: Seq<u64>) -> u64
    decreases s.len(),
{
    if s.len() == 0 {
        acc
    } else {
        legacy_fold_at(legacy_step(acc, s[0], legacy_mult_at(len, pos)), len, pos + 1, s.drop_first())
    }
}

/// Undo, right-to-left, the steps of a sequence starting at position `pos`.
pub open spec fn legacy_rev_fold_at(h: u64, len: u64, pos: nat, s: Seq<u64>) -> u64
    decreases s.len(),
{
    if s.len() == 0 {
        h
    } else {
        legacy_rev_step(legacy_rev_fold_at(h, len, pos + 1, s.drop_first()), s[0], legacy_mult_at(len, pos))
    }
}

/// The older tuple hash of a sequence.
pub open spec fn legacy_hash(s: Seq<u64>) -> u64 {
    addw(legacy_fold_at(PYHASH_PARAM_OLD_1, s.len() as u64, 0, s), PYHASH_PARAM_OLD_4)
}

/// Doubling always yields an even value.
pub proof fn lemma_shl1_even(x: u64)
    by (bit_vector)
    ensures
        shl1(x) % 2 == 0,
{
}

/// Wrapping addition preserves parity of the exact sum.
pub proof fn lemma_addw_parity(x: u64, y: u64)
    ensures
        addw(x, y) % 2 == (x + y) % 2,
{
    let m: int = 0x1_0000_0000_0000_0000;
    vstd::arithmetic::div_mod::lemma_mod_mod(x + y, 2, 0x8000_0000_0000_0000);
}

/// Every multiplier the older model uses is odd, hence invertible.
pub proof fn lemma_mult_at_odd(len: u64, i: nat)
    ensures
        legacy_mult_at(len, i) % 2 == 1,
    decreases i,
{
    if i != 0 {
        lemma_mult_at_odd(len, (i - 1) as nat);
        let prev = legacy_mult_at(len, (i - 1) as nat);
        let rem = subw(len, i as u64);
        lemma_shl1_even(rem);
        lemma_addw_parity(prev, PYHASH_PARAM_OLD_3);
        lemma_addw_parity(addw(prev, PYHASH_PARAM_OLD_3), shl1(rem));
        vstd::arithmetic::div_mod::lemma_add_mod_noop(prev as int, PYHASH_PARAM_OLD_3 as int, 2);
        vstd::arithmetic::div_mod::lemma_add_mod_noop(
            addw(prev, PYHASH_PARAM_OLD_3) as int,
            shl1(rem) as int,
            2,
        );
    }
}

/// The forward and reverse steps of the older model are exact inverses for any
/// odd multiplier.
pub proof fn lemma_legacy_step_round_trip(acc: u64, e: u64, mult: u64)
    requires
        mult % 2 == 1,
    ensures
        legacy_rev_step(legacy_step(acc, e, mult), e, mult) == acc,
        legacy_step(legacy_rev_step(acc, e, mult), e, mult) == acc,
{
    reveal(crate::hash::legacy_step);
    reveal(crate::hash::legacy_rev_step);
    lemma_inv64(mult);
    assert(legacy_rev_step(legacy_step(acc, e, mult), e, mult) == acc) by {
        lemma_mulw_cancel(acc ^ e, mult, inv64(mult));
        lemma_xor_cancel(acc, e);
    }
    assert(legacy_step(legacy_rev_step(acc, e, mult), e, mult) == acc) by {
        lemma_xor_cancel(mulw(acc, inv64(mult)), e);
        lemma_mulw_cancel(acc, mult, inv64(mult));
    }
}

/// Folding a concatenation folds the pieces in order, positions advancing.
pub proof fn lemma_legacy_fold_concat(acc: u64, len: u64, pos: nat, s: Seq<u64>, t: Seq<u64>)
    ensures
        legacy_fold_at(acc, len, pos, s + t) == legacy_fold_at(
            legacy_fold_at(acc, len, pos, s),
            len,
            pos + s.len(),
            t,
        ),
    decreases s.len(),
{
    if s.len() == 0 {
        assert(s + t =~= t);
    } else {
        assert((s + t).drop_first() =~= s.drop_first() + t);
        lemma_legacy_fold_concat(
            legacy_step(acc, s[0], legacy_mult_at(len, pos)),
            len,
            pos + 1,
            s.drop_first(),
            t,
        );
    }
}

/// Folding one pushed element is one step.
pub proof fn lemma_legacy_fold_snoc(acc: u64, len: u64, pos: nat, s: Seq<u64>, x: u64)
    ensures
        legacy_fold_at(acc, len, pos, s.push(x)) == legacy_step(
            legacy_fold_at(acc, len, pos, s),
            x,
            legacy_mult_at(len, pos + s.len()),
        ),
{
    assert(s.push(x) =~= s + seq![x]);
    lemma_legacy_fold_concat(acc, len, pos, s, seq![x]);
    assert(seq![x].len() == 1 && seq![x][0] == x);
    assert(seq![x].drop_first() =~= Seq::<u64>::empty());
    let base = legacy_fold_at(acc, len, pos, s);
    let stepped = legacy_step(base, x, legacy_mult_at(len, pos + s.len()));
    assert(legacy_fold_at(base, len, pos + s.len(), seq![x]) == legacy_fold_at(
        stepped,
        len,
        pos + s.len() + 1,
        Seq::<u64>::empty(),
    ));
    assert(legacy_fold_at(stepped, len, pos + s.len() + 1, Seq::<u64>::empty()) == stepped);
}

/// Reverse-folding undoes forward-folding.
pub proof fn lemma_legacy_reverse_fold_inverse(acc: u64, len: u64, pos: nat, s: Seq<u64>)
    ensures
        legacy_rev_fold_at(legacy_fold_at(acc, len, pos, s), len, pos, s) == acc,
    decreases s.len(),
{
    if s.len() != 0 {
        lemma_legacy_reverse_fold_inverse(
            legacy_step(acc, s[0], legacy_mult_at(len, pos)),
            len,
            pos + 1,
            s.drop_first(),
        );
        lemma_mult_at_odd(len, pos);
        lemma_legacy_step_round_trip(acc, s[0], legacy_mult_at(len, pos));
    }
}

/// Forward-folding undoes reverse-folding.
pub proof fn lemma_legacy_forward_fold_inverse(h: u64, len: u64, pos: nat, s: Seq<u64>)
    ensures
        legacy_fold_at(legacy_rev_fold_at(h, len, pos, s), len, pos, s) == h,
    decreases s.len(),
{
    if s.len() != 0 {
        lemma_legacy_forward_fold_inverse(h, len, pos + 1, s.drop_first());
        lemma_mult_at_odd(len, pos);
        lemma_legacy_step_round_trip(
            legacy_rev_fold_at(h, len, pos + 1, s.drop_first()),
            s[0],
            legacy_mult_at(len, pos),
        );
    }
}

/// Adding two plain values onto a value known modulo 2^64.
pub proof fn lemma_addw_three_pub(total: int, a: u64, b: u64, c: u64)
    requires
        a as int == total % 0x1_0000_0000_0000_0000,
    ensures
        addw(addw(a, b), c) as int == (total + b + c) % 0x1_0000_0000_0000_0000,
{
    let m: int = 0x1_0000_0000_0000_0000;
    assert(addw(a, b) as int == (total + b) % m) by {
        vstd::arithmetic::div_mod::lemma_add_mod_noop(total, b as int, m);
        vstd::arithmetic::div_mod::lemma_small_mod(b as nat, m as nat);
    }
    assert(addw(addw(a, b), c) as int == (total + b + c) % m) by {
        vstd::arithmetic::div_mod::lemma_add_mod_noop(total + b, c as int, m);
        vstd::arithmetic::div_mod::lemma_small_mod(c as nat, m as nat);
    }
}

/// Closed form of the multiplier sequence: the multiplier at position `i` is
/// `P2 + i*P3 + 2*i*len - i*(i+1)` modulo 2^64.
pub proof fn lemma_mult_at_closed(len: u64, i: u64)
    requires
        i <= len,
    ensures
        legacy_mult_at(len, i as nat) as int == (PYHASH_PARAM_OLD_2 + i * PYHASH_PARAM_OLD_3 + 2
            * i * len - i * (i + 1)) % 0x1_0000_0000_0000_0000,
    decreases i,
{
    let m: int = 0x1_0000_0000_0000_0000;
    let p2: int = PYHASH_PARAM_OLD_2 as int;
    let p3: int = PYHASH_PARAM_OLD_3 as int;
    let ii: int = i as int;
    let ll: int = len as int;
    if i == 0 {
        assert(p2 % m == p2) by {
            vstd::arithmetic::div_mod::lemma_small_mod(PYHASH_PARAM_OLD_2 as nat, m as nat);
        }
        assert(legacy_mult_at(len, i as nat) == PYHASH_PARAM_OLD_2);
        assert((PYHASH_PARAM_OLD_2 + i * PYHASH_PARAM_OLD_3 + 2 * i * len - i * (i + 1)) == p2);
    } else {
        let h = (i - 1) as u64;
        let hh: int = h as int;
        lemma_mult_at_closed(len, h);
        let prev = legacy_mult_at(len, h as nat);
        let rem = subw(len, i);
        let closed_prev: int = p2 + hh * p3 + 2 * hh * ll - hh * (hh + 1);
        let closed_i: int = p2 + ii * p3 + 2 * ii * ll - ii * (ii + 1);
        assert(rem == len - i) by {
            vstd::arithmetic::div_mod::lemma_small_mod((len - i) as nat, m as nat);
        }
        assert(shl1(rem) == mulw(rem, 2)) by (bit_vector);
        assert(legacy_mult_at(len, i as nat) == addw(addw(prev, PYHASH_PARAM_OLD_3), shl1(rem)));
        lemma_addw_three_pub(closed_prev, prev, PYHASH_PARAM_OLD_3, shl1(rem));
        assert(shl1(rem) as int == (2 * (ll - ii)) % m);
        assert((closed_prev + p3 + ((2 * (ll - ii)) % m)) % m == (closed_prev + p3 + 2 * (ll - ii))
            % m) by {
            vstd::arithmetic::div_mod::lemma_add_mod_noop_right(closed_prev + p3, 2 * (ll - ii), m);
        }
        assert(closed_prev + p3 + 2 * (ll - ii) == closed_i) by (nonlinear_arith)
            requires
                closed_prev == p2 + hh * p3 + 2 * hh * ll - hh * (hh + 1),
                closed_i == p2 + ii * p3 + 2 * ii * ll - ii * (ii + 1),
                hh == ii - 1,
        ;
        assert(legacy_mult_at(len, i as nat) as int == (closed_prev + p3 + shl1(rem) as int) % m);
        assert((closed_prev + p3 + shl1(rem) as int) % m == (closed_prev + p3 + 2 * (ll - ii))
            % m);
        assert(legacy_mult_at(len, i as nat) as int == closed_i % m);
        assert(closed_i == (PYHASH_PARAM_OLD_2 + i * PYHASH_PARAM_OLD_3 + 2 * i * len - i * (i
            + 1)));
    }
}

/// The older tuple hash, computed exactly as CPython computed it.
pub fn tuple_hash_old(item: &Vec<u64>) -> (r: u64)
    ensures
        r == legacy_hash(item@),
{
    broadcast use lemma_wrapping_mul, lemma_wrapping_add, lemma_wrapping_sub;

    let total = item.len() as u64;
    let mut length = total;
    let mut acc = PYHASH_PARAM_OLD_1;
    let mut mult = PYHASH_PARAM_OLD_2;
    let mut i: usize = 0;
    while i < item.len()
        invariant
            0 <= i <= item@.len(),
            total == item@.len() as u64,
            length == subw(total, i as u64),
            acc == legacy_fold_at(PYHASH_PARAM_OLD_1, total, 0, item@.take(i as int)),
            mult == legacy_mult_at(total, i as nat),
        decreases item@.len() - i,
    {
        proof {
            reveal(crate::hash::legacy_step);
            lemma_legacy_fold_snoc(
                PYHASH_PARAM_OLD_1,
                total,
                0,
                item@.take(i as int),
                item@[i as int],
            );
            assert(item@.take(i as int).push(item@[i as int]) =~= item@.take(i + 1));
            broadcast use lemma_wrapping_sub;

        }
        length = length.wrapping_sub(1);
        proof {
            // length is now len - (i + 1) modulo 2^64.
            assert(subw(subw(total, i as u64), 1) == subw(total, (i + 1) as u64)) by {
                let m: int = 0x1_0000_0000_0000_0000;
                vstd::arithmetic::div_mod::lemma_sub_mod_noop(total - i, 1, m);
                vstd::arithmetic::div_mod::lemma_mod_mod(1, m, 1);
                vstd::arithmetic::div_mod::lemma_small_mod(1, m as nat);
            }
        }
        acc = (acc ^ item[i]).wrapping_mul(mult);
        mult = mult.wrapping_add(PYHASH_PARAM_OLD_3).wrapping_add(length << 1);
        i = i + 1;
    }
    proof {
        assert(item@.take(item@.len() as int) =~= item@);
    }
    acc.wrapping_add(PYHASH_PARAM_OLD_4)
}

// ----------------------------------------------------------------------------
// Lane values and the meet-in-the-middle identities.
// ----------------------------------------------------------------------------
/// The normalised partial-hash contribution of a tuple prefix (current model).
pub open spec fn prefix_lane(p: Seq<u64>) -> u64 {
    mulw(forward_fold(PYHASH_XXPRIME_5, p), PYHASH_XXPRIME_2_INV)
}

/// The normalised contribution of a tuple suffix, walked back from the
/// definalised target hash, with the step of the not-yet-known middle element
/// stripped (current model).
pub open spec fn suffix_lane(hash_last: u64, s: Seq<u64>) -> u64 {
    mulw(rot_right(mulw(reverse_fold(hash_last, s), PYHASH_XXPRIME_1_INV)), PYHASH_XXPRIME_2_INV)
}

/// Definalisation: a sequence hashes to `hash` exactly when its fold reaches
/// the definalised target.
pub proof fn lemma_definalize(s: Seq<u64>, hash: u64)
    ensures
        modern_hash(s) == hash <==> forward_fold(PYHASH_XXPRIME_5, s) == subw(
            hash,
            finalize_tweak(s.len() as u64),
        ),
{
    let tw = finalize_tweak(s.len() as u64);
    lemma_addw_subw(forward_fold(PYHASH_XXPRIME_5, s), tw);
    lemma_addw_subw(hash, tw);
    crate::arith::lemma_addw_comm(subw(hash, tw), tw);
}

/// The meet-in-the-middle identity of the current model: `p + [mid] + s`
/// folds to `hash_last` exactly when `mid` is the wrapping difference of the
/// suffix lane and the prefix lane.
pub proof fn lemma_lane_meet(hash_last: u64, p: Seq<u64>, s: Seq<u64>, mid: u64)
    ensures
        forward_fold(PYHASH_XXPRIME_5, p + seq![mid] + s) == hash_last <==> mid == subw(
            suffix_lane(hash_last, s),
            prefix_lane(p),
        ),
{
    reveal(crate::hash::forward_step);
    reveal(crate::hash::reverse_step);
    lemma_inverse_constants();
    let a = forward_fold(PYHASH_XXPRIME_5, p);
    let f = prefix_lane(p);
    let b = reverse_fold(hash_last, s);
    let c = rot_right(mulw(b, PYHASH_XXPRIME_1_INV));
    let sv = suffix_lane(hash_last, s);
    let mp = mulw(mid, PYHASH_XXPRIME_2);
    lemma_fold_concat(PYHASH_XXPRIME_5, p + seq![mid], s);
    lemma_fold_snoc(PYHASH_XXPRIME_5, p, mid);
    assert(p + seq![mid] =~= p.push(mid));
    assert(forward_fold(PYHASH_XXPRIME_5, p + seq![mid] + s) == forward_fold(
        forward_step(a, mid),
        s,
    ));
    if mid == subw(sv, f) {
        lemma_mulw_distrib(sv, f, PYHASH_XXPRIME_2);
        lemma_mulw_cancel(c, PYHASH_XXPRIME_2_INV, PYHASH_XXPRIME_2);
        lemma_mulw_cancel(a, PYHASH_XXPRIME_2_INV, PYHASH_XXPRIME_2);
        assert(mp == subw(c, a));
        lemma_addw_subw(c, a);
        crate::arith::lemma_addw_comm(subw(c, a), a);
        assert(addw(a, mp) == c);
        lemma_rotate_round_trip(mulw(b, PYHASH_XXPRIME_1_INV));
        lemma_mulw_cancel(b, PYHASH_XXPRIME_1_INV, PYHASH_XXPRIME_1);
        assert(forward_step(a, mid) == b);
        lemma_forward_fold_inverse(hash_last, s);
    }
    if forward_fold(PYHASH_XXPRIME_5, p + seq![mid] + s) == hash_last {
        lemma_reverse_fold_inverse(forward_step(a, mid), s);
        assert(b == forward_step(a, mid));
        let u = addw(a, mp);
        lemma_mulw_cancel(rot_left(u), PYHASH_XXPRIME_1, PYHASH_XXPRIME_1_INV);
        lemma_rotate_round_trip(u);
        assert(c == u);
        lemma_mulw_distrib(a, mp, PYHASH_XXPRIME_2_INV);
        assert(mulw(addw(a, mp), PYHASH_XXPRIME_2_INV) == addw(f, mulw(mp, PYHASH_XXPRIME_2_INV)));
        lemma_mulw_cancel(mid, PYHASH_XXPRIME_2, PYHASH_XXPRIME_2_INV);
        assert(sv == addw(f, mid));
        crate::arith::lemma_addw_comm(f, mid);
        lemma_addw_subw(mid, f);
        assert(subw(sv, f) == mid);
    }
}

/// The prefix lane of the older model: the plain accumulator after the prefix.
pub open spec fn prefix_lane_old(p: Seq<u64>, len: u64) -> u64 {
    legacy_fold_at(PYHASH_PARAM_OLD_1, len, 0, p)
}

/// The suffix lane of the older model: the accumulator walked back through the
/// suffix and through the multiplication of the middle position.
pub open spec fn suffix_lane_old(hash_last: u64, s: Seq<u64>, len: u64, pos: nat) -> u64 {
    mulw(legacy_rev_fold_at(hash_last, len, pos + 1, s), inv64(legacy_mult_at(len, pos)))
}

/// Definalisation of the older model.
pub proof fn lemma_definalize_old(s: Seq<u64>, hash: u64)
    ensures
        legacy_hash(s) == hash <==> legacy_fold_at(PYHASH_PARAM_OLD_1, s.len() as u64, 0, s)
            == subw(hash, PYHASH_PARAM_OLD_4),
{
    lemma_addw_subw(legacy_fold_at(PYHASH_PARAM_OLD_1, s.len() as u64, 0, s), PYHASH_PARAM_OLD_4);
    lemma_addw_subw(hash, PYHASH_PARAM_OLD_4);
    crate::arith::lemma_addw_comm(subw(hash, PYHASH_PARAM_OLD_4), PYHASH_PARAM_OLD_4);
}

/// The meet-in-the-middle identity of the older model: here the middle element
/// is the exclusive-or of the two lanes.
pub proof fn lemma_lane_meet_old(hash_last: u64, p: Seq<u64>, s: Seq<u64>, mid: u64, len: u64)
    requires
        len as int == p.len() + 1 + s.len(),
    ensures
        legacy_fold_at(PYHASH_PARAM_OLD_1, len, 0, p + seq![mid] + s) == hash_last <==> mid == (
        suffix_lane_old(hash_last, s, len, p.len()) ^ prefix_lane_old(p, len)),
{
    reveal(crate::hash::legacy_step);
    reveal(crate::hash::legacy_rev_step);
    let pos = p.len();
    let mult = legacy_mult_at(len, pos);
    lemma_mult_at_odd(len, pos);
    lemma_inv64(mult);
    let a = prefix_lane_old(p, len);
    let b = legacy_rev_fold_at(hash_last, len, pos + 1, s);
    let sv = suffix_lane_old(hash_last, s, len, pos);
    lemma_legacy_fold_concat(PYHASH_PARAM_OLD_1, len, 0, p + seq![mid], s);
    lemma_legacy_fold_snoc(PYHASH_PARAM_OLD_1, len, 0, p, mid);
    assert(p + seq![mid] =~= p.push(mid));
    assert(legacy_fold_at(PYHASH_PARAM_OLD_1, len, 0, p + seq![mid] + s) == legacy_fold_at(
        legacy_step(a, mid, mult),
        len,
        pos + 1,
        s,
    ));
    if mid == (sv ^ a) {
        lemma_xor_cancel(a, sv);
        assert((a ^ mid) == sv);
        lemma_mulw_cancel(b, mult, inv64(mult));
        assert(legacy_step(a, mid, mult) == b);
        lemma_legacy_forward_fold_inverse(hash_last, len, pos + 1, s);
    }
    if legacy_fold_at(PYHASH_PARAM_OLD_1, len, 0, p + seq![mid] + s) == hash_last {
        lemma_legacy_reverse_fold_inverse(legacy_step(a, mid, mult), len, pos + 1, s);
        assert(b == legacy_step(a, mid, mult));
        lemma_mulw_cancel(a ^ mid, mult, inv64(mult));
        assert(sv == (a ^ mid));
        lemma_xor_cancel(a, mid);
    }
}


/// The lanes of the current model combine by wrapping addition: for any split
/// of a tuple that hashes to `hash`, the suffix lane equals the prefix lane
/// plus the middle element, modulo 2^64.
pub proof fn lemma_lanes_combine(t: Seq<u64>, split: int, hash: u64)
    requires
        0 <= split < t.len(),
        modern_hash(t) == hash,
    ensures
        suffix_lane(subw(hash, finalize_tweak(t.len() as u64)), t.skip(split + 1)) == addw(
            prefix_lane(t.take(split)),
            t[split],
        ),
{
    let hl = subw(hash, finalize_tweak(t.len() as u64));
    let p = t.take(split);
    let m = t[split];
    let s = t.skip(split + 1);
    lemma_definalize(t, hash);
    assert(t =~= p + seq![m] + s);
    lemma_lane_meet(hl, p, s, m);
    let sv = suffix_lane(hl, s);
    let f = prefix_lane(p);
    assert(m == subw(sv, f));
    lemma_addw_subw(sv, f);
    crate::arith::lemma_addw_comm(subw(sv, f), f);
    assert(addw(f, m) == sv);
}

/// The lanes of the older model combine by exclusive-or: for any split of a
/// tuple that hashes to `hash`, the suffix lane equals the prefix lane xor
/// the middle element.
pub proof fn lemma_legacy_lanes_combine(t: Seq<u64>, split: int, hash: u64)
    requires
        0 <= split < t.len(),
        t.len() <= u64::MAX,
        legacy_hash(t) == hash,
    ensures
        suffix_lane_old(
            subw(hash, PYHASH_PARAM_OLD_4),
            t.skip(split + 1),
            t.len() as u64,
            split as nat,
        ) == (prefix_lane_old(t.take(split), t.len() as u64) ^ t[split]),
{
    let lenu = t.len() as u64;
    let hl = subw(hash, PYHASH_PARAM_OLD_4);
    let p = t.take(split);
    let m = t[split];
    let s = t.skip(split + 1);
    lemma_definalize_old(t, hash);
    assert(t =~= p + seq![m] + s);
    lemma_lane_meet_old(hl, p, s, m, lenu);
    let sv = suffix_lane_old(hl, s, lenu, split as nat);
    let f = prefix_lane_old(p, lenu);
    assert(m == (sv ^ f));
    lemma_xor_cancel(f, sv);
    assert((f ^ m) == sv);
}

} // verus!
