//! The meet-in-the-middle preimage search: build a table of suffix lanes,
//! sort and chunk-index it, sweep the prefixes and probe the table, and
//! reconstruct full tuples from each hit.  For tuples of length 2 the split
//! degenerates and a direct one-to-one enumerator is used instead.
use vstd::prelude::*;

verus! {

use vstd::arithmetic::power::pow;
use crate::arith::{
    addw, inverse_mod, lemma_addw_subw, lemma_inv64_unique, lemma_inverse_constants,
    lemma_mulw_distrib, lemma_subw_sub, lemma_wrapping_add, lemma_wrapping_mul,
    lemma_wrapping_sub, mulw, subw, PYHASH_PARAM_OLD_1, PYHASH_PARAM_OLD_2,
    PYHASH_PARAM_OLD_2_INV, PYHASH_PARAM_OLD_3, PYHASH_PARAM_OLD_4, PYHASH_PARAM_OLD_MULT_INV,
    PYHASH_XXPRIME_1_INV, PYHASH_XXPRIME_2, PYHASH_XXPRIME_2_INV, PYHASH_XXPRIME_5,
    PYHASH_XXROTATE_REV,
};
use crate::counter::{
    bval, cval, digits_in_range, index_digits, lemma_bval_bounds, lemma_cval_bounds,
    lemma_cval_unique, lemma_index_digits_of_bval, lemma_index_round_trip, RangeCounter,
};
use crate::hash::{
    forward_fold, forward_step, legacy_fold_at, legacy_hash, legacy_mult_at, legacy_rev_fold_at,
    legacy_rev_step, legacy_step, lemma_definalize, lemma_definalize_old, lemma_fold_snoc,
    lemma_lane_meet, lemma_lane_meet_old, lemma_legacy_fold_snoc, lemma_mult_at_closed,
    lemma_mult_at_odd, modern_hash, prefix_lane, prefix_lane_old, reverse_fold, reverse_step,
    shl1, suffix_lane, suffix_lane_old,
};
use crate::table::{
    chunk_index_ok, chunk_map_of, in_window, lemma_window_mid, prev_pow2_log, probe_window,
    probe_window_old, sort_table, to_chunk, table_sorted,
};
use vstd::arithmetic::power2::pow2;

/// A sequence of result tuples contains a given tuple.
pub open spec fn result_contains(res: Seq<Vec<u64>>, t: Seq<u64>) -> bool {
    exists|k: int| 0 <= k < res.len() && #[trigger] res[k]@ == t
}

/// A tuple folds to the definalised target and fits the configured shape.
pub open spec fn valid_result(t: Seq<u64>, length: int, lo: u64, hi: u64, hash_last: u64) -> bool {
    t.len() == length && digits_in_range(t, lo, hi) && forward_fold(PYHASH_XXPRIME_5, t)
        == hash_last
}

/// A tuple is a preimage of the target hash under the current model.
pub open spec fn is_preimage(t: Seq<u64>, length: int, lo: u64, hi: u64, hash: u64) -> bool {
    t.len() == length && digits_in_range(t, lo, hi) && modern_hash(t) == hash
}

/// Growing the result list keeps everything it already contained.
proof fn lemma_result_grows(r1: Seq<Vec<u64>>, r2: Seq<Vec<u64>>, t: Seq<u64>)
    requires
        r1.len() <= r2.len(),
        forall|k: int| 0 <= k < r1.len() ==> r2[k] == r1[k],
        result_contains(r1, t),
    ensures
        result_contains(r2, t),
{
    let k = choose|k: int| 0 <= k < r1.len() && #[trigger] r1[k]@ == t;
    assert(r2[k]@ == t);
}

/// The rejected configurations: an empty element range, an empty table, or a
/// tuple length the split cannot handle.
pub enum ConfigError {
    EmptyRange,
    ZeroTableSize,
    LengthTooShort,
}

/// Validate a search configuration before any work starts: rejects exactly
/// the configurations the search's preconditions exclude.
pub fn validate_config(length: usize, start: u64, end: u64, table_size: usize) -> (r: Result<
    (),
    ConfigError,
>)
    ensures
        r is Ok <==> (length >= 2 && start < end && table_size >= 1),
        r == Err::<(), ConfigError>(ConfigError::EmptyRange) <==> start >= end,
        r == Err::<(), ConfigError>(ConfigError::ZeroTableSize) <==> (start < end && table_size
            == 0),
        r == Err::<(), ConfigError>(ConfigError::LengthTooShort) <==> (start < end && table_size
            >= 1 && length < 2),
{
    if start >= end {
        Err(ConfigError::EmptyRange)
    } else if table_size == 0 {
        Err(ConfigError::ZeroTableSize)
    } else if length < 2 {
        Err(ConfigError::LengthTooShort)
    } else {
        Ok(())
    }
}

/// The prefix lane of the current model: fold the prefix digits forward, then
/// normalise by the inverse of the second prime.
pub fn middle_lane_from_first(first_counter: &RangeCounter) -> (r: u64)
    ensures
        r == prefix_lane(first_counter.counter@),
{
    broadcast use lemma_wrapping_mul, lemma_wrapping_add;

    let mut acc = PYHASH_XXPRIME_5;
    let mut i: usize = 0;
    while i < first_counter.counter.len()
        invariant
            0 <= i <= first_counter.counter@.len(),
            acc == forward_fold(PYHASH_XXPRIME_5, first_counter.counter@.take(i as int)),
        decreases first_counter.counter@.len() - i,
    {
        proof {
            reveal(crate::hash::forward_step);
            lemma_fold_snoc(
                PYHASH_XXPRIME_5,
                first_counter.counter@.take(i as int),
                first_counter.counter@[i as int],
            );
            assert(first_counter.counter@.take(i as int).push(first_counter.counter@[i as int])
                =~= first_counter.counter@.take(i + 1));
        }
        acc = acc.wrapping_add(first_counter.counter[i].wrapping_mul(PYHASH_XXPRIME_2));
        acc = crate::arith::PYHASH_XXROTATE(acc);
        acc = acc.wrapping_mul(crate::arith::PYHASH_XXPRIME_1);
        i = i + 1;
    }
    proof {
        assert(first_counter.counter@.take(first_counter.counter@.len() as int)
            =~= first_counter.counter@);
    }
    acc.wrapping_mul(PYHASH_XXPRIME_2_INV)
}

/// The suffix lane of the current model: walk the suffix digits back from the
/// definalised target, then strip the step of the unknown middle element.
pub fn middle_lane_from_second(hash_last: u64, second_counter: &RangeCounter) -> (r: u64)
    ensures
        r == suffix_lane(hash_last, second_counter.counter@),
{
    broadcast use lemma_wrapping_mul, lemma_wrapping_sub;

    let s = &second_counter.counter;
    let mut acc = hash_last;
    let mut i: usize = s.len();
    while i > 0
        invariant
            0 <= i <= s@.len(),
            acc == reverse_fold(hash_last, s@.skip(i as int)),
        decreases i,
    {
        proof {
            reveal(crate::hash::reverse_step);
            assert(s@.skip(i - 1).drop_first() =~= s@.skip(i as int));
            assert(s@.skip(i - 1)[0] == s@[i - 1]);
        }
        i = i - 1;
        acc = acc.wrapping_mul(PYHASH_XXPRIME_1_INV);
        acc = PYHASH_XXROTATE_REV(acc);
        acc = acc.wrapping_sub(s[i].wrapping_mul(PYHASH_XXPRIME_2));
    }
    proof {
        assert(s@.skip(0) =~= s@);
    }
    acc = acc.wrapping_mul(PYHASH_XXPRIME_1_INV);
    acc = PYHASH_XXROTATE_REV(acc);
    acc.wrapping_mul(PYHASH_XXPRIME_2_INV)
}

/// The unique first element that pairs with a given last element `i` to
/// fold to `hash_last`: both steps are inverted and the initial accumulator
/// constant is stripped.
fn l2_partner(hash_last: u64, i: u64) -> (lane: u64)
    ensures
        forall|a: u64| (forward_fold(PYHASH_XXPRIME_5, seq![a, i]) == hash_last) <==> (a == lane),
{
    broadcast use lemma_wrapping_mul, lemma_wrapping_sub;

    let mut acc = hash_last;
    acc = acc.wrapping_mul(PYHASH_XXPRIME_1_INV);
    acc = PYHASH_XXROTATE_REV(acc);
    acc = acc.wrapping_sub(i.wrapping_mul(PYHASH_XXPRIME_2));
    proof {
        reveal(crate::hash::reverse_step);
        assert(seq![i].len() == 1 && seq![i][0] == i);
        assert(seq![i].drop_first() =~= Seq::<u64>::empty());
        assert(reverse_fold(hash_last, Seq::<u64>::empty()) == hash_last);
        assert(reverse_fold(hash_last, seq![i]) == reverse_step(hash_last, i));
        assert(acc == reverse_step(hash_last, i));
    }
    acc = acc.wrapping_mul(PYHASH_XXPRIME_1_INV);
    acc = PYHASH_XXROTATE_REV(acc);
    let lane = acc.wrapping_sub(PYHASH_XXPRIME_5).wrapping_mul(PYHASH_XXPRIME_2_INV);
    proof {
        let c = crate::arith::rot_right(mulw(reverse_step(hash_last, i), PYHASH_XXPRIME_1_INV));
        lemma_mulw_distrib(c, PYHASH_XXPRIME_5, PYHASH_XXPRIME_2_INV);
        assert(forward_fold(PYHASH_XXPRIME_5, Seq::<u64>::empty()) == PYHASH_XXPRIME_5);
        assert(lane == subw(suffix_lane(hash_last, seq![i]), prefix_lane(Seq::<u64>::empty())));
        assert forall|a: u64| (forward_fold(PYHASH_XXPRIME_5, seq![a, i]) == hash_last) <==> (a
            == lane) by {
            lemma_lane_meet(hash_last, Seq::<u64>::empty(), seq![i], a);
            assert(Seq::<u64>::empty() + seq![a] + seq![i] =~= seq![a, i]);
        }
    }
    lane
}

/// Solve for tuples of length 2 directly: for each candidate last element,
/// the first element is uniquely determined by inverting both steps.
pub fn tuple_unhash_length_2(hash_last: u64, start: u64, end: u64, number: usize) -> (res: Vec<
    Vec<u64>,
>)
    requires
        start < end,
    ensures
        forall|k: int|
            0 <= k < res@.len() ==> valid_result(#[trigger] res@[k]@, 2, start, end, hash_last),
        number != 0 ==> res@.len() <= number,
        forall|t: Seq<u64>|
            (valid_result(t, 2, start, end, hash_last) && (res@.len() < number || number == 0))
                ==> #[trigger] result_contains(res@, t),
        forall|k1: int, k2: int|
            0 <= k1 < k2 < res@.len() ==> (#[trigger] res@[k1]@)[1] < (#[trigger] res@[k2]@)[1],
{
    let mut res: Vec<Vec<u64>> = Vec::new();
    let mut cnt: usize = 0;
    let mut i: u64 = start;
    while i < end
        invariant
            start < end,
            start <= i <= end,
            cnt == res@.len(),
            number != 0 ==> cnt < number,
            forall|k: int|
                0 <= k < res@.len() ==> valid_result(#[trigger] res@[k]@, 2, start, end, hash_last),
            forall|t: Seq<u64>|
                (valid_result(t, 2, start, end, hash_last) && t[1] < i) ==> #[trigger]
                    result_contains(res@, t),
            forall|k: int| 0 <= k < res@.len() ==> (#[trigger] res@[k]@)[1] < i,
            forall|k1: int, k2: int|
                0 <= k1 < k2 < res@.len() ==> (#[trigger] res@[k1]@)[1]
                    < (#[trigger] res@[k2]@)[1],
        decreases end - i,
    {
        let lane = l2_partner(hash_last, i);
        let ghost pre_res = res@;
        if start <= lane && lane < end {
            let mut tuple: Vec<u64> = Vec::new();
            tuple.push(lane);
            tuple.push(i);
            proof {
                assert(tuple@ =~= seq![lane, i]);
                assert(forward_fold(PYHASH_XXPRIME_5, seq![lane, i]) == hash_last);
                assert(digits_in_range(seq![lane, i], start, end));
                assert(valid_result(seq![lane, i], 2, start, end, hash_last));
            }
            res.push(tuple);
            cnt = res.len();
            if cnt == number {
                return res;
            }
        }
        proof {
            assert forall|t: Seq<u64>|
                (valid_result(t, 2, start, end, hash_last) && t[1] < i + 1) implies #[trigger]
                result_contains(res@, t) by {
                if t[1] < i {
                    lemma_result_grows(pre_res, res@, t);
                } else {
                    assert(t[1] == i);
                    assert(t =~= seq![t[0], t[1]]);
                    assert(forward_fold(PYHASH_XXPRIME_5, seq![t[0], i]) == hash_last);
                    assert(t[0] == lane);
                    assert(start <= lane < end);
                    assert(res@[res@.len() - 1]@ == t);
                }
            }
        }
        i = i + 1;
    }
    proof {
        assert forall|t: Seq<u64>|
            (valid_result(t, 2, start, end, hash_last) && (res@.len() < number || number == 0))
            implies #[trigger] result_contains(res@, t) by {
            assert(start <= t[1] < end);
        }
    }
    res
}

/// Some in-range digit vector with an odometer value in `[lo_v, hi_v)` stands
/// behind this table entry: its lane and its (wrapped) index.
#[verifier::opaque]
pub open spec fn entry_for(
    e: (u64, u64),
    hash_last: u64,
    lo: u64,
    hi: u64,
    n: nat,
    lo_v: int,
    hi_v: int,
) -> bool {
    exists|d: Seq<u64>|
        {
            &&& d.len() == n
            &&& digits_in_range(d, lo, hi)
            &&& lo_v <= #[trigger] cval(d, lo, (hi - lo) as int) < hi_v
            &&& e.0 == suffix_lane(hash_last, d)
            &&& e.1 as int == bval(d, lo, (hi - lo) as int) % 0x1_0000_0000_0000_0000
        }
}

/// The expected table entry of a suffix digit vector.
#[verifier::opaque]
pub open spec fn entry_of(d: Seq<u64>, hash_last: u64, lo: u64, hi: u64) -> (u64, u64) {
    (
        suffix_lane(hash_last, d),
        (bval(d, lo, (hi - lo) as int) % 0x1_0000_0000_0000_0000) as u64,
    )
}

/// Build up to `table_size` (lane, suffix index) entries while advancing the
/// suffix counter, reporting whether the suffix space is now exhausted.
#[verifier::rlimit(100)]
fn build_table(counter: &mut RangeCounter, hash_last: u64, table_size: usize) -> (r: (
    Vec<(u64, u64)>,
    bool,
))
    requires
        old(counter).wf(),
        table_size >= 1,
    ensures
        final(counter).wf(),
        final(counter).n == old(counter).n,
        final(counter).start == old(counter).start,
        final(counter).end == old(counter).end,
        1 <= r.0@.len() <= table_size,
        old(counter).value() + r.0@.len() <= old(counter).space(),
        r.1 <==> old(counter).value() + r.0@.len() == old(counter).space(),
        !r.1 ==> r.0@.len() == table_size && final(counter).value() == old(counter).value()
            + table_size,
        r.1 ==> final(counter).value() == 0,
        forall|j: int|
            0 <= j < r.0@.len() ==> entry_for(
                #[trigger] r.0@[j],
                hash_last,
                old(counter).start,
                old(counter).end,
                old(counter).n as nat,
                old(counter).value() + j,
                old(counter).value() + j + 1,
            ),
        forall|j: int, d: Seq<u64>|
            #![trigger r.0@[j], cval(d, old(counter).start, old(counter).end - old(counter).start)]
            0 <= j < r.0@.len() && d.len() == old(counter).n && digits_in_range(
                d,
                old(counter).start,
                old(counter).end,
            ) && cval(d, old(counter).start, old(counter).end - old(counter).start) == old(
                counter,
            ).value() + j ==> r.0@[j] == entry_of(d, hash_last, old(counter).start, old(counter).end),
{
    let ghost lo = old(counter).start;
    let ghost hi = old(counter).end;
    let ghost w: int = hi - lo;
    let ghost v0 = old(counter).value();
    let mut table: Vec<(u64, u64)> = Vec::new();
    let mut completed = false;
    let mut k: usize = 0;
    proof {
        lemma_cval_bounds(counter.counter@, lo, hi);
    }
    while !completed && k < table_size
        invariant
            counter.wf(),
            counter.n == old(counter).n,
            counter.start == lo,
            counter.end == hi,
            lo == old(counter).start,
            hi == old(counter).end,
            w == hi - lo,
            v0 == old(counter).value(),
            table_size >= 1,
            0 <= k <= table_size,
            table@.len() == k,
            !completed ==> counter.value() == v0 + k && v0 + k < counter.space(),
            completed ==> v0 + k == old(counter).space() && counter.value() == 0,
            v0 + k <= old(counter).space(),
            forall|j: int|
                0 <= j < k ==> entry_for(
                    #[trigger] table@[j],
                    hash_last,
                    lo,
                    hi,
                    counter.n as nat,
                    v0 + j,
                    v0 + j + 1,
                ),
            forall|j: int, d: Seq<u64>|
                #![trigger table@[j], cval(d, lo, hi - lo)]
                0 <= j < k && d.len() == counter.n && digits_in_range(d, lo, hi) && cval(
                    d,
                    lo,
                    hi - lo,
                ) == v0 + j ==> table@[j] == entry_of(d, hash_last, lo, hi),
        decreases table_size - k,
    {
        let lane = middle_lane_from_second(hash_last, counter);
        let idx = counter.to_index();
        let ghost cur = counter.counter@;
        proof {
            reveal(crate::search::entry_of);
            assert(cval(cur, lo, w) == v0 + k);
            assert(entry_of(cur, hash_last, lo, hi) == (lane, idx));
        }
        table.push((lane, idx));
        proof {
            reveal(crate::search::entry_of);
            reveal(crate::search::entry_for);
            assert(table@[k as int] == (lane, idx));
            assert forall|j: int, d: Seq<u64>|
                #![trigger table@[j], cval(d, lo, hi - lo)]
                0 <= j < k + 1 && d.len() == counter.n && digits_in_range(d, lo, hi) && cval(
                    d,
                    lo,
                    hi - lo,
                ) == v0 + j implies table@[j] == entry_of(d, hash_last, lo, hi) by {
                if j == k {
                    lemma_cval_unique(d, cur, lo, hi);
                    assert(d =~= cur);
                }
            }
            assert(entry_for(
                table@[k as int],
                hash_last,
                lo,
                hi,
                counter.n as nat,
                v0 + k,
                v0 + k + 1,
            )) by {
                assert(cval(cur, lo, (hi - lo) as int) == v0 + k);
            }
        }
        k = k + 1;
        let wrapped = counter.next();
        if wrapped {
            completed = true;
        }
        proof {
            assert(counter.n == old(counter).n);
            assert(counter.width() == old(counter).width());
            assert(counter.space() == old(counter).space());
            if completed {
                assert(v0 + k == old(counter).space());
                assert(counter.value() == 0);
            } else {
                assert(counter.value() == v0 + k);
                assert(v0 + k < old(counter).space());
            }
        }
    }
    (table, completed)
}

/// The tuple reconstructed from a probed table entry for a given prefix.
pub open spec fn tuple_of(e: (u64, u64), acc: u64, p: Seq<u64>, lo: u64, hi: u64, n: nat) -> Seq<
    u64,
> {
    p + seq![subw(e.0, acc)] + index_digits(e.1 as int, lo, (hi - lo) as int, n)
}

/// An entry that stands for a digit vector in a narrow value band also stands
/// for it in any wider band.
proof fn lemma_entry_for_widen(
    e: (u64, u64),
    hash_last: u64,
    lo: u64,
    hi: u64,
    n: nat,
    a1: int,
    b1: int,
    a2: int,
    b2: int,
)
    requires
        entry_for(e, hash_last, lo, hi, n, a1, b1),
        a2 <= a1,
        b1 <= b2,
    ensures
        entry_for(e, hash_last, lo, hi, n, a2, b2),
{
    reveal(crate::search::entry_for);
    let d = choose|d: Seq<u64>|
        {
            &&& d.len() == n
            &&& digits_in_range(d, lo, hi)
            &&& a1 <= #[trigger] cval(d, lo, (hi - lo) as int) < b1
            &&& e.0 == suffix_lane(hash_last, d)
            &&& e.1 as int == bval(d, lo, (hi - lo) as int) % 0x1_0000_0000_0000_0000
        };
    assert(a2 <= cval(d, lo, (hi - lo) as int) < b2);
}

/// The entries of one batch are pairwise distinct: distinct odometer values
/// give distinct digit vectors, hence distinct suffix indices while width^n
/// fits in 64 bits.
proof fn lemma_batch_entries_distinct(
    table: Seq<(u64, u64)>,
    hash_last: u64,
    lo: u64,
    hi: u64,
    n: nat,
    v0: int,
)
    requires
        lo < hi,
        pow((hi - lo) as int, n) <= 0x1_0000_0000_0000_0000,
        forall|j: int|
            0 <= j < table.len() ==> entry_for(
                #[trigger] table[j],
                hash_last,
                lo,
                hi,
                n,
                v0 + j,
                v0 + j + 1,
            ),
    ensures
        table.no_duplicates(),
{
    reveal(crate::search::entry_for);
    let w: int = hi - lo;
    assert forall|j1: int, j2: int|
        0 <= j1 < table.len() && 0 <= j2 < table.len() && j1 != j2 implies table[j1]
        != table[j2] by {
        let d1 = choose|d: Seq<u64>|
            {
                &&& d.len() == n
                &&& digits_in_range(d, lo, hi)
                &&& v0 + j1 <= #[trigger] cval(d, lo, w) < v0 + j1 + 1
                &&& table[j1].0 == suffix_lane(hash_last, d)
                &&& table[j1].1 as int == bval(d, lo, w) % 0x1_0000_0000_0000_0000
            };
        let d2 = choose|d: Seq<u64>|
            {
                &&& d.len() == n
                &&& digits_in_range(d, lo, hi)
                &&& v0 + j2 <= #[trigger] cval(d, lo, w) < v0 + j2 + 1
                &&& table[j2].0 == suffix_lane(hash_last, d)
                &&& table[j2].1 as int == bval(d, lo, w) % 0x1_0000_0000_0000_0000
            };
        lemma_bval_bounds(d1, lo, hi);
        lemma_bval_bounds(d2, lo, hi);
        vstd::arithmetic::div_mod::lemma_small_mod(
            bval(d1, lo, w) as nat,
            0x1_0000_0000_0000_0000,
        );
        vstd::arithmetic::div_mod::lemma_small_mod(
            bval(d2, lo, w) as nat,
            0x1_0000_0000_0000_0000,
        );
        if table[j1] == table[j2] {
            assert(bval(d1, lo, w) == bval(d2, lo, w));
            lemma_index_digits_of_bval(d1, lo, hi);
            lemma_index_digits_of_bval(d2, lo, hi);
            assert(d1 =~= d2);
            assert(false);
        }
    }
    assert(table.no_duplicates());
}

/// Probe the table for one prefix state, reconstruct the tuple behind every
/// hit and append it to the results; stop early at the result cap.
#[verifier::rlimit(100)]
fn probe_prefix(
    table: &Vec<(u64, u64)>,
    cm: &ahash::AHashMap<u64, (usize, usize), ahash::RandomState>,
    second: &RangeCounter,
    first: &RangeCounter,
    hash_last: u64,
    length: usize,
    number: usize,
    res: &mut Vec<Vec<u64>>,
    Ghost(v0): Ghost<int>,
    Ghost(v1): Ghost<int>,
) -> (capped: bool)
    requires
        first.wf(),
        second.wf(),
        first.start == second.start,
        first.end == second.end,
        first.n + second.n + 1 == length,
        table_sorted(table@),
        table@.no_duplicates(),
        chunk_index_ok(chunk_map_of(*cm), table@, (first.end - first.start) as u64),
        pow(second.width(), second.n as nat) <= 0x1_0000_0000_0000_0000,
        forall|e: (u64, u64)| #[trigger]
            table@.contains(e) ==> entry_for(
                e,
                hash_last,
                second.start,
                second.end,
                second.n as nat,
                v0,
                v1,
            ),
        forall|d: Seq<u64>|
            d.len() == second.n && digits_in_range(d, second.start, second.end) && v0 <= cval(
                d,
                second.start,
                second.width(),
            ) < v1 ==> table@.contains(#[trigger] entry_of(d, hash_last, second.start, second.end)),
        number == 0 || old(res)@.len() < number,
    ensures
        old(res)@.len() <= final(res)@.len(),
        forall|k: int| 0 <= k < old(res)@.len() ==> final(res)@[k] == old(res)@[k],
        forall|k: int|
            old(res)@.len() <= k < final(res)@.len() ==> valid_result(
                #[trigger] final(res)@[k]@,
                length as int,
                first.start,
                first.end,
                hash_last,
            ),
        number != 0 ==> final(res)@.len() <= number,
        capped <==> (number != 0 && final(res)@.len() == number),
        forall|k1: int, k2: int|
            old(res)@.len() <= k1 < k2 < final(res)@.len() ==> (#[trigger] final(res)@[k1]@)
                != (#[trigger] final(res)@[k2]@),
        forall|k: int|
            old(res)@.len() <= k < final(res)@.len() ==> (#[trigger] final(res)@[k]@).take(
                first.n as int,
            ) == first.counter@ && v0 <= cval(
                final(res)@[k]@.skip(first.n + 1),
                second.start,
                second.width(),
            ) < v1,
        !capped ==> forall|mid: u64, d: Seq<u64>|
            (first.start <= mid < first.end && d.len() == second.n && digits_in_range(
                d,
                second.start,
                second.end,
            ) && v0 <= cval(d, second.start, second.width()) < v1 && forward_fold(
                PYHASH_XXPRIME_5,
                first.counter@ + seq![mid] + d,
            ) == hash_last) ==> #[trigger] result_contains(
                final(res)@,
                first.counter@ + seq![mid] + d,
            ),
{
    let lo = first.start;
    let hi = first.end;
    let ghost w: int = hi - lo;
    let ghost p = first.counter@;
    let acc = middle_lane_from_first(first);
    let cand = probe_window(table, cm, acc, lo, hi);
    proof {
        assert forall|e: (u64, u64)| #[trigger] cand@.contains(e) implies entry_for(
            e,
            hash_last,
            lo,
            hi,
            second.n as nat,
            v0,
            v1,
        ) && in_window(e.0, addw(acc, lo), addw(acc, hi)) by {
            assert(table@.contains(e));
        }
    }
    let mut ci: usize = 0;
    let mut capped = false;
    while !capped && ci < cand.len()
        invariant
            first.wf(),
            second.wf(),
            first.start == lo,
            first.end == hi,
            second.start == lo,
            second.end == hi,
            w == hi - lo,
            p == first.counter@,
            first.n + second.n + 1 == length,
            pow(second.width(), second.n as nat) <= 0x1_0000_0000_0000_0000,
            acc == prefix_lane(p),
            forall|e: (u64, u64)| #[trigger]
                cand@.contains(e) ==> entry_for(
                    e,
                    hash_last,
                    lo,
                    hi,
                    second.n as nat,
                    v0,
                    v1,
                ) && in_window(e.0, addw(acc, lo), addw(acc, hi)),
            0 <= ci <= cand@.len(),
            old(res)@.len() <= res@.len(),
            forall|k: int| 0 <= k < old(res)@.len() ==> res@[k] == old(res)@[k],
            forall|k: int|
                old(res)@.len() <= k < res@.len() ==> valid_result(
                    #[trigger] res@[k]@,
                    length as int,
                    lo,
                    hi,
                    hash_last,
                ),
            number != 0 ==> res@.len() <= number,
            capped <==> (number != 0 && res@.len() == number),
            res@.len() == old(res)@.len() + ci,
            forall|c: int|
                0 <= c < ci ==> res@[old(res)@.len() + c]@ == tuple_of(
                    #[trigger] cand@[c],
                    acc,
                    p,
                    lo,
                    hi,
                    second.n as nat,
                ),
            forall|k: int|
                old(res)@.len() <= k < res@.len() ==> (#[trigger] res@[k]@).take(first.n as int)
                    == p && v0 <= cval(res@[k]@.skip(first.n + 1), lo, w) < v1,
        decreases cand@.len() - ci,
    {
        let e = cand[ci];
        let mid = e.0.wrapping_sub(acc);
        let suffix = second.from_index(e.1);
        let ghost d = choose|d: Seq<u64>|
            {
                &&& d.len() == second.n as nat
                &&& digits_in_range(d, lo, hi)
                &&& v0 <= #[trigger] cval(d, lo, w) < v1
                &&& e.0 == suffix_lane(hash_last, d)
                &&& e.1 as int == bval(d, lo, w) % 0x1_0000_0000_0000_0000
            };
        proof {
            broadcast use lemma_wrapping_sub;

            assert(cand@[ci as int] == e);
            assert(cand@.contains(e));
            reveal(crate::search::entry_for);
            assert(entry_for(e, hash_last, lo, hi, second.n as nat, v0, v1));
            lemma_index_round_trip(d, lo, hi);
            assert(suffix@ =~= d);
            lemma_window_mid(acc, e.0, lo, hi);
            assert(lo <= mid < hi);
            lemma_lane_meet(hash_last, p, d, mid);
            assert(forward_fold(PYHASH_XXPRIME_5, p + seq![mid] + d) == hash_last);
        }
        let mut tuple: Vec<u64> = Vec::new();
        let mut pi: usize = 0;
        while pi < first.counter.len()
            invariant
                0 <= pi <= first.counter@.len(),
                tuple@ == first.counter@.take(pi as int),
            decreases first.counter@.len() - pi,
        {
            tuple.push(first.counter[pi]);
            proof {
                assert(first.counter@.take(pi as int).push(first.counter@[pi as int])
                    =~= first.counter@.take(pi + 1));
            }
            pi = pi + 1;
        }
        proof {
            assert(tuple@ =~= first.counter@);
        }
        tuple.push(mid);
        let mut si: usize = 0;
        while si < suffix.len()
            invariant
                0 <= si <= suffix@.len(),
                tuple@ == first.counter@ + seq![mid] + suffix@.take(si as int),
            decreases suffix@.len() - si,
        {
            proof {
                assert((first.counter@ + seq![mid] + suffix@.take(si as int)).push(
                    suffix@[si as int],
                ) =~= first.counter@ + seq![mid] + suffix@.take(si + 1));
            }
            tuple.push(suffix[si]);
            si = si + 1;
        }
        let ghost pre_res = res@;
        proof {
            assert(suffix@.take(suffix@.len() as int) =~= suffix@);
            assert(tuple@ =~= p + seq![mid] + d);
            assert(tuple@.take(first.n as int) =~= p);
            assert(tuple@.skip(first.n + 1) =~= d);
            assert(tuple@ == tuple_of(e, acc, p, lo, hi, second.n as nat)) by {
                assert(index_digits(e.1 as int, lo, w, second.n as nat) =~= d);
            }
            assert(valid_result(tuple@, length as int, lo, hi, hash_last)) by {
                assert(tuple@.len() == length);
                assert forall|ii: int| 0 <= ii < tuple@.len() implies lo <= #[trigger] tuple@[ii]
                    < hi by {
                    if ii < p.len() {
                        assert(tuple@[ii] == p[ii]);
                    } else if ii == p.len() {
                        assert(tuple@[ii] == mid);
                    } else {
                        assert(tuple@[ii] == d[ii - p.len() - 1]);
                    }
                }
            }
        }
        res.push(tuple);
        if res.len() == number {
            capped = true;
        }
        proof {
            assert(res@[old(res)@.len() + ci]@ == tuple_of(
                cand@[ci as int],
                acc,
                p,
                lo,
                hi,
                second.n as nat,
            ));
        }
        ci = ci + 1;
    }
    proof {
        // Distinct candidates reconstruct distinct tuples: the suffix digit
        // vectors behind distinct entries differ.
        assert forall|k1: int, k2: int|
            old(res)@.len() <= k1 < k2 < res@.len() implies (#[trigger] res@[k1]@)
            != (#[trigger] res@[k2]@) by {
            let ca = k1 - old(res)@.len();
            let cb = k2 - old(res)@.len();
            let ea = cand@[ca];
            let eb = cand@[cb];
            assert(cand@.contains(ea) && cand@.contains(eb));
            reveal(crate::search::entry_for);
            let da = choose|d: Seq<u64>|
                {
                    &&& d.len() == second.n as nat
                    &&& digits_in_range(d, lo, hi)
                    &&& v0 <= #[trigger] cval(d, lo, w) < v1
                    &&& ea.0 == suffix_lane(hash_last, d)
                    &&& ea.1 as int == bval(d, lo, w) % 0x1_0000_0000_0000_0000
                };
            let db = choose|d: Seq<u64>|
                {
                    &&& d.len() == second.n as nat
                    &&& digits_in_range(d, lo, hi)
                    &&& v0 <= #[trigger] cval(d, lo, w) < v1
                    &&& eb.0 == suffix_lane(hash_last, d)
                    &&& eb.1 as int == bval(d, lo, w) % 0x1_0000_0000_0000_0000
                };
            lemma_index_round_trip(da, lo, hi);
            lemma_index_round_trip(db, lo, hi);
            lemma_bval_bounds(da, lo, hi);
            lemma_bval_bounds(db, lo, hi);
            vstd::arithmetic::div_mod::lemma_small_mod(
                bval(da, lo, w) as nat,
                0x1_0000_0000_0000_0000,
            );
            vstd::arithmetic::div_mod::lemma_small_mod(
                bval(db, lo, w) as nat,
                0x1_0000_0000_0000_0000,
            );
            assert(res@[k1]@ == tuple_of(ea, acc, p, lo, hi, second.n as nat));
            assert(res@[k2]@ == tuple_of(eb, acc, p, lo, hi, second.n as nat));
            assert(index_digits(ea.1 as int, lo, w, second.n as nat) =~= da);
            assert(index_digits(eb.1 as int, lo, w, second.n as nat) =~= db);
            if da =~= db {
                assert(ea == eb);
                assert(false);
            } else {
                assert(res@[k1]@.skip((p.len() + 1) as int) =~= da);
                assert(res@[k2]@.skip((p.len() + 1) as int) =~= db);
            }
        }
        if !capped {
            assert forall|mid: u64, d: Seq<u64>|
                (lo <= mid < hi && d.len() == second.n && digits_in_range(d, lo, hi) && v0 <= cval(
                    d,
                    lo,
                    w,
                ) < v1 && forward_fold(PYHASH_XXPRIME_5, p + seq![mid] + d) == hash_last) implies
                #[trigger] result_contains(res@, p + seq![mid] + d) by {
                let ev = entry_of(d, hash_last, lo, hi);
                reveal(crate::search::entry_of);
                assert(table@.contains(ev));
                lemma_lane_meet(hash_last, p, d, mid);
                assert(mid == subw(ev.0, acc));
                lemma_window_mid(acc, ev.0, lo, hi);
                assert(in_window(ev.0, addw(acc, lo), addw(acc, hi)));
                assert(cand@.contains(ev));
                let c = choose|c: int| 0 <= c < cand@.len() && cand@[c] == ev;
                assert(res@[old(res)@.len() + c]@ == tuple_of(
                    cand@[c],
                    acc,
                    p,
                    lo,
                    hi,
                    second.n as nat,
                ));
                assert(tuple_of(ev, acc, p, lo, hi, second.n as nat) =~= p + seq![mid] + d) by {
                    lemma_index_round_trip(d, lo, hi);
                    assert(index_digits(ev.1 as int, lo, w, second.n as nat) =~= d);
                }
                assert(result_contains(res@, p + seq![mid] + d));
            }
        }
    }
    capped
}

/// Sweep every prefix state against one suffix table, emitting all matches.
#[verifier::rlimit(100)]
fn probe_batch(
    table: &Vec<(u64, u64)>,
    cm: &ahash::AHashMap<u64, (usize, usize), ahash::RandomState>,
    second: &RangeCounter,
    first_n: usize,
    hash_last: u64,
    length: usize,
    number: usize,
    res: &mut Vec<Vec<u64>>,
    Ghost(v0): Ghost<int>,
    Ghost(v1): Ghost<int>,
) -> (capped: bool)
    requires
        second.wf(),
        first_n + second.n + 1 == length,
        table_sorted(table@),
        table@.no_duplicates(),
        chunk_index_ok(chunk_map_of(*cm), table@, (second.end - second.start) as u64),
        pow(second.width(), second.n as nat) <= 0x1_0000_0000_0000_0000,
        forall|e: (u64, u64)| #[trigger]
            table@.contains(e) ==> entry_for(
                e,
                hash_last,
                second.start,
                second.end,
                second.n as nat,
                v0,
                v1,
            ),
        forall|d: Seq<u64>|
            d.len() == second.n && digits_in_range(d, second.start, second.end) && v0 <= cval(
                d,
                second.start,
                second.width(),
            ) < v1 ==> table@.contains(#[trigger] entry_of(d, hash_last, second.start, second.end)),
        number == 0 || old(res)@.len() < number,
    ensures
        old(res)@.len() <= final(res)@.len(),
        forall|k: int| 0 <= k < old(res)@.len() ==> final(res)@[k] == old(res)@[k],
        forall|k: int|
            old(res)@.len() <= k < final(res)@.len() ==> valid_result(
                #[trigger] final(res)@[k]@,
                length as int,
                second.start,
                second.end,
                hash_last,
            ),
        number != 0 ==> final(res)@.len() <= number,
        capped <==> (number != 0 && final(res)@.len() == number),
        forall|k1: int, k2: int|
            old(res)@.len() <= k1 < k2 < final(res)@.len() ==> (#[trigger] final(res)@[k1]@)
                != (#[trigger] final(res)@[k2]@),
        forall|k: int|
            old(res)@.len() <= k < final(res)@.len() ==> v0 <= cval(
                (#[trigger] final(res)@[k]@).skip(first_n + 1),
                second.start,
                second.width(),
            ) < v1,
        forall|k1: int, k2: int|
            old(res)@.len() <= k1 < k2 < final(res)@.len() ==> cval(
                (#[trigger] final(res)@[k1]@).take(first_n as int),
                second.start,
                second.width(),
            ) <= cval((#[trigger] final(res)@[k2]@).take(first_n as int), second.start, second.width()),
        !capped ==> forall|t: Seq<u64>|
            (valid_result(t, length as int, second.start, second.end, hash_last) && v0 <= cval(
                t.skip(first_n + 1),
                second.start,
                second.width(),
            ) < v1) ==> #[trigger] result_contains(final(res)@, t),
{
    let lo = second.start;
    let hi = second.end;
    let ghost w: int = hi - lo;
    let mut first = RangeCounter::new(lo, hi, first_n);
    let mut capped = false;
    let mut done = false;
    proof {
        vstd::arithmetic::power::lemma_pow_positive(first.width(), first_n as nat);
        assert forall|t: Seq<u64>|
            (valid_result(t, length as int, lo, hi, hash_last) && v0 <= cval(
                t.skip(first_n + 1),
                lo,
                w,
            ) < v1 && cval(t.take(first_n as int), lo, w) < 0) implies #[trigger] result_contains(
            res@,
            t,
        ) by {
            let tp = t.take(first_n as int);
            assert(digits_in_range(tp, lo, hi)) by {
                assert(forall|ii: int| 0 <= ii < tp.len() ==> tp[ii] == #[trigger] t[ii]);
            }
            lemma_cval_bounds(tp, lo, hi);
        }
    }
    while !done && !capped
        invariant
            second.wf(),
            second.start == lo,
            second.end == hi,
            w == hi - lo,
            first.wf(),
            first.start == lo,
            first.end == hi,
            first.n == first_n,
            first_n + second.n + 1 == length,
            table_sorted(table@),
            table@.no_duplicates(),
            chunk_index_ok(chunk_map_of(*cm), table@, (hi - lo) as u64),
            pow(second.width(), second.n as nat) <= 0x1_0000_0000_0000_0000,
            forall|e: (u64, u64)| #[trigger]
                table@.contains(e) ==> entry_for(e, hash_last, lo, hi, second.n as nat, v0, v1),
            forall|d: Seq<u64>|
                d.len() == second.n && digits_in_range(d, lo, hi) && v0 <= cval(d, lo, w) < v1
                    ==> table@.contains(#[trigger] entry_of(d, hash_last, lo, hi)),
            old(res)@.len() <= res@.len(),
            forall|k: int| 0 <= k < old(res)@.len() ==> res@[k] == old(res)@[k],
            forall|k: int|
                old(res)@.len() <= k < res@.len() ==> valid_result(
                    #[trigger] res@[k]@,
                    length as int,
                    lo,
                    hi,
                    hash_last,
                ),
            number != 0 ==> res@.len() <= number,
            capped <==> (number != 0 && res@.len() == number),
            forall|k1: int, k2: int|
                old(res)@.len() <= k1 < k2 < res@.len() ==> (#[trigger] res@[k1]@)
                    != (#[trigger] res@[k2]@),
            forall|k: int|
                old(res)@.len() <= k < res@.len() ==> v0 <= cval(
                    (#[trigger] res@[k]@).skip(first_n + 1),
                    lo,
                    w,
                ) < v1,
            forall|k1: int, k2: int|
                old(res)@.len() <= k1 < k2 < res@.len() ==> cval(
                    (#[trigger] res@[k1]@).take(first_n as int),
                    lo,
                    w,
                ) <= cval((#[trigger] res@[k2]@).take(first_n as int), lo, w),
            !capped ==> forall|k: int|
                old(res)@.len() <= k < res@.len() ==> cval(
                    (#[trigger] res@[k]@).take(first_n as int),
                    lo,
                    w,
                ) < (if done {
                    first.space()
                } else {
                    first.value()
                }),
            0 <= first.value() < first.space(),
            done ==> first.value() == 0,
            !capped ==> forall|t: Seq<u64>|
                (valid_result(t, length as int, lo, hi, hash_last) && v0 <= cval(
                    t.skip(first_n + 1),
                    lo,
                    w,
                ) < v1 && cval(t.take(first_n as int), lo, w) < (if done {
                    first.space()
                } else {
                    first.value()
                })) ==> #[trigger] result_contains(res@, t),
        decreases (if done || capped {
            0int
        } else {
            first.space() - first.value() + 1
        }),
    {
        let ghost pv = first.value();
        let ghost pre_res = res@;
        let c = probe_prefix(
            table,
            cm,
            second,
            &first,
            hash_last,
            length,
            number,
            res,
            Ghost(v0),
            Ghost(v1),
        );
        let ghost pdigits = first.counter@;
        proof {
            // Freshly added tuples are pairwise distinct, carry the current
            // prefix, and stay distinct from and after earlier prefixes'
            // tuples.
            assert forall|k1: int, k2: int|
                old(res)@.len() <= k1 < k2 < res@.len() implies (#[trigger] res@[k1]@)
                != (#[trigger] res@[k2]@) by {
                if k2 < pre_res.len() {
                    assert(res@[k1] == pre_res[k1] && res@[k2] == pre_res[k2]);
                } else if k1 >= pre_res.len() {
                } else {
                    assert(res@[k1] == pre_res[k1]);
                    assert(cval((res@[k1]@).take(first_n as int), lo, w) < pv);
                    assert(res@[k2]@.take(first_n as int) == pdigits);
                    assert(cval(pdigits, lo, w) == pv);
                    if res@[k1]@ == res@[k2]@ {
                        assert(false);
                    }
                }
            }
            assert forall|k1: int, k2: int|
                old(res)@.len() <= k1 < k2 < res@.len() implies cval(
                (#[trigger] res@[k1]@).take(first_n as int),
                lo,
                w,
            ) <= cval((#[trigger] res@[k2]@).take(first_n as int), lo, w) by {
                if k2 < pre_res.len() {
                    assert(res@[k1] == pre_res[k1] && res@[k2] == pre_res[k2]);
                } else if k1 >= pre_res.len() {
                    assert(res@[k1]@.take(first_n as int) == pdigits);
                    assert(res@[k2]@.take(first_n as int) == pdigits);
                } else {
                    assert(res@[k1] == pre_res[k1]);
                    assert(cval((res@[k1]@).take(first_n as int), lo, w) < pv);
                    assert(res@[k2]@.take(first_n as int) == pdigits);
                    assert(cval(pdigits, lo, w) == pv);
                }
            }
        }
        if c {
            capped = true;
        } else {
            let wrapped = first.next();
            if wrapped {
                done = true;
            }
            proof {
                assert forall|k: int|
                    old(res)@.len() <= k < res@.len() implies cval(
                    (#[trigger] res@[k]@).take(first_n as int),
                    lo,
                    w,
                ) < (if done {
                    first.space()
                } else {
                    first.value()
                }) by {
                    if k < pre_res.len() {
                        assert(res@[k] == pre_res[k]);
                    } else {
                        assert(res@[k]@.take(first_n as int) == pdigits);
                        assert(cval(pdigits, lo, w) == pv);
                    }
                }
                assert forall|t: Seq<u64>|
                    (valid_result(t, length as int, lo, hi, hash_last) && v0 <= cval(
                        t.skip(first_n + 1),
                        lo,
                        w,
                    ) < v1 && cval(t.take(first_n as int), lo, w) < (if done {
                        first.space()
                    } else {
                        first.value()
                    })) implies #[trigger] result_contains(res@, t) by {
                    let tp = t.take(first_n as int);
                    let tm = t[first_n as int];
                    let ts = t.skip(first_n + 1);
                    assert(digits_in_range(tp, lo, hi)) by {
                        assert(forall|ii: int| 0 <= ii < tp.len() ==> tp[ii] == #[trigger] t[ii]);
                    }
                    assert(digits_in_range(ts, lo, hi)) by {
                        assert(forall|ii: int|
                            0 <= ii < ts.len() ==> #[trigger] ts[ii] == t[ii + first_n + 1]);
                    }
                    lemma_cval_bounds(tp, lo, hi);
                    if cval(tp, lo, w) < pv {
                        lemma_result_grows(pre_res, res@, t);
                    } else {
                        assert(cval(tp, lo, w) == pv);
                        lemma_cval_unique(tp, pdigits, lo, hi);
                        assert(tp =~= pdigits);
                        assert(t =~= pdigits + seq![tm] + ts);
                        assert(lo <= tm < hi);
                        assert(forward_fold(PYHASH_XXPRIME_5, pdigits + seq![tm] + ts)
                            == hash_last);
                        assert(result_contains(res@, pdigits + seq![tm] + ts));
                    }
                }
            }
        }
    }
    proof {
        if !capped {
            assert forall|t: Seq<u64>|
                (valid_result(t, length as int, lo, hi, hash_last) && v0 <= cval(
                    t.skip(first_n + 1),
                    lo,
                    w,
                ) < v1) implies #[trigger] result_contains(res@, t) by {
                let tp = t.take(first_n as int);
                assert(digits_in_range(tp, lo, hi)) by {
                    assert(forall|ii: int| 0 <= ii < tp.len() ==> tp[ii] == #[trigger] t[ii]);
                }
                lemma_cval_bounds(tp, lo, hi);
                assert(cval(tp, lo, w) < first.space());
            }
        }
    }
    capped
}

/// Search for every tuple of the given length over `[start, end)` whose hash
/// under the current model equals `hash`, by a meet-in-the-middle sweep:
/// suffix tables are built batch by batch, sorted and chunk-indexed, and all
/// prefixes are probed against each batch.  Emission stops once `number`
/// results are found (`number == 0` means unbounded).  The suffix index
/// conversion is exact only while width^(suffix length) is at most 2^64,
/// which the precondition pins down.
#[verifier::rlimit(100)]
pub fn tuple_unhash(
    length: usize,
    hash: u64,
    start: u64,
    end: u64,
    table_size: usize,
    number: usize,
) -> (res: Vec<Vec<u64>>)
    requires
        length >= 2,
        start < end,
        table_size >= 1,
        pow((end - start) as int, ((length - 1) / 2) as nat) <= 0x1_0000_0000_0000_0000,
    ensures
        forall|k: int|
            0 <= k < res@.len() ==> is_preimage(#[trigger] res@[k]@, length as int, start, end, hash),
        number != 0 ==> res@.len() <= number,
        forall|t: Seq<u64>|
            (is_preimage(t, length as int, start, end, hash) && (res@.len() < number || number
                == 0)) ==> #[trigger] result_contains(res@, t),
        forall|k1: int, k2: int|
            0 <= k1 < k2 < res@.len() ==> (#[trigger] res@[k1]@) != (#[trigger] res@[k2]@),
{
    let hash_last = hash.wrapping_sub((length as u64) ^ PYHASH_XXPRIME_5 ^ 3527539);
    proof {
        broadcast use lemma_wrapping_sub;

        assert(hash_last == subw(hash, crate::hash::finalize_tweak(length as u64)));
    }
    if length == 2 {
        let r = tuple_unhash_length_2(hash_last, start, end, number);
        proof {
            assert forall|k1: int, k2: int| 0 <= k1 < k2 < r@.len() implies (#[trigger] r@[k1]@)
                != (#[trigger] r@[k2]@) by {
                assert(r@[k1]@[1] < r@[k2]@[1]);
            }
            assert forall|t: Seq<u64>| t.len() == 2 implies (valid_result(
                t,
                2,
                start,
                end,
                hash_last,
            ) <==> is_preimage(t, 2, start, end, hash)) by {
                lemma_definalize(t, hash);
            }
            assert forall|t: Seq<u64>|
                (is_preimage(t, length as int, start, end, hash) && (r@.len() < number || number
                    == 0)) implies #[trigger] result_contains(r@, t) by {
                assert(valid_result(t, 2, start, end, hash_last));
            }
        }
        return r;
    }
    let second_half_length = (length - 1) / 2;
    let first_half_length = length - second_half_length - 1;
    let range_width = end - start;
    let mut second_counter = RangeCounter::new(start, end, second_half_length);
    let mut res: Vec<Vec<u64>> = Vec::new();
    let mut completed = false;
    let mut capped = false;
    let ghost w: int = (end - start) as int;
    proof {
        vstd::arithmetic::power::lemma_pow_positive(w, second_half_length as nat);
        assert forall|t: Seq<u64>|
            (valid_result(t, length as int, start, end, hash_last) && cval(
                t.skip(first_half_length + 1),
                start,
                w,
            ) < 0) implies #[trigger] result_contains(res@, t) by {
            let ts = t.skip(first_half_length + 1);
            assert(digits_in_range(ts, start, end)) by {
                assert(forall|ii: int|
                    0 <= ii < ts.len() ==> #[trigger] ts[ii] == t[ii + first_half_length + 1]);
            }
            lemma_cval_bounds(ts, start, end);
        }
    }
    while !completed && !capped
        invariant
            length >= 3,
            start < end,
            table_size >= 1,
            w == end - start,
            second_half_length == (length - 1) / 2,
            first_half_length == length - second_half_length - 1,
            range_width == end - start,
            second_counter.wf(),
            second_counter.start == start,
            second_counter.end == end,
            second_counter.n == second_half_length,
            pow(w, second_half_length as nat) <= 0x1_0000_0000_0000_0000,
            0 <= second_counter.value() < second_counter.space(),
            completed ==> second_counter.value() == 0,
            forall|k: int|
                0 <= k < res@.len() ==> valid_result(
                    #[trigger] res@[k]@,
                    length as int,
                    start,
                    end,
                    hash_last,
                ),
            number != 0 ==> res@.len() <= number,
            capped <==> (number != 0 && res@.len() == number),
            forall|k1: int, k2: int|
                0 <= k1 < k2 < res@.len() ==> (#[trigger] res@[k1]@) != (#[trigger] res@[k2]@),
            !capped ==> forall|k: int|
                0 <= k < res@.len() ==> cval(
                    (#[trigger] res@[k]@).skip(first_half_length + 1),
                    start,
                    w,
                ) < (if completed {
                    second_counter.space()
                } else {
                    second_counter.value()
                }),
            !capped ==> forall|t: Seq<u64>|
                (valid_result(t, length as int, start, end, hash_last) && cval(
                    t.skip(first_half_length + 1),
                    start,
                    w,
                ) < (if completed {
                    second_counter.space()
                } else {
                    second_counter.value()
                })) ==> #[trigger] result_contains(res@, t),
        decreases (if completed || capped {
            0int
        } else {
            second_counter.space() - second_counter.value() + 1
        }),
    {
        let ghost v0 = second_counter.value();
        let ghost pre_res = res@;
        let built = build_table(&mut second_counter, hash_last, table_size);
        let table = built.0;
        let batch_done = built.1;
        let ghost v1 = v0 + table@.len();
        let sorted = sort_table(&table);
        let cm = to_chunk(&sorted, range_width);
        proof {
            lemma_batch_entries_distinct(
                table@,
                hash_last,
                start,
                end,
                second_counter.n as nat,
                v0,
            );
            table@.lemma_multiset_has_no_duplicates();
            sorted@.lemma_multiset_has_no_duplicates_conv();
            assert(sorted@.no_duplicates());
            assert forall|e: (u64, u64)| #[trigger]
                sorted@.contains(e) implies entry_for(
                e,
                hash_last,
                start,
                end,
                second_counter.n as nat,
                v0,
                v1,
            ) by {
                assert(table@.contains(e));
                let j = choose|j: int| 0 <= j < table@.len() && table@[j] == e;
                lemma_entry_for_widen(
                    e,
                    hash_last,
                    start,
                    end,
                    second_counter.n as nat,
                    v0 + j,
                    v0 + j + 1,
                    v0,
                    v1,
                );
            }
            assert forall|d: Seq<u64>|
                d.len() == second_counter.n && digits_in_range(d, start, end) && v0 <= cval(
                    d,
                    start,
                    w,
                ) < v1 implies sorted@.contains(
                #[trigger] entry_of(d, hash_last, start, end),
            ) by {
                let j = cval(d, start, w) - v0;
                assert(table@[j] == entry_of(d, hash_last, start, end));
                assert(table@.contains(entry_of(d, hash_last, start, end)));
            }
        }
        let cap2 = probe_batch(
            &sorted,
            &cm,
            &second_counter,
            first_half_length,
            hash_last,
            length,
            number,
            &mut res,
            Ghost(v0),
            Ghost(v1),
        );
        if cap2 {
            capped = true;
        } else if batch_done {
            completed = true;
        }
        proof {
            assert forall|k1: int, k2: int|
                0 <= k1 < k2 < res@.len() implies (#[trigger] res@[k1]@)
                != (#[trigger] res@[k2]@) by {
                if k2 < pre_res.len() {
                    assert(res@[k1] == pre_res[k1] && res@[k2] == pre_res[k2]);
                } else if k1 >= pre_res.len() {
                } else {
                    assert(res@[k1] == pre_res[k1]);
                    assert(cval((res@[k1]@).skip(first_half_length + 1), start, w) < v0);
                    assert(v0 <= cval((res@[k2]@).skip(first_half_length + 1), start, w) < v1);
                    if res@[k1]@ == res@[k2]@ {
                        assert(false);
                    }
                }
            }
            if !capped {
                assert forall|k: int|
                    0 <= k < res@.len() implies cval(
                    (#[trigger] res@[k]@).skip(first_half_length + 1),
                    start,
                    w,
                ) < (if completed {
                    second_counter.space()
                } else {
                    second_counter.value()
                }) by {
                    if k < pre_res.len() {
                        assert(res@[k] == pre_res[k]);
                    } else {
                        assert(v0 <= cval((res@[k]@).skip(first_half_length + 1), start, w) < v1);
                    }
                }
                assert forall|t: Seq<u64>|
                    (valid_result(t, length as int, start, end, hash_last) && cval(
                        t.skip(first_half_length + 1),
                        start,
                        w,
                    ) < (if completed {
                        second_counter.space()
                    } else {
                        second_counter.value()
                    })) implies #[trigger] result_contains(res@, t) by {
                    let sv = cval(t.skip(first_half_length + 1), start, w);
                    if sv < v0 {
                        lemma_result_grows(pre_res, res@, t);
                    } else {
                        assert(v0 <= sv < v1);
                    }
                }
            }
        }
    }
    proof {
        assert forall|t: Seq<u64>| t.len() == length implies (valid_result(
            t,
            length as int,
            start,
            end,
            hash_last,
        ) <==> is_preimage(t, length as int, start, end, hash)) by {
            lemma_definalize(t, hash);
        }
        if !capped {
            assert forall|t: Seq<u64>|
                (is_preimage(t, length as int, start, end, hash) && (res@.len() < number || number
                    == 0)) implies #[trigger] result_contains(res@, t) by {
                let ts = t.skip(first_half_length + 1);
                assert(digits_in_range(ts, start, end)) by {
                    assert(forall|ii: int|
                        0 <= ii < ts.len() ==> #[trigger] ts[ii] == t[ii + first_half_length + 1]);
                }
                lemma_cval_bounds(ts, start, end);
                assert(ts.len() == second_half_length);
                assert(cval(ts, start, w) < second_counter.space());
            }
        }
    }
    res
}

/// A tuple folds to the definalised target under the older model.
pub open spec fn valid_result_old(t: Seq<u64>, len: u64, lo: u64, hi: u64, hash_last: u64) -> bool {
    t.len() == len && digits_in_range(t, lo, hi) && legacy_fold_at(PYHASH_PARAM_OLD_1, len, 0, t)
        == hash_last
}

/// A tuple is a preimage of the target hash under the older model.
pub open spec fn is_preimage_old(t: Seq<u64>, len: u64, lo: u64, hi: u64, hash: u64) -> bool {
    t.len() == len && digits_in_range(t, lo, hi) && legacy_hash(t) == hash
}

/// The expected table entry of a suffix digit vector under the older model.
#[verifier::opaque]
pub open spec fn entry_of_old(d: Seq<u64>, hash_last: u64, lo: u64, hi: u64, len: u64) -> (
    u64,
    u64,
) {
    (
        suffix_lane_old(hash_last, d, len, (len - d.len() - 1) as nat),
        (bval(d, lo, (hi - lo) as int) % 0x1_0000_0000_0000_0000) as u64,
    )
}

/// Some in-range digit vector with an odometer value in `[lo_v, hi_v)` stands
/// behind this entry under the older model.
#[verifier::opaque]
pub open spec fn entry_for_old(
    e: (u64, u64),
    hash_last: u64,
    lo: u64,
    hi: u64,
    n: nat,
    len: u64,
    lo_v: int,
    hi_v: int,
) -> bool {
    exists|d: Seq<u64>|
        {
            &&& d.len() == n
            &&& digits_in_range(d, lo, hi)
            &&& lo_v <= #[trigger] cval(d, lo, (hi - lo) as int) < hi_v
            &&& e == entry_of_old(d, hash_last, lo, hi, len)
        }
}

/// Widening the value band preserves `entry_for_old`.
proof fn lemma_entry_for_old_widen(
    e: (u64, u64),
    hash_last: u64,
    lo: u64,
    hi: u64,
    n: nat,
    len: u64,
    a1: int,
    b1: int,
    a2: int,
    b2: int,
)
    requires
        entry_for_old(e, hash_last, lo, hi, n, len, a1, b1),
        a2 <= a1,
        b1 <= b2,
    ensures
        entry_for_old(e, hash_last, lo, hi, n, len, a2, b2),
{
    reveal(crate::search::entry_for_old);
    let d = choose|d: Seq<u64>|
        {
            &&& d.len() == n
            &&& digits_in_range(d, lo, hi)
            &&& a1 <= #[trigger] cval(d, lo, (hi - lo) as int) < b1
            &&& e == entry_of_old(d, hash_last, lo, hi, len)
        };
    assert(a2 <= cval(d, lo, (hi - lo) as int) < b2);
}

/// The prefix lane of the older model: the plain accumulator after the prefix.
pub fn middle_lane_from_first_old(first_counter: &RangeCounter, length: u64) -> (r: u64)
    ensures
        r == prefix_lane_old(first_counter.counter@, length),
{
    broadcast use lemma_wrapping_mul, lemma_wrapping_add, lemma_wrapping_sub;

    let s = &first_counter.counter;
    let mut len_var = length;
    let mut acc = PYHASH_PARAM_OLD_1;
    let mut mult = PYHASH_PARAM_OLD_2;
    let mut i: usize = 0;
    while i < s.len()
        invariant
            0 <= i <= s@.len(),
            len_var == subw(length, i as u64),
            acc == legacy_fold_at(PYHASH_PARAM_OLD_1, length, 0, s@.take(i as int)),
            mult == legacy_mult_at(length, i as nat),
        decreases s@.len() - i,
    {
        proof {
            reveal(crate::hash::legacy_step);
            lemma_legacy_fold_snoc(PYHASH_PARAM_OLD_1, length, 0, s@.take(i as int), s@[i as int]);
            assert(s@.take(i as int).push(s@[i as int]) =~= s@.take(i + 1));
            assert(subw(subw(length, i as u64), 1) == subw(length, (i + 1) as u64)) by {
                let m: int = 0x1_0000_0000_0000_0000;
                vstd::arithmetic::div_mod::lemma_sub_mod_noop(length - i, 1, m);
                vstd::arithmetic::div_mod::lemma_mod_mod(1, m, 1);
                vstd::arithmetic::div_mod::lemma_small_mod(1, m as nat);
            }
        }
        len_var = len_var.wrapping_sub(1);
        acc = (acc ^ s[i]).wrapping_mul(mult);
        mult = mult.wrapping_add(PYHASH_PARAM_OLD_3).wrapping_add(len_var << 1);
        i = i + 1;
    }
    proof {
        assert(s@.take(s@.len() as int) =~= s@);
    }
    acc
}

/// The suffix lane of the older model: seed the multiplier beyond the last
/// position from its closed form, walk the suffix back, and undo the
/// multiplication of the middle position.
#[verifier::rlimit(100)]
pub fn middle_lane_from_second_old(
    hash_last: u64,
    second_counter: &RangeCounter,
    length: u64,
) -> (r: u64)
    requires
        second_counter.counter@.len() + 1 <= length,
    ensures
        r == suffix_lane_old(
            hash_last,
            second_counter.counter@,
            length,
            (length - second_counter.counter@.len() - 1) as nat,
        ),
{
    broadcast use lemma_wrapping_mul, lemma_wrapping_add, lemma_wrapping_sub;

    let s = &second_counter.counter;
    let slen = s.len();
    let ghost m: int = 0x1_0000_0000_0000_0000;
    let mut acc = hash_last;
    let mut mult = PYHASH_PARAM_OLD_2.wrapping_add(length.wrapping_mul(PYHASH_PARAM_OLD_3));
    mult = mult.wrapping_add(length.wrapping_mul(length.wrapping_sub(1)));
    proof {
        // The seed equals the multiplier closed form at position `length`.
        let ll: int = length as int;
        let p2: int = PYHASH_PARAM_OLD_2 as int;
        let p3: int = PYHASH_PARAM_OLD_3 as int;
        let b1 = mulw(length, PYHASH_PARAM_OLD_3);
        vstd::arithmetic::div_mod::lemma_small_mod((length - 1) as nat, m as nat);
        assert(subw(length, 1) == length - 1);
        let b2 = mulw(length, subw(length, 1));
        crate::hash::lemma_addw_three_pub(p2, PYHASH_PARAM_OLD_2, b1, b2);
        assert(p2 % m == p2) by {
            vstd::arithmetic::div_mod::lemma_small_mod(PYHASH_PARAM_OLD_2 as nat, m as nat);
        }
        assert((p2 + b1 + b2) % m == (p2 + b1 + ll * (ll - 1)) % m) by {
            vstd::arithmetic::div_mod::lemma_add_mod_noop_right(p2 + b1, ll * (ll - 1), m);
        }
        assert((p2 + b1 + ll * (ll - 1)) % m == (p2 + ll * p3 + ll * (ll - 1)) % m) by {
            vstd::arithmetic::div_mod::lemma_add_mod_noop_right(
                p2 + ll * (ll - 1),
                ll * p3,
                m,
            );
        }
        lemma_mult_at_closed(length, length);
        assert(p2 + ll * p3 + ll * (ll - 1) == p2 + ll * p3 + 2 * ll * ll - ll * (ll + 1))
            by (nonlinear_arith);
        assert(mult == legacy_mult_at(length, length as nat));
    }
    let mut length_2: u64 = 0;
    let mut i: usize = slen;
    while i > 0
        invariant
            m == 0x1_0000_0000_0000_0000,
            s@.len() == slen,
            slen + 1 <= length,
            0 <= i <= slen,
            length_2 == slen - i,
            acc == legacy_rev_fold_at(
                hash_last,
                length,
                (length - slen + i) as nat,
                s@.skip(i as int),
            ),
            mult == legacy_mult_at(length, (length - slen + i) as nat),
        decreases i,
    {
        proof {
            let pos: nat = (length - slen + i) as nat;
            assert(legacy_mult_at(length, pos) == addw(
                addw(legacy_mult_at(length, (pos - 1) as nat), PYHASH_PARAM_OLD_3),
                shl1(subw(length, pos as u64)),
            ));
            vstd::arithmetic::div_mod::lemma_small_mod((slen - i) as nat, m as nat);
            assert(subw(length, pos as u64) == length_2);
            lemma_subw_sub(
                legacy_mult_at(length, pos),
                PYHASH_PARAM_OLD_3,
                shl1(length_2),
            );
            lemma_addw_subw(
                addw(legacy_mult_at(length, (pos - 1) as nat), PYHASH_PARAM_OLD_3),
                shl1(length_2),
            );
            lemma_addw_subw(legacy_mult_at(length, (pos - 1) as nat), PYHASH_PARAM_OLD_3);
        }
        mult = mult.wrapping_sub(PYHASH_PARAM_OLD_3).wrapping_sub(length_2 << 1);
        proof {
            reveal(crate::hash::legacy_rev_step);
            assert(mult == legacy_mult_at(length, (length - slen + i - 1) as nat));
            lemma_mult_at_odd(length, (length - slen + i - 1) as nat);
            assert(s@.skip(i - 1).drop_first() =~= s@.skip(i as int));
            assert(s@.skip(i - 1)[0] == s@[i - 1]);
        }
        i = i - 1;
        let inv = inverse_mod(mult);
        acc = acc.wrapping_mul(inv) ^ s[i];
        length_2 = length_2 + 1;
    }
    proof {
        assert(s@.skip(0) =~= s@);
        let pos: nat = (length - slen) as nat;
        assert(legacy_mult_at(length, pos) == addw(
            addw(legacy_mult_at(length, (pos - 1) as nat), PYHASH_PARAM_OLD_3),
            shl1(subw(length, pos as u64)),
        ));
        vstd::arithmetic::div_mod::lemma_small_mod(slen as nat, m as nat);
        assert(subw(length, pos as u64) == length_2);
        lemma_subw_sub(legacy_mult_at(length, pos), PYHASH_PARAM_OLD_3, shl1(length_2));
        lemma_addw_subw(
            addw(legacy_mult_at(length, (pos - 1) as nat), PYHASH_PARAM_OLD_3),
            shl1(length_2),
        );
        lemma_addw_subw(legacy_mult_at(length, (pos - 1) as nat), PYHASH_PARAM_OLD_3);
    }
    mult = mult.wrapping_sub(PYHASH_PARAM_OLD_3).wrapping_sub(length_2 << 1);
    proof {
        assert(mult == legacy_mult_at(length, (length - slen - 1) as nat));
        lemma_mult_at_odd(length, (length - slen - 1) as nat);
    }
    let inv = inverse_mod(mult);
    acc.wrapping_mul(inv)
}

/// The unique first element that pairs with `i` under the older model.
fn l2_partner_old(hash_last: u64, i: u64) -> (lane: u64)
    ensures
        forall|a: u64|
            (legacy_fold_at(PYHASH_PARAM_OLD_1, 2, 0, seq![a, i]) == hash_last) <==> (a == lane),
{
    broadcast use lemma_wrapping_mul;

    let acc = hash_last.wrapping_mul(PYHASH_PARAM_OLD_MULT_INV) ^ i;
    let lane = acc.wrapping_mul(PYHASH_PARAM_OLD_2_INV) ^ PYHASH_PARAM_OLD_1;
    proof {
        reveal(crate::hash::legacy_rev_step);
        lemma_inverse_constants();
        lemma_inv64_unique(PYHASH_PARAM_OLD_2, PYHASH_PARAM_OLD_2_INV);
        assert(legacy_mult_at(2, 0) == PYHASH_PARAM_OLD_2);
        assert(subw(2, 1) == 1);
        assert(shl1(1u64) == 2) by (bit_vector);
        assert(legacy_mult_at(2, 1) == addw(
            addw(PYHASH_PARAM_OLD_2, PYHASH_PARAM_OLD_3),
            shl1(subw(2, 1)),
        ));
        assert(addw(1000003, 82520) == 1082523);
        assert(addw(1082523, 2) == 1082525);
        assert(legacy_mult_at(2, 1) == 1082525);
        lemma_inv64_unique(1082525, PYHASH_PARAM_OLD_MULT_INV);
        assert(legacy_rev_fold_at(hash_last, 2, 2, Seq::<u64>::empty()) == hash_last);
        assert(seq![i].len() == 1 && seq![i][0] == i);
        assert(seq![i].drop_first() =~= Seq::<u64>::empty());
        assert(legacy_rev_fold_at(hash_last, 2, 1, seq![i]) == legacy_rev_step(
            hash_last,
            i,
            legacy_mult_at(2, 1),
        ));
        assert(acc == legacy_rev_fold_at(hash_last, 2, 1, seq![i]));
        assert(legacy_mult_at(2, 0) == PYHASH_PARAM_OLD_2);
        assert(lane == (suffix_lane_old(hash_last, seq![i], 2, 0) ^ prefix_lane_old(
            Seq::<u64>::empty(),
            2,
        )));
        assert forall|a: u64|
            (legacy_fold_at(PYHASH_PARAM_OLD_1, 2, 0, seq![a, i]) == hash_last) <==> (a
                == lane) by {
            lemma_lane_meet_old(hash_last, Seq::<u64>::empty(), seq![i], a, 2);
            assert(Seq::<u64>::empty() + seq![a] + seq![i] =~= seq![a, i]);
        }
    }
    lane
}

/// Solve for tuples of length 2 directly under the older model.
pub fn tuple_unhash_length_2_old(hash_last: u64, start: u64, end: u64, number: usize) -> (res: Vec<
    Vec<u64>,
>)
    requires
        start < end,
    ensures
        forall|k: int|
            0 <= k < res@.len() ==> valid_result_old(
                #[trigger] res@[k]@,
                2,
                start,
                end,
                hash_last,
            ),
        number != 0 ==> res@.len() <= number,
        forall|t: Seq<u64>|
            (valid_result_old(t, 2, start, end, hash_last) && (res@.len() < number || number == 0))
                ==> #[trigger] result_contains(res@, t),
        forall|k1: int, k2: int|
            0 <= k1 < k2 < res@.len() ==> (#[trigger] res@[k1]@)[1] < (#[trigger] res@[k2]@)[1],
{
    let mut res: Vec<Vec<u64>> = Vec::new();
    let mut cnt: usize = 0;
    let mut i: u64 = start;
    while i < end
        invariant
            start < end,
            start <= i <= end,
            cnt == res@.len(),
            number != 0 ==> cnt < number,
            forall|k: int|
                0 <= k < res@.len() ==> valid_result_old(
                    #[trigger] res@[k]@,
                    2,
                    start,
                    end,
                    hash_last,
                ),
            forall|t: Seq<u64>|
                (valid_result_old(t, 2, start, end, hash_last) && t[1] < i) ==> #[trigger]
                    result_contains(res@, t),
            forall|k: int| 0 <= k < res@.len() ==> (#[trigger] res@[k]@)[1] < i,
            forall|k1: int, k2: int|
                0 <= k1 < k2 < res@.len() ==> (#[trigger] res@[k1]@)[1]
                    < (#[trigger] res@[k2]@)[1],
        decreases end - i,
    {
        let lane = l2_partner_old(hash_last, i);
        let ghost pre_res = res@;
        if start <= lane && lane < end {
            let mut tuple: Vec<u64> = Vec::new();
            tuple.push(lane);
            tuple.push(i);
            proof {
                assert(tuple@ =~= seq![lane, i]);
                assert(legacy_fold_at(PYHASH_PARAM_OLD_1, 2, 0, seq![lane, i]) == hash_last);
                assert(digits_in_range(seq![lane, i], start, end));
                assert(valid_result_old(seq![lane, i], 2, start, end, hash_last));
            }
            res.push(tuple);
            cnt = res.len();
            if cnt == number {
                return res;
            }
        }
        proof {
            assert forall|t: Seq<u64>|
                (valid_result_old(t, 2, start, end, hash_last) && t[1] < i + 1) implies #[trigger]
                result_contains(res@, t) by {
                if t[1] < i {
                    lemma_result_grows(pre_res, res@, t);
                } else {
                    assert(t[1] == i);
                    assert(t =~= seq![t[0], t[1]]);
                    assert(legacy_fold_at(PYHASH_PARAM_OLD_1, 2, 0, seq![t[0], i]) == hash_last);
                    assert(t[0] == lane);
                    assert(res@[res@.len() - 1]@ == t);
                }
            }
        }
        i = i + 1;
    }
    proof {
        assert forall|t: Seq<u64>|
            (valid_result_old(t, 2, start, end, hash_last) && (res@.len() < number || number == 0))
            implies #[trigger] result_contains(res@, t) by {
            assert(start <= t[1] < end);
        }
    }
    res
}

/// Build up to `table_size` suffix entries under the older model.
#[verifier::rlimit(100)]
fn build_table_old(
    counter: &mut RangeCounter,
    hash_last: u64,
    table_size: usize,
    length: u64,
) -> (r: (Vec<(u64, u64)>, bool))
    requires
        old(counter).wf(),
        table_size >= 1,
        old(counter).n + 1 <= length,
    ensures
        final(counter).wf(),
        final(counter).n == old(counter).n,
        final(counter).start == old(counter).start,
        final(counter).end == old(counter).end,
        1 <= r.0@.len() <= table_size,
        old(counter).value() + r.0@.len() <= old(counter).space(),
        r.1 <==> old(counter).value() + r.0@.len() == old(counter).space(),
        !r.1 ==> r.0@.len() == table_size && final(counter).value() == old(counter).value()
            + table_size,
        r.1 ==> final(counter).value() == 0,
        forall|j: int|
            0 <= j < r.0@.len() ==> entry_for_old(
                #[trigger] r.0@[j],
                hash_last,
                old(counter).start,
                old(counter).end,
                old(counter).n as nat,
                length,
                old(counter).value() + j,
                old(counter).value() + j + 1,
            ),
        forall|j: int, d: Seq<u64>|
            #![trigger r.0@[j], cval(d, old(counter).start, old(counter).end - old(counter).start)]
            0 <= j < r.0@.len() && d.len() == old(counter).n && digits_in_range(
                d,
                old(counter).start,
                old(counter).end,
            ) && cval(d, old(counter).start, old(counter).end - old(counter).start) == old(
                counter,
            ).value() + j ==> r.0@[j] == entry_of_old(
                d,
                hash_last,
                old(counter).start,
                old(counter).end,
                length,
            ),
{
    let ghost lo = old(counter).start;
    let ghost hi = old(counter).end;
    let ghost w: int = hi - lo;
    let ghost v0 = old(counter).value();
    let mut table: Vec<(u64, u64)> = Vec::new();
    let mut completed = false;
    let mut k: usize = 0;
    proof {
        lemma_cval_bounds(counter.counter@, lo, hi);
    }
    while !completed && k < table_size
        invariant
            counter.wf(),
            counter.n == old(counter).n,
            counter.start == lo,
            counter.end == hi,
            lo == old(counter).start,
            hi == old(counter).end,
            w == hi - lo,
            v0 == old(counter).value(),
            counter.n + 1 <= length,
            table_size >= 1,
            0 <= k <= table_size,
            table@.len() == k,
            !completed ==> counter.value() == v0 + k && v0 + k < counter.space(),
            completed ==> v0 + k == old(counter).space() && counter.value() == 0,
            v0 + k <= old(counter).space(),
            forall|j: int|
                0 <= j < k ==> entry_for_old(
                    #[trigger] table@[j],
                    hash_last,
                    lo,
                    hi,
                    counter.n as nat,
                    length,
                    v0 + j,
                    v0 + j + 1,
                ),
            forall|j: int, d: Seq<u64>|
                #![trigger table@[j], cval(d, lo, hi - lo)]
                0 <= j < k && d.len() == counter.n && digits_in_range(d, lo, hi) && cval(
                    d,
                    lo,
                    hi - lo,
                ) == v0 + j ==> table@[j] == entry_of_old(d, hash_last, lo, hi, length),
        decreases table_size - k,
    {
        let lane = middle_lane_from_second_old(hash_last, counter, length);
        let idx = counter.to_index();
        let ghost cur = counter.counter@;
        proof {
            reveal(crate::search::entry_of_old);
            assert(cval(cur, lo, w) == v0 + k);
            assert(entry_of_old(cur, hash_last, lo, hi, length) == (lane, idx));
        }
        table.push((lane, idx));
        proof {
            reveal(crate::search::entry_of_old);
            reveal(crate::search::entry_for_old);
            assert(table@[k as int] == (lane, idx));
            assert forall|j: int, d: Seq<u64>|
                #![trigger table@[j], cval(d, lo, hi - lo)]
                0 <= j < k + 1 && d.len() == counter.n && digits_in_range(d, lo, hi) && cval(
                    d,
                    lo,
                    hi - lo,
                ) == v0 + j implies table@[j] == entry_of_old(d, hash_last, lo, hi, length) by {
                if j == k {
                    lemma_cval_unique(d, cur, lo, hi);
                    assert(d =~= cur);
                }
            }
            assert(entry_for_old(
                table@[k as int],
                hash_last,
                lo,
                hi,
                counter.n as nat,
                length,
                v0 + k,
                v0 + k + 1,
            )) by {
                assert(cval(cur, lo, (hi - lo) as int) == v0 + k);
            }
        }
        k = k + 1;
        let wrapped = counter.next();
        if wrapped {
            completed = true;
        }
        proof {
            assert(counter.n == old(counter).n);
            assert(counter.width() == old(counter).width());
            assert(counter.space() == old(counter).space());
            if completed {
                assert(v0 + k == old(counter).space());
                assert(counter.value() == 0);
            } else {
                assert(counter.value() == v0 + k);
                assert(v0 + k < old(counter).space());
            }
        }
    }
    (table, completed)
}

/// The tuple reconstructed from a probed entry under the older model.
pub open spec fn tuple_of_old(e: (u64, u64), acc: u64, p: Seq<u64>, lo: u64, hi: u64, n: nat) -> Seq<
    u64,
> {
    p + seq![(e.0 ^ acc)] + index_digits(e.1 as int, lo, (hi - lo) as int, n)
}

/// The entries of one batch under the older model are pairwise distinct.
proof fn lemma_batch_entries_distinct_old(
    table: Seq<(u64, u64)>,
    hash_last: u64,
    lo: u64,
    hi: u64,
    n: nat,
    len: u64,
    v0: int,
)
    requires
        lo < hi,
        pow((hi - lo) as int, n) <= 0x1_0000_0000_0000_0000,
        forall|j: int|
            0 <= j < table.len() ==> entry_for_old(
                #[trigger] table[j],
                hash_last,
                lo,
                hi,
                n,
                len,
                v0 + j,
                v0 + j + 1,
            ),
    ensures
        table.no_duplicates(),
{
    reveal(crate::search::entry_for_old);
    reveal(crate::search::entry_of_old);
    let w: int = hi - lo;
    assert forall|j1: int, j2: int|
        0 <= j1 < table.len() && 0 <= j2 < table.len() && j1 != j2 implies table[j1]
        != table[j2] by {
        let d1 = choose|d: Seq<u64>|
            {
                &&& d.len() == n
                &&& digits_in_range(d, lo, hi)
                &&& v0 + j1 <= #[trigger] cval(d, lo, w) < v0 + j1 + 1
                &&& table[j1] == entry_of_old(d, hash_last, lo, hi, len)
            };
        let d2 = choose|d: Seq<u64>|
            {
                &&& d.len() == n
                &&& digits_in_range(d, lo, hi)
                &&& v0 + j2 <= #[trigger] cval(d, lo, w) < v0 + j2 + 1
                &&& table[j2] == entry_of_old(d, hash_last, lo, hi, len)
            };
        lemma_bval_bounds(d1, lo, hi);
        lemma_bval_bounds(d2, lo, hi);
        vstd::arithmetic::div_mod::lemma_small_mod(
            bval(d1, lo, w) as nat,
            0x1_0000_0000_0000_0000,
        );
        vstd::arithmetic::div_mod::lemma_small_mod(
            bval(d2, lo, w) as nat,
            0x1_0000_0000_0000_0000,
        );
        if table[j1] == table[j2] {
            assert(bval(d1, lo, w) == bval(d2, lo, w));
            lemma_index_digits_of_bval(d1, lo, hi);
            lemma_index_digits_of_bval(d2, lo, hi);
            assert(d1 =~= d2);
            assert(false);
        }
    }
    assert(table.no_duplicates());
}

/// Probe the table for one prefix state under the older model: the middle
/// element is the exclusive-or of the entry's lane with the prefix lane.
#[verifier::rlimit(100)]
fn probe_prefix_old(
    table: &Vec<(u64, u64)>,
    cm: &ahash::AHashMap<u64, (usize, usize), ahash::RandomState>,
    second: &RangeCounter,
    first: &RangeCounter,
    hash_last: u64,
    length: usize,
    number: usize,
    chunk_size: u64,
    shift: u64,
    res: &mut Vec<Vec<u64>>,
    Ghost(v0): Ghost<int>,
    Ghost(v1): Ghost<int>,
) -> (capped: bool)
    requires
        first.wf(),
        second.wf(),
        first.start == second.start,
        first.end == second.end,
        first.n + second.n + 1 == length,
        length <= u64::MAX,
        shift <= 63,
        chunk_size as int == pow2(shift as nat),
        pow2(shift as nat) <= first.end - first.start,
        first.end - first.start < pow2((shift + 1) as nat),
        table_sorted(table@),
        table@.no_duplicates(),
        chunk_index_ok(chunk_map_of(*cm), table@, chunk_size),
        pow(second.width(), second.n as nat) <= 0x1_0000_0000_0000_0000,
        forall|e: (u64, u64)| #[trigger]
            table@.contains(e) ==> entry_for_old(
                e,
                hash_last,
                second.start,
                second.end,
                second.n as nat,
                length as u64,
                v0,
                v1,
            ),
        forall|d: Seq<u64>|
            d.len() == second.n && digits_in_range(d, second.start, second.end) && v0 <= cval(
                d,
                second.start,
                second.width(),
            ) < v1 ==> table@.contains(
                #[trigger] entry_of_old(d, hash_last, second.start, second.end, length as u64),
            ),
        number == 0 || old(res)@.len() < number,
    ensures
        old(res)@.len() <= final(res)@.len(),
        forall|k: int| 0 <= k < old(res)@.len() ==> final(res)@[k] == old(res)@[k],
        forall|k: int|
            old(res)@.len() <= k < final(res)@.len() ==> valid_result_old(
                #[trigger] final(res)@[k]@,
                length as u64,
                first.start,
                first.end,
                hash_last,
            ),
        number != 0 ==> final(res)@.len() <= number,
        capped <==> (number != 0 && final(res)@.len() == number),
        forall|k1: int, k2: int|
            old(res)@.len() <= k1 < k2 < final(res)@.len() ==> (#[trigger] final(res)@[k1]@)
                != (#[trigger] final(res)@[k2]@),
        forall|k: int|
            old(res)@.len() <= k < final(res)@.len() ==> (#[trigger] final(res)@[k]@).take(
                first.n as int,
            ) == first.counter@ && v0 <= cval(
                final(res)@[k]@.skip(first.n + 1),
                second.start,
                second.width(),
            ) < v1,
        !capped ==> forall|mid: u64, d: Seq<u64>|
            (first.start <= mid < first.end && d.len() == second.n && digits_in_range(
                d,
                second.start,
                second.end,
            ) && v0 <= cval(d, second.start, second.width()) < v1 && legacy_fold_at(
                PYHASH_PARAM_OLD_1,
                length as u64,
                0,
                first.counter@ + seq![mid] + d,
            ) == hash_last) ==> #[trigger] result_contains(
                final(res)@,
                first.counter@ + seq![mid] + d,
            ),
{
    let lo = first.start;
    let hi = first.end;
    let ghost w: int = hi - lo;
    let ghost p = first.counter@;
    let ghost lenu: u64 = length as u64;
    let acc = middle_lane_from_first_old(first, length as u64);
    let cand = probe_window_old(table, cm, chunk_size, shift, acc, lo, hi);
    proof {
        assert forall|e: (u64, u64)| #[trigger] cand@.contains(e) implies entry_for_old(
            e,
            hash_last,
            lo,
            hi,
            second.n as nat,
            lenu,
            v0,
            v1,
        ) && lo <= (e.0 ^ acc) < hi by {
            assert(table@.contains(e));
        }
    }
    let mut ci: usize = 0;
    let mut capped = false;
    while !capped && ci < cand.len()
        invariant
            first.wf(),
            second.wf(),
            first.start == lo,
            first.end == hi,
            second.start == lo,
            second.end == hi,
            w == hi - lo,
            p == first.counter@,
            first.n + second.n + 1 == length,
            lenu == length as u64,
            length <= u64::MAX,
            pow(second.width(), second.n as nat) <= 0x1_0000_0000_0000_0000,
            acc == prefix_lane_old(p, lenu),
            forall|e: (u64, u64)| #[trigger]
                cand@.contains(e) ==> entry_for_old(
                    e,
                    hash_last,
                    lo,
                    hi,
                    second.n as nat,
                    lenu,
                    v0,
                    v1,
                ) && lo <= (e.0 ^ acc) < hi,
            0 <= ci <= cand@.len(),
            old(res)@.len() <= res@.len(),
            forall|k: int| 0 <= k < old(res)@.len() ==> res@[k] == old(res)@[k],
            forall|k: int|
                old(res)@.len() <= k < res@.len() ==> valid_result_old(
                    #[trigger] res@[k]@,
                    lenu,
                    lo,
                    hi,
                    hash_last,
                ),
            number != 0 ==> res@.len() <= number,
            capped <==> (number != 0 && res@.len() == number),
            res@.len() == old(res)@.len() + ci,
            forall|c: int|
                0 <= c < ci ==> res@[old(res)@.len() + c]@ == tuple_of_old(
                    #[trigger] cand@[c],
                    acc,
                    p,
                    lo,
                    hi,
                    second.n as nat,
                ),
            forall|k: int|
                old(res)@.len() <= k < res@.len() ==> (#[trigger] res@[k]@).take(first.n as int)
                    == p && v0 <= cval(res@[k]@.skip(first.n + 1), lo, w) < v1,
        decreases cand@.len() - ci,
    {
        let e = cand[ci];
        let mid = e.0 ^ acc;
        let suffix = second.from_index(e.1);
        let ghost d = choose|d: Seq<u64>|
            {
                &&& d.len() == second.n as nat
                &&& digits_in_range(d, lo, hi)
                &&& v0 <= #[trigger] cval(d, lo, w) < v1
                &&& e == entry_of_old(d, hash_last, lo, hi, lenu)
            };
        proof {
            assert(cand@[ci as int] == e);
            assert(cand@.contains(e));
            reveal(crate::search::entry_for_old);
            reveal(crate::search::entry_of_old);
            assert(entry_for_old(e, hash_last, lo, hi, second.n as nat, lenu, v0, v1));
            lemma_index_round_trip(d, lo, hi);
            assert(suffix@ =~= d);
            assert(lo <= mid < hi);
            lemma_lane_meet_old(hash_last, p, d, mid, lenu);
            assert(e.0 == suffix_lane_old(hash_last, d, lenu, p.len()));
            crate::arith::lemma_xor_cancel(acc, e.0);
            assert(mid == (e.0 ^ acc));
            assert(legacy_fold_at(PYHASH_PARAM_OLD_1, lenu, 0, p + seq![mid] + d) == hash_last);
        }
        let mut tuple: Vec<u64> = Vec::new();
        let mut pi: usize = 0;
        while pi < first.counter.len()
            invariant
                0 <= pi <= first.counter@.len(),
                tuple@ == first.counter@.take(pi as int),
            decreases first.counter@.len() - pi,
        {
            tuple.push(first.counter[pi]);
            proof {
                assert(first.counter@.take(pi as int).push(first.counter@[pi as int])
                    =~= first.counter@.take(pi + 1));
            }
            pi = pi + 1;
        }
        proof {
            assert(tuple@ =~= first.counter@);
        }
        tuple.push(mid);
        let mut si: usize = 0;
        while si < suffix.len()
            invariant
                0 <= si <= suffix@.len(),
                tuple@ == first.counter@ + seq![mid] + suffix@.take(si as int),
            decreases suffix@.len() - si,
        {
            proof {
                assert((first.counter@ + seq![mid] + suffix@.take(si as int)).push(
                    suffix@[si as int],
                ) =~= first.counter@ + seq![mid] + suffix@.take(si + 1));
            }
            tuple.push(suffix[si]);
            si = si + 1;
        }
        let ghost pre_res = res@;
        proof {
            reveal(crate::search::entry_of_old);
            assert(suffix@.take(suffix@.len() as int) =~= suffix@);
            assert(tuple@ =~= p + seq![mid] + d);
            assert(tuple@.take(first.n as int) =~= p);
            assert(tuple@.skip(first.n + 1) =~= d);
            assert(tuple@ == tuple_of_old(e, acc, p, lo, hi, second.n as nat)) by {
                assert(index_digits(e.1 as int, lo, w, second.n as nat) =~= d);
            }
            assert(valid_result_old(tuple@, lenu, lo, hi, hash_last)) by {
                assert(tuple@.len() == length);
                assert forall|ii: int| 0 <= ii < tuple@.len() implies lo <= #[trigger] tuple@[ii]
                    < hi by {
                    if ii < p.len() {
                        assert(tuple@[ii] == p[ii]);
                    } else if ii == p.len() {
                        assert(tuple@[ii] == mid);
                    } else {
                        assert(tuple@[ii] == d[ii - p.len() - 1]);
                    }
                }
            }
        }
        res.push(tuple);
        if res.len() == number {
            capped = true;
        }
        proof {
            assert(res@[old(res)@.len() + ci]@ == tuple_of_old(
                cand@[ci as int],
                acc,
                p,
                lo,
                hi,
                second.n as nat,
            ));
        }
        ci = ci + 1;
    }
    proof {
        // Distinct candidates reconstruct distinct tuples.
        assert forall|k1: int, k2: int|
            old(res)@.len() <= k1 < k2 < res@.len() implies (#[trigger] res@[k1]@)
            != (#[trigger] res@[k2]@) by {
            let ca = k1 - old(res)@.len();
            let cb = k2 - old(res)@.len();
            let ea = cand@[ca];
            let eb = cand@[cb];
            assert(cand@.contains(ea) && cand@.contains(eb));
            reveal(crate::search::entry_for_old);
            reveal(crate::search::entry_of_old);
            let da = choose|d: Seq<u64>|
                {
                    &&& d.len() == second.n as nat
                    &&& digits_in_range(d, lo, hi)
                    &&& v0 <= #[trigger] cval(d, lo, w) < v1
                    &&& ea == entry_of_old(d, hash_last, lo, hi, lenu)
                };
            let db = choose|d: Seq<u64>|
                {
                    &&& d.len() == second.n as nat
                    &&& digits_in_range(d, lo, hi)
                    &&& v0 <= #[trigger] cval(d, lo, w) < v1
                    &&& eb == entry_of_old(d, hash_last, lo, hi, lenu)
                };
            lemma_index_round_trip(da, lo, hi);
            lemma_index_round_trip(db, lo, hi);
            lemma_bval_bounds(da, lo, hi);
            lemma_bval_bounds(db, lo, hi);
            vstd::arithmetic::div_mod::lemma_small_mod(
                bval(da, lo, w) as nat,
                0x1_0000_0000_0000_0000,
            );
            vstd::arithmetic::div_mod::lemma_small_mod(
                bval(db, lo, w) as nat,
                0x1_0000_0000_0000_0000,
            );
            assert(res@[k1]@ == tuple_of_old(ea, acc, p, lo, hi, second.n as nat));
            assert(res@[k2]@ == tuple_of_old(eb, acc, p, lo, hi, second.n as nat));
            assert(index_digits(ea.1 as int, lo, w, second.n as nat) =~= da);
            assert(index_digits(eb.1 as int, lo, w, second.n as nat) =~= db);
            if da =~= db {
                assert(ea == eb);
                assert(false);
            } else {
                assert(res@[k1]@.skip((p.len() + 1) as int) =~= da);
                assert(res@[k2]@.skip((p.len() + 1) as int) =~= db);
            }
        }
        if !capped {
            assert forall|mid: u64, d: Seq<u64>|
                (lo <= mid < hi && d.len() == second.n && digits_in_range(d, lo, hi) && v0 <= cval(
                    d,
                    lo,
                    w,
                ) < v1 && legacy_fold_at(PYHASH_PARAM_OLD_1, lenu, 0, p + seq![mid] + d)
                    == hash_last) implies #[trigger] result_contains(res@, p + seq![mid] + d) by {
                let ev = entry_of_old(d, hash_last, lo, hi, lenu);
                reveal(crate::search::entry_of_old);
                assert(table@.contains(ev));
                lemma_lane_meet_old(hash_last, p, d, mid, lenu);
                assert(mid == (ev.0 ^ acc));
                crate::arith::lemma_xor_cancel(mid, acc);
                assert((ev.0 ^ acc) == mid);
                assert(lo <= (ev.0 ^ acc) < hi);
                assert(cand@.contains(ev));
                let c = choose|c: int| 0 <= c < cand@.len() && cand@[c] == ev;
                assert(res@[old(res)@.len() + c]@ == tuple_of_old(
                    cand@[c],
                    acc,
                    p,
                    lo,
                    hi,
                    second.n as nat,
                ));
                assert(tuple_of_old(ev, acc, p, lo, hi, second.n as nat) =~= p + seq![mid] + d)
                    by {
                    lemma_index_round_trip(d, lo, hi);
                    assert(index_digits(ev.1 as int, lo, w, second.n as nat) =~= d);
                }
                assert(result_contains(res@, p + seq![mid] + d));
            }
        }
    }
    capped
}

/// Sweep every prefix state against one suffix table under the older model.
#[verifier::rlimit(100)]
fn probe_batch_old(
    table: &Vec<(u64, u64)>,
    cm: &ahash::AHashMap<u64, (usize, usize), ahash::RandomState>,
    second: &RangeCounter,
    first_n: usize,
    hash_last: u64,
    length: usize,
    number: usize,
    chunk_size: u64,
    shift: u64,
    res: &mut Vec<Vec<u64>>,
    Ghost(v0): Ghost<int>,
    Ghost(v1): Ghost<int>,
) -> (capped: bool)
    requires
        second.wf(),
        first_n + second.n + 1 == length,
        length <= u64::MAX,
        shift <= 63,
        chunk_size as int == pow2(shift as nat),
        pow2(shift as nat) <= second.end - second.start,
        second.end - second.start < pow2((shift + 1) as nat),
        table_sorted(table@),
        table@.no_duplicates(),
        chunk_index_ok(chunk_map_of(*cm), table@, chunk_size),
        pow(second.width(), second.n as nat) <= 0x1_0000_0000_0000_0000,
        forall|e: (u64, u64)| #[trigger]
            table@.contains(e) ==> entry_for_old(
                e,
                hash_last,
                second.start,
                second.end,
                second.n as nat,
                length as u64,
                v0,
                v1,
            ),
        forall|d: Seq<u64>|
            d.len() == second.n && digits_in_range(d, second.start, second.end) && v0 <= cval(
                d,
                second.start,
                second.width(),
            ) < v1 ==> table@.contains(
                #[trigger] entry_of_old(d, hash_last, second.start, second.end, length as u64),
            ),
        number == 0 || old(res)@.len() < number,
    ensures
        old(res)@.len() <= final(res)@.len(),
        forall|k: int| 0 <= k < old(res)@.len() ==> final(res)@[k] == old(res)@[k],
        forall|k: int|
            old(res)@.len() <= k < final(res)@.len() ==> valid_result_old(
                #[trigger] final(res)@[k]@,
                length as u64,
                second.start,
                second.end,
                hash_last,
            ),
        number != 0 ==> final(res)@.len() <= number,
        capped <==> (number != 0 && final(res)@.len() == number),
        forall|k1: int, k2: int|
            old(res)@.len() <= k1 < k2 < final(res)@.len() ==> (#[trigger] final(res)@[k1]@)
                != (#[trigger] final(res)@[k2]@),
        forall|k: int|
            old(res)@.len() <= k < final(res)@.len() ==> v0 <= cval(
                (#[trigger] final(res)@[k]@).skip(first_n + 1),
                second.start,
                second.width(),
            ) < v1,
        forall|k1: int, k2: int|
            old(res)@.len() <= k1 < k2 < final(res)@.len() ==> cval(
                (#[trigger] final(res)@[k1]@).take(first_n as int),
                second.start,
                second.width(),
            ) <= cval((#[trigger] final(res)@[k2]@).take(first_n as int), second.start, second.width()),
        !capped ==> forall|t: Seq<u64>|
            (valid_result_old(t, length as u64, second.start, second.end, hash_last) && v0 <= cval(
                t.skip(first_n + 1),
                second.start,
                second.width(),
            ) < v1) ==> #[trigger] result_contains(final(res)@, t),
{
    let lo = second.start;
    let hi = second.end;
    let ghost w: int = hi - lo;
    let ghost lenu: u64 = length as u64;
    let mut first = RangeCounter::new(lo, hi, first_n);
    let mut capped = false;
    let mut done = false;
    proof {
        vstd::arithmetic::power::lemma_pow_positive(first.width(), first_n as nat);
        assert forall|t: Seq<u64>|
            (valid_result_old(t, lenu, lo, hi, hash_last) && v0 <= cval(
                t.skip(first_n + 1),
                lo,
                w,
            ) < v1 && cval(t.take(first_n as int), lo, w) < 0) implies #[trigger] result_contains(
            res@,
            t,
        ) by {
            let tp = t.take(first_n as int);
            assert(digits_in_range(tp, lo, hi)) by {
                assert(forall|ii: int| 0 <= ii < tp.len() ==> tp[ii] == #[trigger] t[ii]);
            }
            lemma_cval_bounds(tp, lo, hi);
        }
    }
    while !done && !capped
        invariant
            second.wf(),
            second.start == lo,
            second.end == hi,
            w == hi - lo,
            lenu == length as u64,
            length <= u64::MAX,
            first.wf(),
            first.start == lo,
            first.end == hi,
            first.n == first_n,
            first_n + second.n + 1 == length,
            shift <= 63,
            chunk_size as int == pow2(shift as nat),
            pow2(shift as nat) <= hi - lo,
            hi - lo < pow2((shift + 1) as nat),
            table_sorted(table@),
            table@.no_duplicates(),
            chunk_index_ok(chunk_map_of(*cm), table@, chunk_size),
            pow(second.width(), second.n as nat) <= 0x1_0000_0000_0000_0000,
            forall|e: (u64, u64)| #[trigger]
                table@.contains(e) ==> entry_for_old(
                    e,
                    hash_last,
                    lo,
                    hi,
                    second.n as nat,
                    lenu,
                    v0,
                    v1,
                ),
            forall|d: Seq<u64>|
                d.len() == second.n && digits_in_range(d, lo, hi) && v0 <= cval(d, lo, w) < v1
                    ==> table@.contains(#[trigger] entry_of_old(d, hash_last, lo, hi, lenu)),
            old(res)@.len() <= res@.len(),
            forall|k: int| 0 <= k < old(res)@.len() ==> res@[k] == old(res)@[k],
            forall|k: int|
                old(res)@.len() <= k < res@.len() ==> valid_result_old(
                    #[trigger] res@[k]@,
                    lenu,
                    lo,
                    hi,
                    hash_last,
                ),
            number != 0 ==> res@.len() <= number,
            capped <==> (number != 0 && res@.len() == number),
            forall|k1: int, k2: int|
                old(res)@.len() <= k1 < k2 < res@.len() ==> (#[trigger] res@[k1]@)
                    != (#[trigger] res@[k2]@),
            forall|k: int|
                old(res)@.len() <= k < res@.len() ==> v0 <= cval(
                    (#[trigger] res@[k]@).skip(first_n + 1),
                    lo,
                    w,
                ) < v1,
            forall|k1: int, k2: int|
                old(res)@.len() <= k1 < k2 < res@.len() ==> cval(
                    (#[trigger] res@[k1]@).take(first_n as int),
                    lo,
                    w,
                ) <= cval((#[trigger] res@[k2]@).take(first_n as int), lo, w),
            !capped ==> forall|k: int|
                old(res)@.len() <= k < res@.len() ==> cval(
                    (#[trigger] res@[k]@).take(first_n as int),
                    lo,
                    w,
                ) < (if done {
                    first.space()
                } else {
                    first.value()
                }),
            0 <= first.value() < first.space(),
            done ==> first.value() == 0,
            !capped ==> forall|t: Seq<u64>|
                (valid_result_old(t, lenu, lo, hi, hash_last) && v0 <= cval(
                    t.skip(first_n + 1),
                    lo,
                    w,
                ) < v1 && cval(t.take(first_n as int), lo, w) < (if done {
                    first.space()
                } else {
                    first.value()
                })) ==> #[trigger] result_contains(res@, t),
        decreases (if done || capped {
            0int
        } else {
            first.space() - first.value() + 1
        }),
    {
        let ghost pv = first.value();
        let ghost pre_res = res@;
        let c = probe_prefix_old(
            table,
            cm,
            second,
            &first,
            hash_last,
            length,
            number,
            chunk_size,
            shift,
            res,
            Ghost(v0),
            Ghost(v1),
        );
        let ghost pdigits = first.counter@;
        proof {
            assert forall|k1: int, k2: int|
                old(res)@.len() <= k1 < k2 < res@.len() implies (#[trigger] res@[k1]@)
                != (#[trigger] res@[k2]@) by {
                if k2 < pre_res.len() {
                    assert(res@[k1] == pre_res[k1] && res@[k2] == pre_res[k2]);
                } else if k1 >= pre_res.len() {
                } else {
                    assert(res@[k1] == pre_res[k1]);
                    assert(cval((res@[k1]@).take(first_n as int), lo, w) < pv);
                    assert(res@[k2]@.take(first_n as int) == pdigits);
                    assert(cval(pdigits, lo, w) == pv);
                    if res@[k1]@ == res@[k2]@ {
                        assert(false);
                    }
                }
            }
            assert forall|k1: int, k2: int|
                old(res)@.len() <= k1 < k2 < res@.len() implies cval(
                (#[trigger] res@[k1]@).take(first_n as int),
                lo,
                w,
            ) <= cval((#[trigger] res@[k2]@).take(first_n as int), lo, w) by {
                if k2 < pre_res.len() {
                    assert(res@[k1] == pre_res[k1] && res@[k2] == pre_res[k2]);
                } else if k1 >= pre_res.len() {
                    assert(res@[k1]@.take(first_n as int) == pdigits);
                    assert(res@[k2]@.take(first_n as int) == pdigits);
                } else {
                    assert(res@[k1] == pre_res[k1]);
                    assert(cval((res@[k1]@).take(first_n as int), lo, w) < pv);
                    assert(res@[k2]@.take(first_n as int) == pdigits);
                    assert(cval(pdigits, lo, w) == pv);
                }
            }
        }
        if c {
            capped = true;
        } else {
            let wrapped = first.next();
            if wrapped {
                done = true;
            }
            proof {
                assert forall|k: int|
                    old(res)@.len() <= k < res@.len() implies cval(
                    (#[trigger] res@[k]@).take(first_n as int),
                    lo,
                    w,
                ) < (if done {
                    first.space()
                } else {
                    first.value()
                }) by {
                    if k < pre_res.len() {
                        assert(res@[k] == pre_res[k]);
                    } else {
                        assert(res@[k]@.take(first_n as int) == pdigits);
                        assert(cval(pdigits, lo, w) == pv);
                    }
                }
                assert forall|t: Seq<u64>|
                    (valid_result_old(t, lenu, lo, hi, hash_last) && v0 <= cval(
                        t.skip(first_n + 1),
                        lo,
                        w,
                    ) < v1 && cval(t.take(first_n as int), lo, w) < (if done {
                        first.space()
                    } else {
                        first.value()
                    })) implies #[trigger] result_contains(res@, t) by {
                    let tp = t.take(first_n as int);
                    let tm = t[first_n as int];
                    let ts = t.skip(first_n + 1);
                    assert(digits_in_range(tp, lo, hi)) by {
                        assert(forall|ii: int| 0 <= ii < tp.len() ==> tp[ii] == #[trigger] t[ii]);
                    }
                    assert(digits_in_range(ts, lo, hi)) by {
                        assert(forall|ii: int|
                            0 <= ii < ts.len() ==> #[trigger] ts[ii] == t[ii + first_n + 1]);
                    }
                    lemma_cval_bounds(tp, lo, hi);
                    if cval(tp, lo, w) < pv {
                        lemma_result_grows(pre_res, res@, t);
                    } else {
                        assert(cval(tp, lo, w) == pv);
                        lemma_cval_unique(tp, pdigits, lo, hi);
                        assert(tp =~= pdigits);
                        assert(t =~= pdigits + seq![tm] + ts);
                        assert(lo <= tm < hi);
                        assert(legacy_fold_at(PYHASH_PARAM_OLD_1, lenu, 0, pdigits + seq![tm] + ts)
                            == hash_last);
                        assert(result_contains(res@, pdigits + seq![tm] + ts));
                    }
                }
            }
        }
    }
    proof {
        if !capped {
            assert forall|t: Seq<u64>|
                (valid_result_old(t, lenu, lo, hi, hash_last) && v0 <= cval(
                    t.skip(first_n + 1),
                    lo,
                    w,
                ) < v1) implies #[trigger] result_contains(res@, t) by {
                let tp = t.take(first_n as int);
                assert(digits_in_range(tp, lo, hi)) by {
                    assert(forall|ii: int| 0 <= ii < tp.len() ==> tp[ii] == #[trigger] t[ii]);
                }
                lemma_cval_bounds(tp, lo, hi);
                assert(cval(tp, lo, w) < first.space());
            }
        }
    }
    capped
}

/// Search for every tuple of the given length over `[start, end)` whose hash
/// under the older model equals `hash`: the same meet-in-the-middle sweep,
/// with the table bucketed by a power-of-two chunk size and the middle
/// element recovered by exclusive-or.
#[verifier::rlimit(100)]
pub fn tuple_unhash_old(
    length: usize,
    hash: u64,
    start: u64,
    end: u64,
    table_size: usize,
    number: usize,
) -> (res: Vec<Vec<u64>>)
    requires
        length >= 2,
        length <= u64::MAX,
        start < end,
        table_size >= 1,
        pow((end - start) as int, ((length - 1) / 2) as nat) <= 0x1_0000_0000_0000_0000,
    ensures
        forall|k: int|
            0 <= k < res@.len() ==> is_preimage_old(
                #[trigger] res@[k]@,
                length as u64,
                start,
                end,
                hash,
            ),
        number != 0 ==> res@.len() <= number,
        forall|t: Seq<u64>|
            (is_preimage_old(t, length as u64, start, end, hash) && (res@.len() < number || number
                == 0)) ==> #[trigger] result_contains(res@, t),
        forall|k1: int, k2: int|
            0 <= k1 < k2 < res@.len() ==> (#[trigger] res@[k1]@) != (#[trigger] res@[k2]@),
{
    let ghost lenu: u64 = length as u64;
    let hash_last = hash.wrapping_sub(PYHASH_PARAM_OLD_4);
    proof {
        broadcast use lemma_wrapping_sub;

        assert(hash_last == subw(hash, PYHASH_PARAM_OLD_4));
    }
    if length == 2 {
        let r = tuple_unhash_length_2_old(hash_last, start, end, number);
        proof {
            assert forall|k1: int, k2: int| 0 <= k1 < k2 < r@.len() implies (#[trigger] r@[k1]@)
                != (#[trigger] r@[k2]@) by {
                assert(r@[k1]@[1] < r@[k2]@[1]);
            }
            assert forall|t: Seq<u64>| t.len() == 2 implies (valid_result_old(
                t,
                2,
                start,
                end,
                hash_last,
            ) <==> is_preimage_old(t, 2, start, end, hash)) by {
                lemma_definalize_old(t, hash);
            }
            assert forall|t: Seq<u64>|
                (is_preimage_old(t, lenu, start, end, hash) && (r@.len() < number || number == 0))
                implies #[trigger] result_contains(r@, t) by {
                assert(valid_result_old(t, 2, start, end, hash_last));
            }
        }
        return r;
    }
    let second_half_length = (length - 1) / 2;
    let first_half_length = length - second_half_length - 1;
    let range_width = end - start;
    let range_width_shift = prev_pow2_log(range_width);
    let chunk_size = 1u64 << range_width_shift;
    proof {
        vstd::arithmetic::power2::lemma2_to64_rest();
        vstd::arithmetic::power2::lemma_pow2_strictly_increases(range_width_shift as nat, 64);
        vstd::bits::lemma_u64_shl_is_mul(1u64, range_width_shift);
        assert(chunk_size as int == pow2(range_width_shift as nat));
    }
    let mut second_counter = RangeCounter::new(start, end, second_half_length);
    let mut res: Vec<Vec<u64>> = Vec::new();
    let mut completed = false;
    let mut capped = false;
    let ghost w: int = (end - start) as int;
    proof {
        vstd::arithmetic::power::lemma_pow_positive(w, second_half_length as nat);
        assert forall|t: Seq<u64>|
            (valid_result_old(t, lenu, start, end, hash_last) && cval(
                t.skip(first_half_length + 1),
                start,
                w,
            ) < 0) implies #[trigger] result_contains(res@, t) by {
            let ts = t.skip(first_half_length + 1);
            assert(digits_in_range(ts, start, end)) by {
                assert(forall|ii: int|
                    0 <= ii < ts.len() ==> #[trigger] ts[ii] == t[ii + first_half_length + 1]);
            }
            lemma_cval_bounds(ts, start, end);
        }
    }
    while !completed && !capped
        invariant
            length >= 3,
            lenu == length as u64,
            length <= u64::MAX,
            start < end,
            table_size >= 1,
            w == end - start,
            second_half_length == (length - 1) / 2,
            first_half_length == length - second_half_length - 1,
            range_width == end - start,
            range_width_shift <= 63,
            chunk_size as int == pow2(range_width_shift as nat),
            pow2(range_width_shift as nat) <= end - start,
            end - start < pow2((range_width_shift + 1) as nat),
            second_counter.wf(),
            second_counter.start == start,
            second_counter.end == end,
            second_counter.n == second_half_length,
            pow(w, second_half_length as nat) <= 0x1_0000_0000_0000_0000,
            0 <= second_counter.value() < second_counter.space(),
            completed ==> second_counter.value() == 0,
            forall|k: int|
                0 <= k < res@.len() ==> valid_result_old(
                    #[trigger] res@[k]@,
                    lenu,
                    start,
                    end,
                    hash_last,
                ),
            number != 0 ==> res@.len() <= number,
            capped <==> (number != 0 && res@.len() == number),
            forall|k1: int, k2: int|
                0 <= k1 < k2 < res@.len() ==> (#[trigger] res@[k1]@) != (#[trigger] res@[k2]@),
            !capped ==> forall|k: int|
                0 <= k < res@.len() ==> cval(
                    (#[trigger] res@[k]@).skip(first_half_length + 1),
                    start,
                    w,
                ) < (if completed {
                    second_counter.space()
                } else {
                    second_counter.value()
                }),
            !capped ==> forall|t: Seq<u64>|
                (valid_result_old(t, lenu, start, end, hash_last) && cval(
                    t.skip(first_half_length + 1),
                    start,
                    w,
                ) < (if completed {
                    second_counter.space()
                } else {
                    second_counter.value()
                })) ==> #[trigger] result_contains(res@, t),
        decreases (if completed || capped {
            0int
        } else {
            second_counter.space() - second_counter.value() + 1
        }),
    {
        let ghost v0 = second_counter.value();
        let ghost pre_res = res@;
        let built = build_table_old(&mut second_counter, hash_last, table_size, length as u64);
        let table = built.0;
        let batch_done = built.1;
        let ghost v1 = v0 + table@.len();
        let sorted = sort_table(&table);
        proof {
            vstd::arithmetic::power2::lemma_pow2_pos(range_width_shift as nat);
        }
        let cm = to_chunk(&sorted, chunk_size);
        proof {
            lemma_batch_entries_distinct_old(
                table@,
                hash_last,
                start,
                end,
                second_counter.n as nat,
                lenu,
                v0,
            );
            table@.lemma_multiset_has_no_duplicates();
            sorted@.lemma_multiset_has_no_duplicates_conv();
            assert(sorted@.no_duplicates());
            assert forall|e: (u64, u64)| #[trigger]
                sorted@.contains(e) implies entry_for_old(
                e,
                hash_last,
                start,
                end,
                second_counter.n as nat,
                lenu,
                v0,
                v1,
            ) by {
                assert(table@.contains(e));
                let j = choose|j: int| 0 <= j < table@.len() && table@[j] == e;
                lemma_entry_for_old_widen(
                    e,
                    hash_last,
                    start,
                    end,
                    second_counter.n as nat,
                    lenu,
                    v0 + j,
                    v0 + j + 1,
                    v0,
                    v1,
                );
            }
            assert forall|d: Seq<u64>|
                d.len() == second_counter.n && digits_in_range(d, start, end) && v0 <= cval(
                    d,
                    start,
                    w,
                ) < v1 implies sorted@.contains(
                #[trigger] entry_of_old(d, hash_last, start, end, lenu),
            ) by {
                let j = cval(d, start, w) - v0;
                assert(table@[j] == entry_of_old(d, hash_last, start, end, lenu));
                assert(table@.contains(entry_of_old(d, hash_last, start, end, lenu)));
            }
        }
        let cap2 = probe_batch_old(
            &sorted,
            &cm,
            &second_counter,
            first_half_length,
            hash_last,
            length,
            number,
            chunk_size,
            range_width_shift,
            &mut res,
            Ghost(v0),
            Ghost(v1),
        );
        if cap2 {
            capped = true;
        } else if batch_done {
            completed = true;
        }
        proof {
            assert forall|k1: int, k2: int|
                0 <= k1 < k2 < res@.len() implies (#[trigger] res@[k1]@)
                != (#[trigger] res@[k2]@) by {
                if k2 < pre_res.len() {
                    assert(res@[k1] == pre_res[k1] && res@[k2] == pre_res[k2]);
                } else if k1 >= pre_res.len() {
                } else {
                    assert(res@[k1] == pre_res[k1]);
                    assert(cval((res@[k1]@).skip(first_half_length + 1), start, w) < v0);
                    assert(v0 <= cval((res@[k2]@).skip(first_half_length + 1), start, w) < v1);
                    if res@[k1]@ == res@[k2]@ {
                        assert(false);
                    }
                }
            }
            if !capped {
                assert forall|k: int|
                    0 <= k < res@.len() implies cval(
                    (#[trigger] res@[k]@).skip(first_half_length + 1),
                    start,
                    w,
                ) < (if completed {
                    second_counter.space()
                } else {
                    second_counter.value()
                }) by {
                    if k < pre_res.len() {
                        assert(res@[k] == pre_res[k]);
                    } else {
                        assert(v0 <= cval((res@[k]@).skip(first_half_length + 1), start, w) < v1);
                    }
                }
                assert forall|t: Seq<u64>|
                    (valid_result_old(t, lenu, start, end, hash_last) && cval(
                        t.skip(first_half_length + 1),
                        start,
                        w,
                    ) < (if completed {
                        second_counter.space()
                    } else {
                        second_counter.value()
                    })) implies #[trigger] result_contains(res@, t) by {
                    let sv = cval(t.skip(first_half_length + 1), start, w);
                    if sv < v0 {
                        lemma_result_grows(pre_res, res@, t);
                    } else {
                        assert(v0 <= sv < v1);
                    }
                }
            }
        }
    }
    proof {
        assert forall|t: Seq<u64>| t.len() == length implies (valid_result_old(
            t,
            lenu,
            start,
            end,
            hash_last,
        ) <==> is_preimage_old(t, lenu, start, end, hash)) by {
            lemma_definalize_old(t, hash);
        }
        if !capped {
            assert forall|t: Seq<u64>|
                (is_preimage_old(t, lenu, start, end, hash) && (res@.len() < number || number
                    == 0)) implies #[trigger] result_contains(res@, t) by {
                let ts = t.skip(first_half_length + 1);
                assert(digits_in_range(ts, start, end)) by {
                    assert(forall|ii: int|
                        0 <= ii < ts.len() ==> #[trigger] ts[ii] == t[ii + first_half_length + 1]);
                }
                lemma_cval_bounds(ts, start, end);
                assert(ts.len() == second_half_length);
                assert(cval(ts, start, w) < second_counter.space());
            }
        }
    }
    res
}

} // verus!
