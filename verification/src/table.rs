//! The match table of one suffix batch: (lane, suffix index) entries sorted
//! by lane, and a chunk index over coarse lane buckets that maps each bucket
//! to its contiguous slice of the sorted table.  The chunk index is kept in a
//! hash map of the ahash crate; probing through it returns exactly the
//! entries a binary search over the same window would.
use vstd::prelude::*;

verus! {

use vstd::arithmetic::div_mod::{
    lemma_div_is_ordered,
    lemma_fundamental_div_mod,
    lemma_fundamental_div_mod_converse,
    lemma_small_mod,
};
use vstd::arithmetic::mul::lemma_mul_is_commutative;
use vstd::arithmetic::power2::{lemma_pow2_adds, lemma_pow2_pos, lemma_pow2_strictly_increases, pow2};
use crate::arith::{addw, lemma_wrapping_add, lemma_wrapping_sub, lemma_xor_cancel, subw};

#[verifier::external_type_specification]
#[verifier::external_body]
#[verifier::reject_recursive_types(K)]
#[verifier::reject_recursive_types(V)]
#[verifier::reject_recursive_types(S)]
pub struct ExAHashMap<K, V, S>(ahash::AHashMap<K, V, S>);

#[verifier::external_type_specification]
#[verifier::external_body]
pub struct ExAHashRandomState(ahash::RandomState);

/// What the chunk-index map holds, as a finite map from bucket to the
/// (start, count) slice of the sorted table.
pub uninterp spec fn chunk_map_of(m: ahash::AHashMap<u64, (usize, usize), ahash::RandomState>) -> Map<
    u64,
    (usize, usize),
>;

/// The empty chunk index.
pub open spec fn empty_chunk_map() -> Map<u64, (usize, usize)> {
    Map::empty()
}

/// Relies on `ahash::AHashMap::new`: a fresh map is empty.
#[verifier::external_body]
fn chunk_map_new() -> (m: ahash::AHashMap<u64, (usize, usize), ahash::RandomState>)
    ensures
        chunk_map_of(m) == empty_chunk_map(),
{
    ahash::AHashMap::new()
}

/// Relies on `ahash::AHashMap::get`, which delegates to std's `HashMap::get`:
/// returns the value stored under the key, or `None` when the key is absent.
#[verifier::external_body]
fn chunk_map_get(m: &ahash::AHashMap<u64, (usize, usize), ahash::RandomState>, k: u64) -> (r: Option<
    (usize, usize),
>)
    ensures
        r == if chunk_map_of(*m).dom().contains(k) {
            Some(chunk_map_of(*m)[k])
        } else {
            None
        },
{
    m.get(&k).copied()
}

/// Relies on `ahash::AHashMap::insert`, which delegates to std's
/// `HashMap::insert`: stores the value under the key, replacing any previous
/// value.
#[verifier::external_body]
fn chunk_map_insert(
    m: &mut ahash::AHashMap<u64, (usize, usize), ahash::RandomState>,
    k: u64,
    v: (usize, usize),
)
    ensures
        chunk_map_of(*final(m)) == chunk_map_of(*old(m)).insert(k, v),
{
    m.insert(k, v);
}

/// Lexicographic order on table entries: by lane, then by suffix index.
pub open spec fn entry_le(a: (u64, u64), b: (u64, u64)) -> bool {
    a.0 < b.0 || (a.0 == b.0 && a.1 <= b.1)
}

/// A table sorted by `entry_le`.
pub open spec fn table_sorted(t: Seq<(u64, u64)>) -> bool {
    forall|i: int, j: int| 0 <= i < j < t.len() ==> entry_le(#[trigger] t[i], #[trigger] t[j])
}

/// The bucket of a lane value for a given chunk size.
pub open spec fn chunk_of(lane: u64, cs: u64) -> u64
    recommends
        cs >= 1,
{
    lane / cs
}

/// The chunk index describes a table exactly: a bucket is present in the map
/// when some entry falls in it, and then its (start, count) slice holds
/// exactly the entries of that bucket.
pub open spec fn chunk_index_ok(cm: Map<u64, (usize, usize)>, t: Seq<(u64, u64)>, cs: u64) -> bool {
    &&& forall|i: int| 0 <= i < t.len() ==> cm.dom().contains(chunk_of(#[trigger] t[i].0, cs))
    &&& forall|c: u64| #[trigger] cm.dom().contains(c) ==> cm[c].1 >= 1 && cm[c].0 + cm[c].1
        <= t.len() && (forall|i: int|
        0 <= i < t.len() ==> (chunk_of(#[trigger] t[i].0, cs) == c <==> cm[c].0 <= i < cm[c].0
            + cm[c].1))
}

/// Merge two sorted tables into one sorted table holding the contents of
/// both.
fn merge_tables(a: &Vec<(u64, u64)>, b: &Vec<(u64, u64)>) -> (out: Vec<(u64, u64)>)
    requires
        table_sorted(a@),
        table_sorted(b@),
    ensures
        table_sorted(out@),
        out@.len() == a@.len() + b@.len(),
        out@.to_multiset() == a@.to_multiset().add(b@.to_multiset()),
{
    broadcast use vstd::seq_lib::group_to_multiset_ensures;
    broadcast use vstd::multiset::group_multiset_axioms;

    let mut out: Vec<(u64, u64)> = Vec::new();
    let mut i: usize = 0;
    let mut j: usize = 0;
    proof {
        assert(a@.take(0) =~= Seq::<(u64, u64)>::empty());
        assert(b@.take(0) =~= Seq::<(u64, u64)>::empty());
        assert(out@.to_multiset() =~= a@.take(0).to_multiset().add(b@.take(0).to_multiset()));
    }
    while i < a.len() || j < b.len()
        invariant
            table_sorted(a@),
            table_sorted(b@),
            0 <= i <= a@.len(),
            0 <= j <= b@.len(),
            out@.len() == i + j,
            table_sorted(out@),
            out@.to_multiset() == a@.take(i as int).to_multiset().add(
                b@.take(j as int).to_multiset(),
            ),
            forall|k: int, l: int|
                0 <= k < out@.len() && i <= l < a@.len() ==> entry_le(
                    #[trigger] out@[k],
                    #[trigger] a@[l],
                ),
            forall|k: int, l: int|
                0 <= k < out@.len() && j <= l < b@.len() ==> entry_le(
                    #[trigger] out@[k],
                    #[trigger] b@[l],
                ),
        decreases a@.len() + b@.len() - i - j,
    {
        let take_a = if i < a.len() && j < b.len() {
            let x = a[i];
            let y = b[j];
            x.0 < y.0 || (x.0 == y.0 && x.1 <= y.1)
        } else {
            i < a.len()
        };
        let ghost pre_out = out@;
        if take_a {
            out.push(a[i]);
            proof {
                assert(a@.take(i as int).push(a@[i as int]) =~= a@.take(i + 1));
                vstd::seq_lib::to_multiset_build(pre_out, a@[i as int]);
                vstd::seq_lib::to_multiset_build(a@.take(i as int), a@[i as int]);
                assert(out@.to_multiset() =~= a@.take(i + 1).to_multiset().add(
                    b@.take(j as int).to_multiset(),
                ));
            }
            i = i + 1;
        } else {
            out.push(b[j]);
            proof {
                assert(b@.take(j as int).push(b@[j as int]) =~= b@.take(j + 1));
                vstd::seq_lib::to_multiset_build(pre_out, b@[j as int]);
                vstd::seq_lib::to_multiset_build(b@.take(j as int), b@[j as int]);
                assert(out@.to_multiset() =~= a@.take(i as int).to_multiset().add(
                    b@.take(j + 1).to_multiset(),
                ));
            }
            j = j + 1;
        }
        proof {
            assert(forall|k: int| 0 <= k < pre_out.len() ==> out@[k] == pre_out[k]);
        }
    }
    proof {
        assert(a@.take(a@.len() as int) =~= a@);
        assert(b@.take(b@.len() as int) =~= b@);
    }
    out
}

/// Sort a match table by merge sort.  The result is sorted, holds exactly
/// the entries of the input, and preserves their multiplicities.
pub fn sort_table(table: &Vec<(u64, u64)>) -> (out: Vec<(u64, u64)>)
    ensures
        table_sorted(out@),
        out@.len() == table@.len(),
        forall|e: (u64, u64)| out@.contains(e) <==> table@.contains(e),
        out@.to_multiset() == table@.to_multiset(),
    decreases table@.len(),
{
    broadcast use vstd::seq_lib::group_to_multiset_ensures;
    broadcast use vstd::multiset::group_multiset_axioms;

    if table.len() <= 1 {
        let mut out: Vec<(u64, u64)> = Vec::new();
        if table.len() == 1 {
            out.push(table[0]);
            proof {
                assert(out@ =~= table@);
            }
        } else {
            proof {
                assert(out@ =~= table@);
            }
        }
        return out;
    }
    let mid = table.len() / 2;
    let mut left: Vec<(u64, u64)> = Vec::new();
    let mut k: usize = 0;
    while k < mid
        invariant
            0 <= k <= mid <= table@.len(),
            left@ == table@.take(mid as int).take(k as int),
        decreases mid - k,
    {
        proof {
            assert(table@.take(mid as int).take(k as int).push(table@[k as int]) =~= table@.take(
                mid as int,
            ).take(k + 1));
        }
        left.push(table[k]);
        k = k + 1;
    }
    let mut right: Vec<(u64, u64)> = Vec::new();
    let mut k2: usize = mid;
    while k2 < table.len()
        invariant
            mid <= k2 <= table@.len(),
            right@ == table@.skip(mid as int).take(k2 - mid),
        decreases table@.len() - k2,
    {
        proof {
            assert(table@.skip(mid as int).take(k2 - mid).push(table@[k2 as int]) =~= table@.skip(
                mid as int,
            ).take(k2 - mid + 1));
        }
        right.push(table[k2]);
        k2 = k2 + 1;
    }
    proof {
        assert(left@ =~= table@.take(mid as int));
        assert(right@ =~= table@.skip(mid as int));
    }
    let left_sorted = sort_table(&left);
    let right_sorted = sort_table(&right);
    let out = merge_tables(&left_sorted, &right_sorted);
    proof {
        assert(table@.take(mid as int) + table@.skip(mid as int) =~= table@);
        vstd::seq_lib::lemma_multiset_commutative(table@.take(mid as int), table@.skip(mid as int));
        assert(out@.to_multiset() == table@.to_multiset());
        assert forall|e: (u64, u64)| out@.contains(e) <==> table@.contains(e) by {
            assert(out@.contains(e) <==> out@.to_multiset().count(e) > 0);
            assert(table@.contains(e) <==> table@.to_multiset().count(e) > 0);
        }
    }
    out
}

/// Quotients of values within `span` bases above a base point: at most three
/// quotients occur.
proof fn lemma_nearby_quotients(x: u64, base: u64, lowv: u64)
    requires
        base >= 1,
        lowv <= x,
        x < lowv + 2 * base,
    ensures
        x / base == lowv / base || x as int / base as int == lowv / base + 1 || x as int
            / base as int == lowv / base + 2,
{
    let b = base as int;
    let q = lowv as int / b;
    let r = lowv as int % b;
    lemma_fundamental_div_mod(lowv as int, b);
    assert(lowv == b * q + r);
    assert(0 <= r < b);
    lemma_mul_is_commutative(b, q);
    if x < q * b + b {
        lemma_fundamental_div_mod_converse(x as int, b, q, x - q * b);
        assert((q + 1) * b == q * b + b) by (nonlinear_arith);
    } else if x < q * b + 2 * b {
        assert((q + 1) * b == q * b + b) by (nonlinear_arith);
        lemma_fundamental_div_mod_converse(x as int, b, q + 1, x - (q + 1) * b);
    } else {
        assert((q + 2) * b == q * b + 2 * b) by (nonlinear_arith);
        lemma_fundamental_div_mod_converse(x as int, b, q + 2, x - (q + 2) * b);
    }
}

/// Quotients of values less than one base above a base point: at most two
/// quotients occur.
proof fn lemma_nearby_quotients_2(x: u64, base: u64, lowv: u64)
    requires
        base >= 1,
        lowv <= x,
        x < lowv + base,
    ensures
        x / base == lowv / base || x as int / base as int == lowv / base + 1,
{
    let b = base as int;
    let q = lowv as int / b;
    let r = lowv as int % b;
    lemma_fundamental_div_mod(lowv as int, b);
    lemma_mul_is_commutative(b, q);
    if x < q * b + b {
        lemma_fundamental_div_mod_converse(x as int, b, q, x - q * b);
    } else {
        assert((q + 1) * b == q * b + b) by (nonlinear_arith);
        assert((q + 2) * b == q * b + 2 * b) by (nonlinear_arith);
        lemma_fundamental_div_mod_converse(x as int, b, q + 1, x - (q + 1) * b);
    }
}

/// A lane lies in the wrapping window `[lower, upper)`: the window wraps past
/// 2^64 when `lower > upper`, and is then the union of `[lower, 2^64)` and
/// `[0, upper)`.
pub open spec fn in_window(lane: u64, lower: u64, upper: u64) -> bool {
    if lower < upper {
        lower <= lane < upper
    } else {
        lower <= lane || lane < upper
    }
}

/// Window membership of a lane is exactly range membership of the middle
/// element it encodes: `lane` is in `[acc + lo, acc + hi)` (wrapping) exactly
/// when `lane - acc` (wrapping) is in `[lo, hi)`.
pub proof fn lemma_window_mid(acc: u64, lane: u64, lo: u64, hi: u64)
    requires
        lo < hi,
    ensures
        in_window(lane, addw(acc, lo), addw(acc, hi)) <==> (lo <= subw(lane, acc) < hi),
{
    lemma_wrapping_add(acc, lo);
    lemma_wrapping_add(acc, hi);
    lemma_wrapping_sub(lane, acc);
}

/// Every lane in the window has its bucket among the bucket of the window's
/// low end, the next bucket, and the bucket of the window's high end.
pub proof fn lemma_window_chunks(acc: u64, lane: u64, lo: u64, hi: u64)
    requires
        lo < hi,
        in_window(lane, addw(acc, lo), addw(acc, hi)),
    ensures
        chunk_of(lane, (hi - lo) as u64) == chunk_of(addw(acc, lo), (hi - lo) as u64) || chunk_of(
            lane,
            (hi - lo) as u64,
        ) as int == chunk_of(addw(acc, lo), (hi - lo) as u64) + 1 || chunk_of(
            lane,
            (hi - lo) as u64,
        ) == chunk_of(addw(acc, hi), (hi - lo) as u64),
{
    let w = (hi - lo) as u64;
    let lower = addw(acc, lo);
    let upper = addw(acc, hi);
    lemma_wrapping_add(acc, lo);
    lemma_wrapping_add(acc, hi);
    if upper as int == lower + w {
        // The window does not wrap.
        assert(lower <= lane < lower + w);
        lemma_nearby_quotients_2(lane, w, lower);
    } else {
        // The window wraps: upper == lower + w - 2^64.
        assert(upper as int == lower + w - 0x1_0000_0000_0000_0000);
        if lane >= lower {
            assert(lane < lower + 2 * w);
            lemma_nearby_quotients(lane, w, lower);
            if lane as int / w as int == lower / w + 2 {
                // Impossible: lane < 2^64 <= lower + w < (lower/w + 2) * w.
                let q = lower as int / w as int;
                lemma_fundamental_div_mod(lower as int, w as int);
                lemma_mul_is_commutative(w as int, q);
                assert((q + 2) * (w as int) == q * w + 2 * w) by (nonlinear_arith);
                lemma_fundamental_div_mod(lane as int, w as int);
                lemma_mul_is_commutative(w as int, lane as int / w as int);
                assert(lane as int >= (q + 2) * w) by (nonlinear_arith)
                    requires
                        lane as int / w as int == q + 2,
                        lane as int == (w as int) * (lane as int / w as int) + lane as int
                            % w as int,
                        lane as int % w as int >= 0,
                        (q + 2) * (w as int) == (w as int) * (q + 2),
                ;
                assert(false);
            }
        } else {
            // lane < upper < w, so lane and upper share bucket 0.
            assert(lane < upper);
            assert(upper < w);
            lemma_fundamental_div_mod_converse(lane as int, w as int, 0, lane as int);
            lemma_fundamental_div_mod_converse(upper as int, w as int, 0, upper as int);
        }
    }
}

/// Collect the entries of one indexed bucket that lie in the wrapping window.
fn probe_chunk(
    table: &Vec<(u64, u64)>,
    cm: &ahash::AHashMap<u64, (usize, usize), ahash::RandomState>,
    chunk_size: u64,
    c: u64,
    lower: u64,
    upper: u64,
    res: &mut Vec<(u64, u64)>,
)
    requires
        chunk_size >= 1,
        chunk_index_ok(chunk_map_of(*cm), table@, chunk_size),
        table@.no_duplicates(),
        old(res)@.no_duplicates(),
        forall|e: (u64, u64)| #[trigger]
            old(res)@.contains(e) ==> chunk_of(e.0, chunk_size) != c,
    ensures
        forall|e: (u64, u64)| #[trigger]
            final(res)@.contains(e) <==> (old(res)@.contains(e) || (table@.contains(e)
                && chunk_of(e.0, chunk_size) == c && in_window(e.0, lower, upper))),
        final(res)@.no_duplicates(),
{
    broadcast use vstd::seq_lib::lemma_seq_contains_after_push;

    let tlen = table.len();
    let r = chunk_map_get(cm, c);
    match r {
        Some((s, n)) => {
            proof {
                assert(s + n <= tlen);
            }
            let mut i: usize = s;
            while i < s + n
                invariant
                    chunk_size >= 1,
                    chunk_index_ok(chunk_map_of(*cm), table@, chunk_size),
                    chunk_map_of(*cm).dom().contains(c),
                    (s, n) == chunk_map_of(*cm)[c],
                    s <= i <= s + n,
                    s + n <= tlen,
                    tlen == table@.len(),
                    table@.no_duplicates(),
                    res@.no_duplicates(),
                    forall|e: (u64, u64)| #[trigger]
                        old(res)@.contains(e) ==> chunk_of(e.0, chunk_size) != c,
                    forall|e: (u64, u64)|
                        res@.contains(e) <==> (old(res)@.contains(e) || (exists|j: int|
                            s <= j < i && #[trigger] table@[j] == e && in_window(
                                e.0,
                                lower,
                                upper,
                            ))),
                decreases s + n - i,
            {
                let entry = table[i];
                let keep = if lower < upper {
                    lower <= entry.0 && entry.0 < upper
                } else {
                    lower <= entry.0 || entry.0 < upper
                };
                let ghost pre_res = res@;
                if keep {
                    res.push(entry);
                }
                proof {
                    assert forall|x: (u64, u64)|
                        res@.contains(x) <==> (pre_res.contains(x) || (keep && x == entry)) by {
                        vstd::seq_lib::lemma_seq_contains_after_push(pre_res, entry, x);
                    }
                    assert(chunk_of(table@[i as int].0, chunk_size) == c);
                    assert forall|k: int| 0 <= k < pre_res.len() implies pre_res[k] != entry by {
                        let x = pre_res[k];
                        assert(pre_res.contains(x));
                        if !old(res)@.contains(x) {
                            let j = choose|j: int|
                                s <= j < i && #[trigger] table@[j] == x && in_window(
                                    x.0,
                                    lower,
                                    upper,
                                );
                            if x == entry {
                                assert(table@[j] == table@[i as int]);
                                assert(false);
                            }
                        }
                    }
                    assert forall|a: int, b: int| 0 <= a < b < res@.len() implies res@[a]
                        != res@[b] by {
                        if b < pre_res.len() {
                            assert(res@[a] == pre_res[a] && res@[b] == pre_res[b]);
                        } else {
                            assert(res@[b] == entry && res@[a] == pre_res[a]);
                        }
                    }
                    assert forall|e: (u64, u64)|
                        res@.contains(e) implies (old(res)@.contains(e) || (exists|j: int|
                        s <= j < i + 1 && #[trigger] table@[j] == e && in_window(
                            e.0,
                            lower,
                            upper,
                        ))) by {
                        if pre_res.contains(e) {
                            if !old(res)@.contains(e) {
                                let j = choose|j: int|
                                    s <= j < i && #[trigger] table@[j] == e && in_window(
                                        e.0,
                                        lower,
                                        upper,
                                    );
                                assert(s <= j < i + 1 && table@[j] == e);
                            }
                        } else {
                            assert(keep && e == entry);
                            assert(table@[i as int] == e && in_window(e.0, lower, upper));
                        }
                    }
                    assert forall|e: (u64, u64)| (old(res)@.contains(e) || (exists|j: int|
                        s <= j < i + 1 && #[trigger] table@[j] == e && in_window(
                            e.0,
                            lower,
                            upper,
                        ))) implies res@.contains(e) by {
                        if old(res)@.contains(e) {
                            assert(pre_res.contains(e));
                        } else {
                            let j = choose|j: int|
                                s <= j < i + 1 && #[trigger] table@[j] == e && in_window(
                                    e.0,
                                    lower,
                                    upper,
                                );
                            if j < i {
                                assert(pre_res.contains(e));
                            } else {
                                assert(e == entry && keep);
                            }
                        }
                    }
                }
                i = i + 1;
            }
            proof {
                assert forall|e: (u64, u64)|
                    res@.contains(e) <==> (old(res)@.contains(e) || (table@.contains(e)
                        && chunk_of(e.0, chunk_size) == c && in_window(e.0, lower, upper))) by {
                    if res@.contains(e) && !old(res)@.contains(e) {
                        let j = choose|j: int|
                            s <= j < s + n && table@[j] == e && in_window(e.0, lower, upper);
                        assert(table@.contains(e));
                        assert(chunk_of(table@[j].0, chunk_size) == c);
                    }
                    if table@.contains(e) && chunk_of(e.0, chunk_size) == c && in_window(
                        e.0,
                        lower,
                        upper,
                    ) {
                        let j = choose|j: int| 0 <= j < table@.len() && table@[j] == e;
                        assert(s <= j < s + n);
                    }
                }
            }
        },
        None => {
            proof {
                assert forall|e: (u64, u64)|
                    table@.contains(e) && chunk_of(e.0, chunk_size) == c implies false by {
                    let j = choose|j: int| 0 <= j < table@.len() && table@[j] == e;
                    assert(chunk_map_of(*cm).dom().contains(chunk_of(table@[j].0, chunk_size)));
                }
            }
        },
    }
}

/// Look up, through the chunk index, exactly the table entries whose lane
/// lies in the wrapping window `[acc + lo, acc + hi)`.  This is the same
/// entry set a binary search over the sorted table would return.
pub fn probe_window(
    table: &Vec<(u64, u64)>,
    cm: &ahash::AHashMap<u64, (usize, usize), ahash::RandomState>,
    acc: u64,
    lo: u64,
    hi: u64,
) -> (res: Vec<(u64, u64)>)
    requires
        lo < hi,
        chunk_index_ok(chunk_map_of(*cm), table@, (hi - lo) as u64),
        table@.no_duplicates(),
    ensures
        forall|e: (u64, u64)| #[trigger]
            res@.contains(e) <==> (table@.contains(e) && in_window(
                e.0,
                addw(acc, lo),
                addw(acc, hi),
            )),
        res@.no_duplicates(),
{
    let w = hi - lo;
    let lower = acc.wrapping_add(lo);
    let upper = acc.wrapping_add(hi);
    proof {
        lemma_wrapping_add(acc, lo);
        lemma_wrapping_add(acc, hi);
    }
    let c1 = lower / w;
    let c2 = c1.wrapping_add(1);
    let c3 = upper / w;
    let mut res: Vec<(u64, u64)> = Vec::new();
    probe_chunk(table, cm, w, c1, lower, upper, &mut res);
    let ghost r1 = res@;
    proof {
        assert forall|e: (u64, u64)| #[trigger] res@.contains(e) implies chunk_of(e.0, w)
            == c1 by {}
    }
    if c2 != c1 {
        probe_chunk(table, cm, w, c2, lower, upper, &mut res);
    }
    let ghost r2 = res@;
    proof {
        assert forall|e: (u64, u64)| #[trigger]
            res@.contains(e) implies (chunk_of(e.0, w) == c1 || chunk_of(e.0, w) == c2) by {
            if c2 != c1 && !r1.contains(e) {
                assert(chunk_of(e.0, w) == c2);
            }
        }
    }
    if c3 != c1 && c3 != c2 {
        probe_chunk(table, cm, w, c3, lower, upper, &mut res);
    }
    proof {
        lemma_wrapping_add(c1, 1);
        assert forall|e: (u64, u64)|
            res@.contains(e) <==> (table@.contains(e) && in_window(
                e.0,
                addw(acc, lo),
                addw(acc, hi),
            )) by {
            if table@.contains(e) && in_window(e.0, addw(acc, lo), addw(acc, hi)) {
                lemma_window_chunks(acc, e.0, lo, hi);
                let cw = chunk_of(e.0, w);
                assert(cw == c1 || cw as int == c1 + 1 || cw == c3);
                if cw as int == c1 + 1 {
                    assert(c1 < u64::MAX);
                    lemma_small_mod((c1 + 1) as nat, 0x1_0000_0000_0000_0000);
                    assert(c2 == c1 + 1);
                    assert(cw == c2);
                }
                assert(cw == c1 || cw == c2 || cw == c3);
                assert(res@.contains(e));
            }
            if res@.contains(e) {
                assert(table@.contains(e) && in_window(e.0, lower, upper));
            }
        }
    }
    res
}

/// Bucket a sorted table by `lane / chunk_size`: each bucket present maps to
/// the contiguous slice of the table that holds exactly its entries.
pub fn to_chunk(table: &Vec<(u64, u64)>, chunk_size: u64) -> (cm: ahash::AHashMap<
    u64,
    (usize, usize),
    ahash::RandomState,
>)
    requires
        chunk_size >= 1,
        table_sorted(table@),
    ensures
        chunk_index_ok(chunk_map_of(cm), table@, chunk_size),
{
    let mut cm = chunk_map_new();
    let mut i: usize = 0;
    while i < table.len()
        invariant
            chunk_size >= 1,
            table_sorted(table@),
            0 <= i <= table@.len(),
            chunk_index_ok(chunk_map_of(cm), table@.take(i as int), chunk_size),
        decreases table@.len() - i,
    {
        let ghost pre = chunk_map_of(cm);
        let ghost prefix = table@.take(i as int);
        let ghost prefix1 = table@.take(i + 1);
        proof {
            assert(prefix1.drop_last() =~= prefix);
            assert(forall|j: int| 0 <= j < i ==> prefix1[j] == #[trigger] prefix[j]);
            assert(prefix1[i as int] == table@[i as int]);
        }
        let index = table[i].0 / chunk_size;
        let got = chunk_map_get(&cm, index);
        match got {
            Some((s, n)) => {
                proof {
                    // The current bucket must end exactly at i: buckets of a
                    // sorted table are contiguous.
                    assert(chunk_of(prefix[s as int].0, chunk_size) == index);
                    if s + n < i {
                        assert(entry_le(table@[s as int], table@[s + n]));
                        assert(entry_le(table@[s + n], table@[i as int]));
                        lemma_div_is_ordered(table@[s as int].0 as int, table@[s + n].0 as int, chunk_size as int);
                        lemma_div_is_ordered(table@[s + n].0 as int, table@[i as int].0 as int, chunk_size as int);
                        assert(chunk_of(prefix[s + n].0, chunk_size) == index);
                        assert(false);
                    }
                }
                chunk_map_insert(&mut cm, index, (s, n + 1));
                proof {
                    assert forall|c: u64| #[trigger]
                        chunk_map_of(cm).dom().contains(c) implies chunk_map_of(cm)[c].1 >= 1
                        && chunk_map_of(cm)[c].0 + chunk_map_of(cm)[c].1 <= prefix1.len() && (
                    forall|j: int|
                        0 <= j < prefix1.len() ==> (chunk_of(#[trigger] prefix1[j].0, chunk_size)
                            == c <==> chunk_map_of(cm)[c].0 <= j < chunk_map_of(cm)[c].0
                            + chunk_map_of(cm)[c].1)) by {
                        if c == index {
                            assert forall|j: int| 0 <= j < prefix1.len() implies (chunk_of(
                                prefix1[j].0,
                                chunk_size,
                            ) == c <==> s <= j < s + n + 1) by {
                                if j < i {
                                    assert(prefix1[j] == prefix[j]);
                                }
                            }
                        } else {
                            assert(pre.dom().contains(c));
                            assert(chunk_map_of(cm)[c] == pre[c]);
                            assert forall|j: int| 0 <= j < prefix1.len() implies (chunk_of(
                                prefix1[j].0,
                                chunk_size,
                            ) == c <==> pre[c].0 <= j < pre[c].0 + pre[c].1) by {
                                if j < i {
                                    assert(prefix1[j] == prefix[j]);
                                } else {
                                    assert(chunk_of(prefix1[j].0, chunk_size) == index);
                                    assert(pre[c].0 + pre[c].1 <= i);
                                }
                            }
                        }
                    }
                }
            },
            None => {
                chunk_map_insert(&mut cm, index, (i, 1));
                proof {
                    assert forall|c: u64| #[trigger]
                        chunk_map_of(cm).dom().contains(c) implies chunk_map_of(cm)[c].1 >= 1
                        && chunk_map_of(cm)[c].0 + chunk_map_of(cm)[c].1 <= prefix1.len() && (
                    forall|j: int|
                        0 <= j < prefix1.len() ==> (chunk_of(#[trigger] prefix1[j].0, chunk_size)
                            == c <==> chunk_map_of(cm)[c].0 <= j < chunk_map_of(cm)[c].0
                            + chunk_map_of(cm)[c].1)) by {
                        if c == index {
                            assert forall|j: int| 0 <= j < prefix1.len() implies (chunk_of(
                                prefix1[j].0,
                                chunk_size,
                            ) == c <==> i <= j < i + 1) by {
                                if j < i {
                                    assert(prefix1[j] == prefix[j]);
                                    assert(chunk_of(prefix[j].0, chunk_size) != c);
                                }
                            }
                        } else {
                            assert(pre.dom().contains(c));
                            assert(chunk_map_of(cm)[c] == pre[c]);
                            assert forall|j: int| 0 <= j < prefix1.len() implies (chunk_of(
                                prefix1[j].0,
                                chunk_size,
                            ) == c <==> pre[c].0 <= j < pre[c].0 + pre[c].1) by {
                                if j < i {
                                    assert(prefix1[j] == prefix[j]);
                                } else {
                                    assert(chunk_of(prefix1[j].0, chunk_size) == index);
                                    assert(pre[c].0 + pre[c].1 <= i);
                                }
                            }
                        }
                    }
                }
            },
        }
        i = i + 1;
    }
    proof {
        assert(table@.take(table@.len() as int) =~= table@);
    }
    cm
}

/// Every lane whose xor-decoded element lies in `[lo, hi)` has its bucket,
/// for a power-of-two chunk size `2^shift`, among the three buckets derived
/// from the window's low end.
pub proof fn lemma_window_chunks_old(acc: u64, lane: u64, lo: u64, hi: u64, shift: u64)
    requires
        lo < hi,
        shift <= 63,
        pow2(shift as nat) <= hi - lo,
        hi - lo < pow2((shift + 1) as nat),
        lo <= (lane ^ acc) < hi,
    ensures
        lane >> shift == ((lo >> shift) ^ (acc >> shift)) || ((lo >> shift) + 1 <= u64::MAX
            && lane >> shift == ((((lo >> shift) + 1) as u64) ^ (acc >> shift))) || ((lo >> shift)
            + 2 <= u64::MAX && lane >> shift == ((((lo >> shift) + 2) as u64) ^ (acc >> shift))),
{
    let m = (lane ^ acc) as u64;
    let base = pow2(shift as nat) as u64;
    assert(pow2(shift as nat) <= u64::MAX) by {
        lemma_pow2_strictly_increases(shift as nat, 64);
        vstd::arithmetic::power2::lemma2_to64();
        vstd::arithmetic::power2::lemma2_to64_rest();
    }
    lemma_xor_cancel(lane, acc);
    assert(m ^ acc == lane);
    assert((m ^ acc) >> shift == (m >> shift) ^ (acc >> shift)) by (bit_vector)
        requires
            shift <= 63,
    ;
    vstd::bits::lemma_u64_shr_is_div(m, shift);
    vstd::bits::lemma_u64_shr_is_div(lo, shift);
    lemma_pow2_pos(shift as nat);
    lemma_pow2_adds(shift as nat, 1);
    vstd::arithmetic::power2::lemma2_to64();
    assert(hi - lo < 2 * base);
    lemma_nearby_quotients(m, base, lo);
    let q = lo as int / base as int;
    assert(m as int / base as int <= u64::MAX);
}

/// Collect the entries of one indexed bucket whose xor-decoded element lies
/// in `[wlo, whi)`.
fn probe_chunk_old(
    table: &Vec<(u64, u64)>,
    cm: &ahash::AHashMap<u64, (usize, usize), ahash::RandomState>,
    chunk_size: u64,
    c: u64,
    acc: u64,
    wlo: u64,
    whi: u64,
    res: &mut Vec<(u64, u64)>,
)
    requires
        chunk_size >= 1,
        chunk_index_ok(chunk_map_of(*cm), table@, chunk_size),
        table@.no_duplicates(),
        old(res)@.no_duplicates(),
        forall|e: (u64, u64)| #[trigger]
            old(res)@.contains(e) ==> chunk_of(e.0, chunk_size) != c,
    ensures
        forall|e: (u64, u64)| #[trigger]
            final(res)@.contains(e) <==> (old(res)@.contains(e) || (table@.contains(e)
                && chunk_of(e.0, chunk_size) == c && wlo <= (e.0 ^ acc) < whi)),
        final(res)@.no_duplicates(),
{
    let tlen = table.len();
    let r = chunk_map_get(cm, c);
    match r {
        Some((s, n)) => {
            proof {
                assert(s + n <= tlen);
            }
            let mut i: usize = s;
            while i < s + n
                invariant
                    chunk_size >= 1,
                    chunk_index_ok(chunk_map_of(*cm), table@, chunk_size),
                    chunk_map_of(*cm).dom().contains(c),
                    (s, n) == chunk_map_of(*cm)[c],
                    s <= i <= s + n,
                    s + n <= tlen,
                    tlen == table@.len(),
                    table@.no_duplicates(),
                    res@.no_duplicates(),
                    forall|e: (u64, u64)| #[trigger]
                        old(res)@.contains(e) ==> chunk_of(e.0, chunk_size) != c,
                    forall|e: (u64, u64)|
                        res@.contains(e) <==> (old(res)@.contains(e) || (exists|j: int|
                            s <= j < i && #[trigger] table@[j] == e && wlo <= (e.0 ^ acc) < whi)),
                decreases s + n - i,
            {
                let entry = table[i];
                let decoded = entry.0 ^ acc;
                let keep = wlo <= decoded && decoded < whi;
                let ghost pre_res = res@;
                if keep {
                    res.push(entry);
                }
                proof {
                    assert forall|x: (u64, u64)|
                        res@.contains(x) <==> (pre_res.contains(x) || (keep && x == entry)) by {
                        vstd::seq_lib::lemma_seq_contains_after_push(pre_res, entry, x);
                    }
                    assert(chunk_of(table@[i as int].0, chunk_size) == c);
                    assert forall|k: int| 0 <= k < pre_res.len() implies pre_res[k] != entry by {
                        let x = pre_res[k];
                        assert(pre_res.contains(x));
                        if !old(res)@.contains(x) {
                            let j = choose|j: int|
                                s <= j < i && #[trigger] table@[j] == x && wlo <= (x.0 ^ acc)
                                    < whi;
                            if x == entry {
                                assert(table@[j] == table@[i as int]);
                                assert(false);
                            }
                        }
                    }
                    assert forall|a: int, b: int| 0 <= a < b < res@.len() implies res@[a]
                        != res@[b] by {
                        if b < pre_res.len() {
                            assert(res@[a] == pre_res[a] && res@[b] == pre_res[b]);
                        } else {
                            assert(res@[b] == entry && res@[a] == pre_res[a]);
                        }
                    }
                    assert forall|e: (u64, u64)|
                        res@.contains(e) implies (old(res)@.contains(e) || (exists|j: int|
                        s <= j < i + 1 && #[trigger] table@[j] == e && wlo <= (e.0 ^ acc)
                            < whi)) by {
                        if pre_res.contains(e) {
                            if !old(res)@.contains(e) {
                                let j = choose|j: int|
                                    s <= j < i && #[trigger] table@[j] == e && wlo <= (e.0 ^ acc)
                                        < whi;
                                assert(s <= j < i + 1 && table@[j] == e);
                            }
                        } else {
                            assert(keep && e == entry);
                            assert(table@[i as int] == e);
                        }
                    }
                    assert forall|e: (u64, u64)| (old(res)@.contains(e) || (exists|j: int|
                        s <= j < i + 1 && #[trigger] table@[j] == e && wlo <= (e.0 ^ acc)
                            < whi)) implies res@.contains(e) by {
                        if old(res)@.contains(e) {
                            assert(pre_res.contains(e));
                        } else {
                            let j = choose|j: int|
                                s <= j < i + 1 && #[trigger] table@[j] == e && wlo <= (e.0 ^ acc)
                                    < whi;
                            if j < i {
                                assert(pre_res.contains(e));
                            } else {
                                assert(e == entry && keep);
                            }
                        }
                    }
                }
                i = i + 1;
            }
            proof {
                assert forall|e: (u64, u64)|
                    res@.contains(e) <==> (old(res)@.contains(e) || (table@.contains(e)
                        && chunk_of(e.0, chunk_size) == c && wlo <= (e.0 ^ acc) < whi)) by {
                    if res@.contains(e) && !old(res)@.contains(e) {
                        let j = choose|j: int|
                            s <= j < s + n && table@[j] == e && wlo <= (e.0 ^ acc) < whi;
                        assert(table@.contains(e));
                        assert(chunk_of(table@[j].0, chunk_size) == c);
                    }
                    if table@.contains(e) && chunk_of(e.0, chunk_size) == c && wlo <= (e.0 ^ acc)
                        < whi {
                        let j = choose|j: int| 0 <= j < table@.len() && table@[j] == e;
                        assert(s <= j < s + n);
                    }
                }
            }
        },
        None => {
            proof {
                assert forall|e: (u64, u64)|
                    table@.contains(e) && chunk_of(e.0, chunk_size) == c implies false by {
                    let j = choose|j: int| 0 <= j < table@.len() && table@[j] == e;
                    assert(chunk_map_of(*cm).dom().contains(chunk_of(table@[j].0, chunk_size)));
                }
            }
        },
    }
}

/// Look up, through the chunk index of a table bucketed by `2^shift`, exactly
/// the entries whose lane decodes (by xor with `acc`) to an element of
/// `[wlo, whi)`.
#[verifier::rlimit(100)]
pub fn probe_window_old(
    table: &Vec<(u64, u64)>,
    cm: &ahash::AHashMap<u64, (usize, usize), ahash::RandomState>,
    chunk_size: u64,
    shift: u64,
    acc: u64,
    wlo: u64,
    whi: u64,
) -> (res: Vec<(u64, u64)>)
    requires
        wlo < whi,
        shift <= 63,
        chunk_size as int == pow2(shift as nat),
        pow2(shift as nat) <= whi - wlo,
        whi - wlo < pow2((shift + 1) as nat),
        chunk_index_ok(chunk_map_of(*cm), table@, chunk_size),
        table@.no_duplicates(),
    ensures
        forall|e: (u64, u64)| #[trigger]
            res@.contains(e) <==> (table@.contains(e) && wlo <= (e.0 ^ acc) < whi),
        res@.no_duplicates(),
{
    proof {
        lemma_pow2_pos(shift as nat);
    }
    let q = wlo >> shift;
    let accq = acc >> shift;
    let c1 = q ^ accq;
    let c2 = q.wrapping_add(1) ^ accq;
    let c3 = q.wrapping_add(2) ^ accq;
    let mut res: Vec<(u64, u64)> = Vec::new();
    let ghost r0 = res@;
    probe_chunk_old(table, cm, chunk_size, c1, acc, wlo, whi, &mut res);
    let ghost r1 = res@;
    proof {
        assert forall|e: (u64, u64)| #[trigger] res@.contains(e) implies chunk_of(e.0, chunk_size)
            == c1 by {}
    }
    if c2 != c1 {
        probe_chunk_old(table, cm, chunk_size, c2, acc, wlo, whi, &mut res);
    }
    let ghost r2 = res@;
    proof {
        assert forall|e: (u64, u64)| #[trigger]
            res@.contains(e) implies (chunk_of(e.0, chunk_size) == c1 || chunk_of(e.0, chunk_size)
                == c2) by {
            if c2 != c1 && !r1.contains(e) {
                assert(chunk_of(e.0, chunk_size) == c2);
            }
        }
    }
    if c3 != c1 && c3 != c2 {
        probe_chunk_old(table, cm, chunk_size, c3, acc, wlo, whi, &mut res);
    }
    proof {
        lemma_wrapping_add(q, 1);
        lemma_wrapping_add(q, 2);
        lemma_pow2_pos(shift as nat);
        assert forall|e: (u64, u64)|
            res@.contains(e) <==> (table@.contains(e) && wlo <= (e.0 ^ acc) < whi) by {
            assert(r1.contains(e) <==> (r0.contains(e) || (table@.contains(e) && chunk_of(
                e.0,
                chunk_size,
            ) == c1 && wlo <= (e.0 ^ acc) < whi)));
            assert(r2.contains(e) <==> (r1.contains(e) || (c2 != c1 && table@.contains(e)
                && chunk_of(e.0, chunk_size) == c2 && wlo <= (e.0 ^ acc) < whi)));
            if c3 != c1 && c3 != c2 {
                assert(res@.contains(e) <==> (r2.contains(e) || (table@.contains(e) && chunk_of(
                    e.0,
                    chunk_size,
                ) == c3 && wlo <= (e.0 ^ acc) < whi)));
            } else {
                assert(res@ == r2);
            }
            if table@.contains(e) && wlo <= (e.0 ^ acc) < whi {
                lemma_window_chunks_old(acc, e.0, wlo, whi, shift);
                vstd::bits::lemma_u64_shr_is_div(e.0, shift);
                assert(chunk_of(e.0, chunk_size) == e.0 >> shift);
                assert(chunk_of(e.0, chunk_size) == c1 || chunk_of(e.0, chunk_size) == c2
                    || chunk_of(e.0, chunk_size) == c3);
            }
        }
    }
    res
}

/// The first position of a sorted table whose lane is at least `key`.
pub fn lower_bound(table: &Vec<(u64, u64)>, key: u64) -> (pos: usize)
    requires
        table_sorted(table@),
    ensures
        0 <= pos <= table@.len(),
        forall|i: int| 0 <= i < pos ==> (#[trigger] table@[i]).0 < key,
        forall|i: int| pos <= i < table@.len() ==> (#[trigger] table@[i]).0 >= key,
{
    let mut lo: usize = 0;
    let mut hi: usize = table.len();
    while lo < hi
        invariant
            table_sorted(table@),
            0 <= lo <= hi <= table@.len(),
            forall|i: int| 0 <= i < lo ==> (#[trigger] table@[i]).0 < key,
            forall|i: int| hi <= i < table@.len() ==> (#[trigger] table@[i]).0 >= key,
        decreases hi - lo,
    {
        let mid = lo + (hi - lo) / 2;
        if table[mid].0 < key {
            proof {
                assert forall|i: int| 0 <= i < mid + 1 implies (#[trigger] table@[i]).0 < key by {
                    if i < mid {
                        assert(entry_le(table@[i], table@[mid as int]));
                    }
                }
            }
            lo = mid + 1;
        } else {
            proof {
                assert forall|i: int|
                    mid <= i < table@.len() implies (#[trigger] table@[i]).0 >= key by {
                    if i > mid {
                        assert(entry_le(table@[mid as int], table@[i]));
                    }
                }
            }
            hi = mid;
        }
    }
    lo
}

/// Append the entries of the index range `[from, to)` of the table.
fn push_range(table: &Vec<(u64, u64)>, from: usize, to: usize, res: &mut Vec<(u64, u64)>)
    requires
        0 <= from <= to <= table@.len(),
    ensures
        final(res)@ == old(res)@ + table@.subrange(from as int, to as int),
{
    let mut i = from;
    while i < to
        invariant
            0 <= from <= i <= to <= table@.len(),
            res@ == old(res)@ + table@.subrange(from as int, i as int),
        decreases to - i,
    {
        proof {
            assert((old(res)@ + table@.subrange(from as int, i as int)).push(table@[i as int])
                =~= old(res)@ + table@.subrange(from as int, i + 1));
        }
        res.push(table[i]);
        i = i + 1;
    }
}

/// Look up the same wrapping window by binary-search bounds on the sorted
/// table: a non-wrapping window is one contiguous slice, a wrapping window is
/// the union of the table's tail from the window's start and its head up to
/// the window's end.
pub fn probe_window_binary(table: &Vec<(u64, u64)>, acc: u64, lo: u64, hi: u64) -> (res: Vec<
    (u64, u64),
>)
    requires
        lo < hi,
        table_sorted(table@),
    ensures
        forall|e: (u64, u64)| #[trigger]
            res@.contains(e) <==> (table@.contains(e) && in_window(
                e.0,
                addw(acc, lo),
                addw(acc, hi),
            )),
{
    let lower = acc.wrapping_add(lo);
    let upper = acc.wrapping_add(hi);
    proof {
        lemma_wrapping_add(acc, lo);
        lemma_wrapping_add(acc, hi);
    }
    let lb = lower_bound(table, lower);
    let ub = lower_bound(table, upper);
    let mut res: Vec<(u64, u64)> = Vec::new();
    if lower < upper {
        proof {
            if lb > ub {
                assert(table@[ub as int].0 >= upper);
                assert(table@[ub as int].0 < lower);
                assert(false);
            }
        }
        push_range(table, lb, ub, &mut res);
        proof {
            assert(res@ =~= table@.subrange(lb as int, ub as int));
            assert forall|e: (u64, u64)|
                res@.contains(e) <==> (table@.contains(e) && in_window(e.0, lower, upper)) by {
                if res@.contains(e) {
                    let k = choose|k: int| 0 <= k < res@.len() && res@[k] == e;
                    assert(table@[lb + k] == e);
                    assert(table@.contains(e));
                }
                if table@.contains(e) && in_window(e.0, lower, upper) {
                    let j = choose|j: int| 0 <= j < table@.len() && table@[j] == e;
                    assert(lb <= j < ub);
                    assert(res@[j - lb] == e);
                }
            }
        }
    } else {
        push_range(table, lb, table.len(), &mut res);
        let ghost tail = table@.subrange(lb as int, table@.len() as int);
        push_range(table, 0, ub, &mut res);
        proof {
            assert(res@ =~= tail + table@.subrange(0, ub as int));
            assert forall|e: (u64, u64)|
                res@.contains(e) <==> (table@.contains(e) && in_window(e.0, lower, upper)) by {
                if res@.contains(e) {
                    let k = choose|k: int| 0 <= k < res@.len() && res@[k] == e;
                    if k < tail.len() {
                        assert(table@[lb + k] == e);
                    } else {
                        assert(table@[k - tail.len()] == e);
                        assert(e.0 < upper);
                    }
                    assert(table@.contains(e));
                }
                if table@.contains(e) && in_window(e.0, lower, upper) {
                    let j = choose|j: int| 0 <= j < table@.len() && table@[j] == e;
                    if e.0 >= lower {
                        assert(lb <= j);
                        assert(res@[j - lb] == e);
                    } else {
                        assert(e.0 < upper);
                        assert(j < ub);
                        assert(res@[tail.len() + j] == e);
                    }
                }
            }
        }
    }
    res
}

/// Chunk-indexed lookup and binary-search lookup are equivalent: result
/// sequences that each hold exactly the entries of a window hold exactly the
/// same entries.
pub proof fn lemma_chunk_binary_equivalent(
    chunked: Seq<(u64, u64)>,
    binary: Seq<(u64, u64)>,
    table: Seq<(u64, u64)>,
    acc: u64,
    lo: u64,
    hi: u64,
)
    requires
        forall|e: (u64, u64)| #[trigger]
            chunked.contains(e) <==> (table.contains(e) && in_window(
                e.0,
                addw(acc, lo),
                addw(acc, hi),
            )),
        forall|e: (u64, u64)| #[trigger]
            binary.contains(e) <==> (table.contains(e) && in_window(
                e.0,
                addw(acc, lo),
                addw(acc, hi),
            )),
    ensures
        forall|e: (u64, u64)| #[trigger] chunked.contains(e) <==> #[trigger] binary.contains(e),
{
}

/// The floor of the base-2 logarithm: the largest `s` with `2^s <= x`.
pub fn prev_pow2_log(x: u64) -> (s: u64)
    requires
        x >= 1,
    ensures
        s <= 63,
        pow2(s as nat) <= x < pow2((s + 1) as nat),
{
    proof {
        vstd::arithmetic::power2::lemma2_to64();
    }
    let mut s: u64 = 0;
    while x >> s >= 2
        invariant
            x >= 1,
            s <= 63,
            pow2(s as nat) <= x,
        decreases 64 - s,
    {
        proof {
            vstd::bits::lemma_u64_shr_is_div(x, s);
            lemma_pow2_pos(s as nat);
            lemma_pow2_adds(s as nat, 1);
            vstd::arithmetic::power2::lemma2_to64();
            // x / 2^s >= 2 means x >= 2^(s+1).
            lemma_fundamental_div_mod(x as int, pow2(s as nat) as int);
            assert(x as int >= pow2(s as nat) as int * 2) by (nonlinear_arith)
                requires
                    x as int == pow2(s as nat) as int * (x as int / pow2(s as nat) as int)
                        + x as int % pow2(s as nat) as int,
                    x as int / pow2(s as nat) as int >= 2,
                    x as int % pow2(s as nat) as int >= 0,
                    pow2(s as nat) as int >= 1,
            ;
            if s == 63 {
                lemma_pow2_strictly_increases(63, 64);
                vstd::arithmetic::power2::lemma2_to64_rest();
                assert(false);
            }
        }
        s = s + 1;
    }
    proof {
        vstd::bits::lemma_u64_shr_is_div(x, s);
        lemma_pow2_pos(s as nat);
        lemma_pow2_adds(s as nat, 1);
        vstd::arithmetic::power2::lemma2_to64();
        // x / 2^s <= 1 means x < 2^(s+1).
        lemma_fundamental_div_mod(x as int, pow2(s as nat) as int);
        assert((x as int) < pow2(s as nat) as int * 2) by (nonlinear_arith)
            requires
                x as int == pow2(s as nat) as int * (x as int / pow2(s as nat) as int) + x as int
                    % pow2(s as nat) as int,
                x as int / pow2(s as nat) as int <= 1,
                (x as int % pow2(s as nat) as int) < pow2(s as nat),
                pow2(s as nat) as int >= 1,
        ;
    }
    s
}

} // verus!
