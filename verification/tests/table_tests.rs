use tuple_crasher::table::{lower_bound, prev_pow2_log, probe_window, probe_window_binary, probe_window_old, sort_table, to_chunk};

fn window_by_scan(table: &Vec<(u64, u64)>, lower: u64, upper: u64) -> Vec<(u64, u64)> {
    let mut out = Vec::new();
    for &e in table.iter() {
        let inside = if lower < upper {
            lower <= e.0 && e.0 < upper
        } else {
            lower <= e.0 || e.0 < upper
        };
        if inside {
            out.push(e);
        }
    }
    out
}

fn as_sorted_set(mut v: Vec<(u64, u64)>) -> Vec<(u64, u64)> {
    v.sort_unstable();
    v.dedup();
    v
}

#[test]
fn sort_table_sorts_and_keeps_entries() {
    let table = vec![(9u64, 1u64), (3, 2), (7, 0), (3, 1), (u64::MAX, 5), (0, 9)];
    let sorted = sort_table(&table);
    assert_eq!(sorted.len(), table.len());
    for w in sorted.windows(2) {
        assert!(w[0] <= w[1]);
    }
    for e in table.iter() {
        assert!(sorted.contains(e));
    }
}

// Chunk-index lookup returns the identical entry set as a direct scan over
// the same window, i.e. as binary-search bounds would, including windows that
// wrap past 2^64.
#[test]
fn chunk_lookup_matches_scan() {
    // A pseudo-random sorted table with lanes spread over the whole space.
    let mut table: Vec<(u64, u64)> = Vec::new();
    let mut x: u64 = 0x9e3779b97f4a7c15;
    for i in 0..400u64 {
        x = x.wrapping_mul(6364136223846793005).wrapping_add(1442695040888963407);
        table.push((x, i));
    }
    let table = sort_table(&table);
    let width: u64 = 1 << 60;
    let cm = to_chunk(&table, width);
    let lo: u64 = 0;
    let hi: u64 = width;
    let mut acc: u64 = 1;
    for _ in 0..64 {
        acc = acc.wrapping_mul(2862933555777941757).wrapping_add(3037000493);
        let got = probe_window(&table, &cm, acc, lo, hi);
        let want = window_by_scan(&table, acc.wrapping_add(lo), acc.wrapping_add(hi));
        assert_eq!(as_sorted_set(got), as_sorted_set(want));
    }
}

#[test]
fn chunk_lookup_handles_wraparound_window() {
    let table = sort_table(&vec![
        (u64::MAX, 1u64),
        (u64::MAX - 3, 2),
        (5u64, 3),
        (2u64, 4),
        (1u64 << 63, 5),
    ]);
    let width: u64 = 10;
    let cm = to_chunk(&table, width);
    // acc + lo wraps: window is [2^64 - 4, 6) across the boundary.
    let acc: u64 = u64::MAX - 3;
    let got = probe_window(&table, &cm, acc, 0, width);
    let want = window_by_scan(&table, acc, acc.wrapping_add(width));
    assert_eq!(as_sorted_set(got.clone()), as_sorted_set(want));
    assert_eq!(got.len(), 4);
}

#[test]
fn chunk_lookup_old_matches_scan() {
    let mut table: Vec<(u64, u64)> = Vec::new();
    let mut x: u64 = 77;
    for i in 0..300u64 {
        x = x.wrapping_mul(6364136223846793005).wrapping_add(99991);
        table.push((x & 0xffff, i));
    }
    let table = sort_table(&table);
    let wlo: u64 = 100;
    let whi: u64 = 1100;
    let shift = prev_pow2_log(whi - wlo);
    let chunk_size = 1u64 << shift;
    let cm = to_chunk(&table, chunk_size);
    for acc in [0u64, 3, 0x5555, 0xffff, 0x1234] {
        let got = probe_window_old(&table, &cm, chunk_size, shift, acc, wlo, whi);
        let mut want = Vec::new();
        for &e in table.iter() {
            let dec = e.0 ^ acc;
            if wlo <= dec && dec < whi {
                want.push(e);
            }
        }
        assert_eq!(as_sorted_set(got), as_sorted_set(want));
    }
}

#[test]
fn prev_pow2_log_values() {
    assert_eq!(prev_pow2_log(1), 0);
    assert_eq!(prev_pow2_log(2), 1);
    assert_eq!(prev_pow2_log(3), 1);
    assert_eq!(prev_pow2_log(4), 2);
    assert_eq!(prev_pow2_log(1023), 9);
    assert_eq!(prev_pow2_log(1024), 10);
    assert_eq!(prev_pow2_log(u64::MAX), 63);
}

// Chunk-index lookup and binary-search lookup return the identical entry set
// for randomized sorted tables and randomized windows, including wraparound
// windows where the start exceeds the end.
#[test]
fn chunk_and_binary_lookup_agree() {
    let mut table: Vec<(u64, u64)> = Vec::new();
    let mut x: u64 = 42;
    for i in 0..500u64 {
        x = x.wrapping_mul(6364136223846793005).wrapping_add(1442695040888963407);
        table.push((x, i));
    }
    let table = sort_table(&table);
    let width: u64 = 1 << 61;
    let cm = to_chunk(&table, width);
    let mut acc: u64 = 7;
    for _ in 0..128 {
        acc = acc.wrapping_mul(2862933555777941757).wrapping_add(3037000493);
        let chunked = probe_window(&table, &cm, acc, 0, width);
        let binary = probe_window_binary(&table, acc, 0, width);
        assert_eq!(as_sorted_set(chunked), as_sorted_set(binary));
    }
}

#[test]
fn lower_bound_is_first_at_least() {
    let table = sort_table(&vec![(2u64, 0u64), (2, 1), (5, 0), (9, 0)]);
    assert_eq!(lower_bound(&table, 0), 0);
    assert_eq!(lower_bound(&table, 2), 0);
    assert_eq!(lower_bound(&table, 3), 2);
    assert_eq!(lower_bound(&table, 5), 2);
    assert_eq!(lower_bound(&table, 6), 3);
    assert_eq!(lower_bound(&table, 10), 4);
}
