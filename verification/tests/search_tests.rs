use tuple_crasher::hash::{tuple_hash, tuple_hash_old};
use tuple_crasher::search::{
    tuple_unhash, tuple_unhash_length_2, tuple_unhash_length_2_old, tuple_unhash_old,
    validate_config, ConfigError,
};

fn as_sorted_set(mut v: Vec<Vec<u64>>) -> Vec<Vec<u64>> {
    v.sort();
    v.dedup();
    v
}

#[test]
fn length_2_modern_finds_planted_tuple() {
    // Length 2, range [0, 10), current model, target = hash((3, 7)).
    let target = tuple_hash(&vec![3, 7]);
    let results = tuple_unhash(2, target, 0, 10, 16, 0);
    assert!(results.contains(&vec![3, 7]));
    for r in results.iter() {
        assert_eq!(r.len(), 2);
        assert!(r.iter().all(|&x| x < 10));
        assert_eq!(tuple_hash(r), target);
    }
    // Emission order for length 2: strictly increasing last element.
    for w in results.windows(2) {
        assert!(w[0][1] < w[1][1]);
    }
}

#[test]
fn length_2_legacy_finds_planted_tuple() {
    let target = tuple_hash_old(&vec![3, 7]);
    let results = tuple_unhash_old(2, target, 0, 10, 16, 0);
    assert!(results.contains(&vec![3, 7]));
    for r in results.iter() {
        assert_eq!(tuple_hash_old(r), target);
    }
}

#[test]
fn length_5_legacy_finds_planted_tuple() {
    // Length 5, range [0, 100), older model, target from a known tuple.
    let planted = vec![12, 34, 56, 78, 90];
    let target = tuple_hash_old(&planted);
    let results = tuple_unhash_old(5, target, 0, 100, 512, 0);
    assert!(results.contains(&planted));
    for r in results.iter() {
        assert_eq!(r.len(), 5);
        assert!(r.iter().all(|&x| x < 100));
        assert_eq!(tuple_hash_old(r), target);
    }
}

#[test]
fn length_5_modern_finds_planted_tuple() {
    let planted = vec![12, 34, 56, 78, 90];
    let target = tuple_hash(&planted);
    let results = tuple_unhash(5, target, 0, 100, 512, 0);
    assert!(results.contains(&planted));
    for r in results.iter() {
        assert_eq!(tuple_hash(r), target);
    }
}

#[test]
fn legacy_search_agrees_with_brute_force() {
    // Oracle check on an exhaustively searchable space.
    let target = tuple_hash_old(&vec![6, 1, 4]);
    let results = tuple_unhash_old(3, target, 0, 8, 16, 0);
    let mut oracle = Vec::new();
    for a in 0..8u64 {
        for b in 0..8u64 {
            for c in 0..8u64 {
                if tuple_hash_old(&vec![a, b, c]) == target {
                    oracle.push(vec![a, b, c]);
                }
            }
        }
    }
    // Exactly the oracle's set, each tuple emitted once.
    assert_eq!(as_sorted_set(results.clone()), as_sorted_set(oracle));
    let deduped = as_sorted_set(results.clone());
    assert_eq!(results.len(), deduped.len());
}

#[test]
fn modern_search_agrees_with_brute_force() {
    let target = tuple_hash(&vec![1, 5, 2]);
    let results = tuple_unhash(3, target, 0, 8, 16, 0);
    let mut oracle = Vec::new();
    for a in 0..8u64 {
        for b in 0..8u64 {
            for c in 0..8u64 {
                if tuple_hash(&vec![a, b, c]) == target {
                    oracle.push(vec![a, b, c]);
                }
            }
        }
    }
    // Exactly the oracle's set, each tuple emitted once.
    assert_eq!(as_sorted_set(results.clone()), as_sorted_set(oracle));
    let deduped = as_sorted_set(results.clone());
    assert_eq!(results.len(), deduped.len());
}

#[test]
fn cross_variant_search_does_not_spuriously_succeed() {
    // A target produced by the current model, searched with the older model:
    // results must agree exactly with the older model's brute-force oracle
    // (here: no collision exists, so no results at all).
    let target = tuple_hash(&vec![1, 5, 2]);
    let results = tuple_unhash_old(3, target, 0, 8, 16, 0);
    let mut oracle = Vec::new();
    for a in 0..8u64 {
        for b in 0..8u64 {
            for c in 0..8u64 {
                if tuple_hash_old(&vec![a, b, c]) == target {
                    oracle.push(vec![a, b, c]);
                }
            }
        }
    }
    assert_eq!(as_sorted_set(results.clone()), as_sorted_set(oracle));
    assert!(results.is_empty());
    // And the other way round.
    let target2 = tuple_hash_old(&vec![6, 1, 4]);
    let results2 = tuple_unhash(3, target2, 0, 8, 16, 0);
    for r in results2.iter() {
        assert_eq!(tuple_hash(r), target2);
    }
}

#[test]
fn result_cap_limits_output() {
    // Every pair (a, b) of [0, 4)^2 with the right hash; cap at 1 result.
    let target = tuple_hash(&vec![2, 3]);
    let capped = tuple_unhash(2, target, 0, 4, 8, 1);
    assert_eq!(capped.len(), 1);
    assert_eq!(tuple_hash(&capped[0]), target);
}

#[test]
fn direct_length_2_enumerators() {
    let target = tuple_hash(&vec![9, 0]);
    let hash_last = target.wrapping_sub(2u64 ^ 2870177450012600261 ^ 3527539);
    let res = tuple_unhash_length_2(hash_last, 0, 10, 0);
    assert!(res.contains(&vec![9, 0]));

    let target_old = tuple_hash_old(&vec![9, 0]);
    let hash_last_old = target_old.wrapping_sub(97531);
    let res_old = tuple_unhash_length_2_old(hash_last_old, 0, 10, 0);
    assert!(res_old.contains(&vec![9, 0]));
}

#[test]
fn config_validation_errors() {
    assert!(validate_config(5, 0, 10, 4).is_ok());
    assert!(matches!(validate_config(5, 10, 10, 4), Err(ConfigError::EmptyRange)));
    assert!(matches!(validate_config(5, 11, 10, 4), Err(ConfigError::EmptyRange)));
    assert!(matches!(validate_config(5, 0, 10, 0), Err(ConfigError::ZeroTableSize)));
    assert!(matches!(validate_config(1, 0, 10, 4), Err(ConfigError::LengthTooShort)));
    assert!(matches!(validate_config(0, 0, 10, 4), Err(ConfigError::LengthTooShort)));
}

#[test]
fn small_batches_cover_whole_suffix_space() {
    // A table size smaller than the suffix space forces several batches.
    let planted = vec![3, 1, 2, 0];
    let target = tuple_hash(&planted);
    let results = tuple_unhash(4, target, 0, 4, 3, 0);
    assert!(results.contains(&planted));
    for r in results.iter() {
        assert_eq!(tuple_hash(r), target);
    }
}
