use tuple_crasher::arith::{inverse_mod, PYHASH_XXROTATE, PYHASH_XXROTATE_REV};
use tuple_crasher::hash::{tuple_hash, tuple_hash_old};

#[test]
fn inverse_of_first_prime() {
    let a: u64 = 11400714785074694791;
    let inv = inverse_mod(a);
    assert_eq!(a.wrapping_mul(inv), 1);
    assert_eq!(inv, 614540362697595703);
}

#[test]
fn inverse_of_second_prime() {
    let a: u64 = 14029467366897019727;
    let inv = inverse_mod(a);
    assert_eq!(a.wrapping_mul(inv), 1);
    assert_eq!(inv, 839798700976720815);
}

#[test]
fn inverse_of_legacy_base() {
    let a: u64 = 1000003;
    let inv = inverse_mod(a);
    assert_eq!(a.wrapping_mul(inv), 1);
    let b: u64 = 1000003 + 82520 + 2;
    let invb = inverse_mod(b);
    assert_eq!(b.wrapping_mul(invb), 1);
}

#[test]
fn inverse_of_many_odd_values() {
    let mut a: u64 = 1;
    while a < 2_000_000 {
        let inv = inverse_mod(a);
        assert_eq!(a.wrapping_mul(inv), 1);
        a = a.wrapping_add(49999);
        if a % 2 == 0 {
            a += 1;
        }
    }
    for a in [u64::MAX, u64::MAX - 2, 0x8000_0000_0000_0001, 12345678901234567] {
        let inv = inverse_mod(a);
        assert_eq!(a.wrapping_mul(inv), 1);
    }
}

#[test]
fn rotation_round_trip() {
    for x in [0u64, 1, u64::MAX, 0xdead_beef_cafe_f00d, 1 << 63] {
        assert_eq!(PYHASH_XXROTATE_REV(PYHASH_XXROTATE(x)), x);
        assert_eq!(PYHASH_XXROTATE(PYHASH_XXROTATE_REV(x)), x);
    }
}

// The forward/reverse step pair of the current model, written out through the
// public pieces: one accumulation step followed by its inverse is the
// identity, for a spread of accumulator/element pairs.
#[test]
fn step_round_trip_modern() {
    let p1: u64 = 11400714785074694791;
    let p2: u64 = 14029467366897019727;
    let p1_inv = inverse_mod(p1);
    let mut acc: u64 = 0x1234_5678_9abc_def0;
    let mut e: u64 = 7;
    for _ in 0..200 {
        let fwd = PYHASH_XXROTATE(acc.wrapping_add(e.wrapping_mul(p2))).wrapping_mul(p1);
        let back = PYHASH_XXROTATE_REV(fwd.wrapping_mul(p1_inv)).wrapping_sub(e.wrapping_mul(p2));
        assert_eq!(back, acc);
        acc = acc.wrapping_mul(6364136223846793005).wrapping_add(1442695040888963407);
        e = e.wrapping_mul(2862933555777941757).wrapping_add(3037000493);
    }
}

// The same for the older model: xor then multiply, undone by the inverse
// multiplier and xor, for any odd multiplier.
#[test]
fn step_round_trip_legacy() {
    let mut acc: u64 = 99;
    let mut e: u64 = 1;
    let mut mult: u64 = 1000003;
    for _ in 0..200 {
        let fwd = (acc ^ e).wrapping_mul(mult);
        let back = fwd.wrapping_mul(inverse_mod(mult)) ^ e;
        assert_eq!(back, acc);
        acc = acc.wrapping_mul(6364136223846793005).wrapping_add(1442695040888963407);
        e = e.wrapping_mul(2862933555777941757).wrapping_add(3037000493);
        mult = mult.wrapping_add(82520).wrapping_add(acc & 0xfffe);
        if mult % 2 == 0 {
            mult = mult.wrapping_add(1);
        }
    }
}

#[test]
fn tuple_hash_known_values() {
    assert_eq!(tuple_hash(&vec![1, 2, 3]), 529344067295497451);
    assert_eq!(tuple_hash(&vec![3, 7]), 4803095124130366729);
    assert_eq!(tuple_hash(&vec![12, 34, 56, 78, 90]), 8739578978658423287);
}

#[test]
fn tuple_hash_old_known_values() {
    assert_eq!(tuple_hash_old(&vec![1, 2, 3]), 2528502973977326415);
    assert_eq!(tuple_hash_old(&vec![3, 7]), 3713083796998483481);
    assert_eq!(tuple_hash_old(&vec![12, 34, 56, 78, 90]), 907939530534758277);
}
