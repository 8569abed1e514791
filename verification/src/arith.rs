//! Modular arithmetic over 2^64: wrapping operations as spec functions, the
//! fixed rotation used by the xxHash-style tuple hash, and inversion of odd
//! multipliers by Newton-Raphson doubling.
use vstd::prelude::*;

verus! {

use vstd::arithmetic::div_mod::{
    lemma_fundamental_div_mod,
    lemma_fundamental_div_mod_converse_mod,
    lemma_mod_mod,
    lemma_mod_multiples_vanish,
    lemma_mul_mod_noop_general,
    lemma_sub_mod_noop,
    lemma_small_mod,
};
use vstd::arithmetic::power2::{lemma2_to64, lemma2_to64_rest, lemma_pow2_adds, lemma_pow2_pos, pow2};
use vstd::arithmetic::mul::lemma_mul_is_associative;

/// Multipliers of CPython's current (xxHash-derived) tuple hash.
pub const PYHASH_XXPRIME_1: u64 = 11400714785074694791;
pub const PYHASH_XXPRIME_2: u64 = 14029467366897019727;
pub const PYHASH_XXPRIME_5: u64 = 2870177450012600261;
/// Inverse of `PYHASH_XXPRIME_1` modulo 2^64.
pub const PYHASH_XXPRIME_1_INV: u64 = 614540362697595703;
/// Inverse of `PYHASH_XXPRIME_2` modulo 2^64.
pub const PYHASH_XXPRIME_2_INV: u64 = 839798700976720815;

/// Parameters of the older 1000003-based tuple hash.
pub const PYHASH_PARAM_OLD_1: u64 = 0x345678;
pub const PYHASH_PARAM_OLD_2: u64 = 1000003;
pub const PYHASH_PARAM_OLD_3: u64 = 82520;
pub const PYHASH_PARAM_OLD_4: u64 = 97531;
/// Inverse of `PYHASH_PARAM_OLD_2` modulo 2^64.
pub const PYHASH_PARAM_OLD_2_INV: u64 = 16109806864799210091;
/// Inverse of the multiplier in force at the last position,
/// `PYHASH_PARAM_OLD_2 + PYHASH_PARAM_OLD_3 + 2`, modulo 2^64.
pub const PYHASH_PARAM_OLD_MULT_INV: u64 = 9613198545066795445;

/// Multiplication modulo 2^64.
pub open spec fn mulw(x: u64, y: u64) -> u64 {
    ((x * y) % 0x1_0000_0000_0000_0000) as u64
}

/// Addition modulo 2^64.
pub open spec fn addw(x: u64, y: u64) -> u64 {
    ((x + y) % 0x1_0000_0000_0000_0000) as u64
}

/// Subtraction modulo 2^64.
pub open spec fn subw(x: u64, y: u64) -> u64 {
    ((x - y) % 0x1_0000_0000_0000_0000) as u64
}

/// Left rotation by the fixed amount the xxHash-style model specifies.
pub open spec fn rot_left(x: u64) -> u64 {
    (x << 31) | (x >> 33)
}

/// Right rotation: the exact inverse of `rot_left`.
pub open spec fn rot_right(x: u64) -> u64 {
    (x >> 31) | (x << 33)
}

pub broadcast proof fn lemma_wrapping_mul(x: u64, y: u64)
    ensures
        #[trigger] vstd::wrapping::u64_specs::wrapping_mul(x, y) == mulw(x, y),
{
}

pub broadcast proof fn lemma_wrapping_add(x: u64, y: u64)
    ensures
        #[trigger] vstd::wrapping::u64_specs::wrapping_add(x, y) == addw(x, y),
{
    if x + y > u64::MAX {
        lemma_mod_multiples_vanish(-1, x + y, 0x1_0000_0000_0000_0000);
        lemma_small_mod((x + y - 0x1_0000_0000_0000_0000) as nat, 0x1_0000_0000_0000_0000);
    } else {
        lemma_small_mod((x + y) as nat, 0x1_0000_0000_0000_0000);
    }
}

pub broadcast proof fn lemma_wrapping_sub(x: u64, y: u64)
    ensures
        #[trigger] vstd::wrapping::u64_specs::wrapping_sub(x, y) == subw(x, y),
{
    if x - y < 0 {
        lemma_mod_multiples_vanish(1, x - y, 0x1_0000_0000_0000_0000);
        lemma_small_mod((x - y + 0x1_0000_0000_0000_0000) as nat, 0x1_0000_0000_0000_0000);
    } else {
        lemma_small_mod((x - y) as nat, 0x1_0000_0000_0000_0000);
    }
}

pub fn PYHASH_XXROTATE(x: u64) -> (r: u64)
    ensures
        r == rot_left(x),
{
    (x << 31) | (x >> 33)
}

pub fn PYHASH_XXROTATE_REV(x: u64) -> (r: u64)
    ensures
        r == rot_right(x),
{
    (x >> 31) | (x << 33)
}

/// The two rotations are exact inverses of each other.
pub proof fn lemma_rotate_round_trip(x: u64)
    by (bit_vector)
    ensures
        rot_right(rot_left(x)) == x,
        rot_left(rot_right(x)) == x,
{
}

/// One Newton-Raphson doubling step: if `r` inverts `x` modulo 2^k, then
/// `r * (2 - x*r)` inverts `x` modulo 2^min(64, 2k).
proof fn lemma_newton_step(x: u64, r: u64, k: nat)
    requires
        1 <= k <= 64,
        (x as int * r as int) % pow2(k) as int == 1,
    ensures
        (x as int * mulw(r, subw(2, mulw(r, x))) as int) % pow2(
            if 2 * k < 64 { 2 * k } else { 64 },
        ) as int == 1,
{
    let m: int = 0x1_0000_0000_0000_0000;
    let j: nat = if 2 * k < 64 { 2 * k } else { 64 };
    let t: int = r as int * x as int;
    vstd::arithmetic::mul::lemma_mul_is_commutative(x as int, r as int);
    assert(t % pow2(k) as int == 1);
    let p: u64 = mulw(r, x);
    let s: u64 = subw(2, p);
    let r2: u64 = mulw(r, s);

    lemma_pow2_pos(k);
    lemma_pow2_pos(j);
    lemma_pow2_pos((2 * k - j) as nat);
    lemma_pow2_pos((64 - j) as nat);
    vstd::arithmetic::power2::lemma_pow2_strictly_increases(0, j);
    lemma2_to64();

    // p == t % m, s == (2 - t) % m.
    assert(p as int == t % m);
    assert(s as int == (2 - t) % m) by {
        lemma_sub_mod_noop(2, t, m);
        lemma_small_mod(2, m as nat);
    }
    // x * r2 == t * (2 - t) modulo m.
    assert((x as int * r2 as int) % m == (t * (2 - t)) % m) by {
        lemma_mul_mod_noop_general(x as int, (r as int * s as int), m);
        lemma_mul_is_associative(x as int, r as int, s as int);
        lemma_mul_mod_noop_general(t, (2 - t), m);
    }
    // t == q * 2^k + 1, so t * (2 - t) == 1 - (q^2 * 2^2k).
    let q = t / pow2(k) as int;
    lemma_fundamental_div_mod(t, pow2(k) as int);
    assert(t == pow2(k) * q + 1);
    assert(t * (2 - t) == 1 - (t - 1) * (t - 1)) by (nonlinear_arith);
    assert((t - 1) * (t - 1) == (pow2(k) as int * pow2(k) as int) * (q * q)) by (nonlinear_arith)
        requires
            t - 1 == pow2(k) as int * q,
    ;
    lemma_pow2_adds(k, k);
    // 2^2k == 2^j * 2^(2k - j).
    lemma_pow2_adds(j, (2 * k - j) as nat);
    let c = pow2((2 * k - j) as nat) as int * (q * q);
    assert(t * (2 - t) == 1 - pow2(j) * c) by {
        lemma_mul_is_associative(pow2(j) as int, pow2((2 * k - j) as nat) as int, q * q);
    }
    assert((t * (2 - t)) % pow2(j) as int == 1) by {
        lemma_mod_multiples_vanish(-c, 1, pow2(j) as int);
        assert(pow2(j) as int * -c == -(pow2(j) as int * c)) by (nonlinear_arith);
        lemma_small_mod(1, pow2(j));
    }
    // Reduce modulo 2^j below modulo 2^64.
    lemma_pow2_adds(j, (64 - j) as nat);
    lemma2_to64_rest();
    assert(m == pow2(j) as int * pow2((64 - j) as nat) as int);
    lemma_mod_mod(x as int * r2 as int, pow2(j) as int, pow2((64 - j) as nat) as int);
    lemma_mod_mod(t * (2 - t), pow2(j) as int, pow2((64 - j) as nat) as int);
}

/// An odd number is its own inverse modulo 8.
proof fn lemma_newton_seed(x: u64)
    requires
        x % 2 == 1,
    ensures
        (x as int * x as int) % pow2(3) as int == 1,
{
    let xi = x as int;
    let h = xi / 2;
    lemma_fundamental_div_mod(xi, 2);
    assert(xi == 2 * h + 1);
    assert(xi * xi - 1 == 4 * (h * (h + 1))) by (nonlinear_arith)
        requires
            xi == 2 * h + 1,
    ;
    let e = h / 2;
    lemma_fundamental_div_mod(h, 2);
    if h % 2 == 0 {
        assert(h * (h + 1) == 2 * (e * (h + 1))) by (nonlinear_arith)
            requires
                h == 2 * e,
        ;
        lemma2_to64();
        lemma_fundamental_div_mod_converse_mod(xi * xi, 8, e * (h + 1), 1);
    } else {
        assert(h * (h + 1) == 2 * (h * (e + 1))) by (nonlinear_arith)
            requires
                h == 2 * e + 1,
        ;
        lemma2_to64();
        lemma_fundamental_div_mod_converse_mod(xi * xi, 8, h * (e + 1), 1);
    }
}

/// One spec-level Newton-Raphson step.
pub open spec fn spec_newton_step(x: u64, r: u64) -> u64 {
    mulw(r, subw(2, mulw(r, x)))
}

/// The inverse of `x` modulo 2^64, as six Newton-Raphson doubling steps.
/// Meaningful only for odd `x`: see `lemma_inv64`.
#[verifier::opaque]
pub open spec fn inv64(x: u64) -> u64 {
    spec_newton_step(
        x,
        spec_newton_step(
            x,
            spec_newton_step(x, spec_newton_step(x, spec_newton_step(x, spec_newton_step(x, x)))),
        ),
    )
}

/// For odd `x`, `inv64(x)` really is the inverse of `x` modulo 2^64.
pub proof fn lemma_inv64(x: u64)
    requires
        x % 2 == 1,
    ensures
        mulw(x, inv64(x)) == 1,
        mulw(inv64(x), x) == 1,
{
    reveal(crate::arith::inv64);
    lemma_newton_seed(x);
    let r1 = spec_newton_step(x, x);
    lemma_newton_step(x, x, 3);
    let r2 = spec_newton_step(x, r1);
    lemma_newton_step(x, r1, 6);
    let r3 = spec_newton_step(x, r2);
    lemma_newton_step(x, r2, 12);
    let r4 = spec_newton_step(x, r3);
    lemma_newton_step(x, r3, 24);
    let r5 = spec_newton_step(x, r4);
    lemma_newton_step(x, r4, 48);
    let r6 = spec_newton_step(x, r5);
    lemma_newton_step(x, r5, 64);
    lemma2_to64();
    lemma2_to64_rest();
    assert(pow2(64) as int == 0x1_0000_0000_0000_0000);
    vstd::arithmetic::mul::lemma_mul_is_commutative(x as int, r6 as int);
}

/// One exec Newton-Raphson step, `r <- r * (2 - x*r)` modulo 2^64.
fn newton_step(x: u64, r: u64) -> (r2: u64)
    ensures
        r2 == mulw(r, subw(2, mulw(r, x))),
{
    broadcast use lemma_wrapping_mul, lemma_wrapping_sub;

    r.wrapping_mul(2u64.wrapping_sub(r.wrapping_mul(x)))
}

/// Inverse of an odd multiplier in the ring of integers modulo 2^64, by
/// Newton-Raphson doubling: every odd 64-bit value is a unit there.
pub fn inverse_mod(x: u64) -> (r: u64)
    requires
        x % 2 == 1,
    ensures
        r == inv64(x),
        mulw(x, r) == 1,
        mulw(r, x) == 1,
{
    proof {
        reveal(crate::arith::inv64);
    }
    let mut r = x;
    r = newton_step(x, r);
    r = newton_step(x, r);
    r = newton_step(x, r);
    r = newton_step(x, r);
    r = newton_step(x, r);
    r = newton_step(x, r);
    proof {
        lemma_inv64(x);
    }
    r
}

/// Multiplying by `a` and then by `b` is the identity modulo 2^64 whenever
/// `a * b == 1` there: inverse multipliers cancel.
pub proof fn lemma_mulw_cancel(v: u64, a: u64, b: u64)
    requires
        mulw(a, b) == 1,
    ensures
        mulw(mulw(v, a), b) == v,
        mulw(mulw(v, b), a) == v,
{
    let m: int = 0x1_0000_0000_0000_0000;
    let ab: int = a as int * b as int;
    assert(ab % m == 1);
    lemma_small_mod(v as nat, m as nat);
    assert(mulw(mulw(v, a), b) == v) by {
        let va: int = v as int * a as int;
        assert(mulw(mulw(v, a), b) as int == ((va % m) * b as int) % m);
        lemma_mul_mod_noop_general(va, b as int, m);
        assert(((va % m) * b as int) % m == (va * b as int) % m);
        lemma_mul_is_associative(v as int, a as int, b as int);
        assert(va * b as int == v as int * ab);
        lemma_mul_mod_noop_general(v as int, ab, m);
        assert((v as int * ab) % m == (v as int * (ab % m)) % m);
    }
    assert(mulw(mulw(v, b), a) == v) by {
        let vb: int = v as int * b as int;
        assert(mulw(mulw(v, b), a) as int == ((vb % m) * a as int) % m);
        lemma_mul_mod_noop_general(vb, a as int, m);
        assert(((vb % m) * a as int) % m == (vb * a as int) % m);
        lemma_mul_is_associative(v as int, b as int, a as int);
        vstd::arithmetic::mul::lemma_mul_is_commutative(b as int, a as int);
        assert(vb * a as int == v as int * ab);
        lemma_mul_mod_noop_general(v as int, ab, m);
        assert((v as int * ab) % m == (v as int * (ab % m)) % m);
    }
}

/// Wrapping addition and subtraction of the same value cancel.
pub proof fn lemma_addw_subw(x: u64, y: u64)
    ensures
        subw(addw(x, y), y) == x,
        addw(subw(x, y), y) == x,
{
    let m: int = 0x1_0000_0000_0000_0000;
    lemma_small_mod(y as nat, m as nat);
    lemma_small_mod(x as nat, m as nat);
    assert(subw(addw(x, y), y) == x) by {
        lemma_sub_mod_noop(x + y, y as int, m);
    }
    assert(addw(subw(x, y), y) == x) by {
        lemma_sub_mod_noop(x + y, 0, m);
        lemma_mod_multiples_vanish(1, x - y, m);
        lemma_mod_multiples_vanish(1, x as int, m);
        assert((subw(x, y) + y) % m == (x - y + y) % m) by {
            vstd::arithmetic::div_mod::lemma_add_mod_noop(x - y, y as int, m);
        }
    }
}

/// Multiplication modulo 2^64 distributes over wrapping subtraction and addition.
pub proof fn lemma_mulw_distrib(a: u64, b: u64, c: u64)
    ensures
        mulw(subw(a, b), c) == subw(mulw(a, c), mulw(b, c)),
        mulw(addw(a, b), c) == addw(mulw(a, c), mulw(b, c)),
{
    let m: int = 0x1_0000_0000_0000_0000;
    assert(mulw(subw(a, b), c) == subw(mulw(a, c), mulw(b, c))) by {
        lemma_mul_mod_noop_general(a - b, c as int, m);
        vstd::arithmetic::mul::lemma_mul_is_distributive_sub_other_way(c as int, a as int, b as int);
        lemma_sub_mod_noop(a as int * c as int, b as int * c as int, m);
    }
    assert(mulw(addw(a, b), c) == addw(mulw(a, c), mulw(b, c))) by {
        lemma_mul_mod_noop_general(a + b, c as int, m);
        vstd::arithmetic::mul::lemma_mul_is_distributive_add_other_way(c as int, a as int, b as int);
        vstd::arithmetic::div_mod::lemma_add_mod_noop(a as int * c as int, b as int * c as int, m);
    }
}

/// Multiplication modulo 2^64 is commutative.
pub proof fn lemma_mulw_comm(x: u64, y: u64)
    ensures
        mulw(x, y) == mulw(y, x),
{
    vstd::arithmetic::mul::lemma_mul_is_commutative(x as int, y as int);
}

/// An odd number has exactly one inverse modulo 2^64.
pub proof fn lemma_inv64_unique(a: u64, x: u64)
    requires
        a % 2 == 1,
        mulw(a, x) == 1,
    ensures
        inv64(a) == x,
{
    lemma_inv64(a);
    lemma_mulw_comm(a, x);
    lemma_mulw_cancel(x, a, inv64(a));
    lemma_small_mod(inv64(a) as nat, 0x1_0000_0000_0000_0000);
    assert(mulw(1, inv64(a)) == inv64(a));
}

/// Wrapping subtraction of two values gives the same result in either order.
pub proof fn lemma_subw_sub(x: u64, a: u64, b: u64)
    ensures
        subw(subw(x, a), b) == subw(subw(x, b), a),
{
    let m: int = 0x1_0000_0000_0000_0000;
    lemma_sub_mod_noop(x - a, b as int, m);
    lemma_small_mod(b as nat, m as nat);
    lemma_sub_mod_noop(x - b, a as int, m);
    lemma_small_mod(a as nat, m as nat);
}

/// Exclusive-or by a fixed value is an involution.
pub proof fn lemma_xor_cancel(a: u64, b: u64)
    by (bit_vector)
    ensures
        (a ^ b) ^ b == a,
        a ^ (b ^ a) == b,
        (a ^ b) ^ a == b,
{
}

/// The fixed inverse constants invert their multipliers modulo 2^64.
pub proof fn lemma_inverse_constants()
    ensures
        mulw(PYHASH_XXPRIME_1, PYHASH_XXPRIME_1_INV) == 1,
        mulw(PYHASH_XXPRIME_2, PYHASH_XXPRIME_2_INV) == 1,
        mulw(PYHASH_PARAM_OLD_2, PYHASH_PARAM_OLD_2_INV) == 1,
        mulw((PYHASH_PARAM_OLD_2 + PYHASH_PARAM_OLD_3 + 2) as u64, PYHASH_PARAM_OLD_MULT_INV) == 1,
        mulw(PYHASH_XXPRIME_1_INV, PYHASH_XXPRIME_1) == 1,
        mulw(PYHASH_XXPRIME_2_INV, PYHASH_XXPRIME_2) == 1,
        mulw(PYHASH_PARAM_OLD_2_INV, PYHASH_PARAM_OLD_2) == 1,
        mulw(PYHASH_PARAM_OLD_MULT_INV, (PYHASH_PARAM_OLD_2 + PYHASH_PARAM_OLD_3 + 2) as u64) == 1,
{
}

/// Wrapping addition is commutative.
pub proof fn lemma_addw_comm(x: u64, y: u64)
    ensures
        addw(x, y) == addw(y, x),
{
}

} // verus!
