//! Arithmetic modulo the BN254 scalar-field prime on 256-bit values held as
//! four little-endian 64-bit limbs.

use vstd::prelude::*;
use vstd::arithmetic::div_mod::*;

verus! {

/// 2^64.
pub open spec fn b64() -> nat {
    0x1_0000_0000_0000_0000nat
}

/// 2^256.
pub open spec fn b256() -> nat {
    0x1_0000_0000_0000_0000_0000_0000_0000_0000_0000_0000_0000_0000_0000_0000_0000_0000nat
}

/// The number that four little-endian 64-bit limbs stand for.
pub open spec fn limbs_val(l: [u64; 4]) -> nat {
    l[0] as nat
        + l[1] as nat * 0x1_0000_0000_0000_0000nat
        + l[2] as nat * 0x1_0000_0000_0000_0000_0000_0000_0000_0000nat
        + l[3] as nat * 0x1_0000_0000_0000_0000_0000_0000_0000_0000_0000_0000_0000_0000nat
}

/// The BN254 scalar-field prime.
pub open spec fn modulus() -> nat {
    21888242871839275222246405745257275088548364400416034343698204186575808495617nat
}

/// Field addition of the two values (inputs need not be reduced).
pub open spec fn add_mod_spec(a: nat, b: nat) -> nat {
    (a + b) % modulus()
}

/// Field subtraction of the two values (inputs need not be reduced).
pub open spec fn sub_mod_spec(a: nat, b: nat) -> nat {
    ((a as int - b as int) % (modulus() as int)) as nat
}

/// Field multiplication of the two values (inputs need not be reduced).
pub open spec fn mul_mod_spec(a: nat, b: nat) -> nat {
    (a * b) % modulus()
}

/// Field negation of the value (input need not be reduced).
pub open spec fn neg_mod_spec(a: nat) -> nat {
    sub_mod_spec(0, a)
}

proof fn lemma_limbs_val_bound(l: [u64; 4])
    ensures
        limbs_val(l) < b256(),
{
}

/// The limbs of the modulus.
fn p_limbs() -> (r: [u64; 4])
    ensures
        limbs_val(r) == modulus(),
{
    [0x43e1f593f0000001u64, 0x2833e84879b97091u64, 0xb85045b68181585du64, 0x30644e72e131a029u64]
}

fn add_limb(a: u64, b: u64, c: u64) -> (r: (u64, u64))
    requires
        c <= 1,
    ensures
        r.1 <= 1,
        r.0 + r.1 * b64() == a + b + c,
{
    let s: u128 = a as u128 + b as u128 + c as u128;
    if s >= 0x1_0000_0000_0000_0000u128 {
        ((s - 0x1_0000_0000_0000_0000u128) as u64, 1)
    } else {
        (s as u64, 0)
    }
}

fn sub_limb(a: u64, b: u64, c: u64) -> (r: (u64, u64))
    requires
        c <= 1,
    ensures
        r.1 <= 1,
        r.0 as int - r.1 * b64() == a as int - b as int - c as int,
{
    if a as u128 >= b as u128 + c as u128 {
        ((a as u128 - b as u128 - c as u128) as u64, 0)
    } else {
        ((a as u128 + 0x1_0000_0000_0000_0000u128 - b as u128 - c as u128) as u64, 1)
    }
}

/// 256-bit addition with carry out.
fn add256(a: [u64; 4], b: [u64; 4]) -> (r: ([u64; 4], u64))
    ensures
        r.1 <= 1,
        limbs_val(r.0) + r.1 * b256() == limbs_val(a) + limbs_val(b),
{
    let (r0, c0) = add_limb(a[0], b[0], 0);
    let (r1, c1) = add_limb(a[1], b[1], c0);
    let (r2, c2) = add_limb(a[2], b[2], c1);
    let (r3, c3) = add_limb(a[3], b[3], c2);
    ([r0, r1, r2, r3], c3)
}

/// 256-bit subtraction of a smaller value.
fn sub256(a: [u64; 4], b: [u64; 4]) -> (r: [u64; 4])
    requires
        limbs_val(a) >= limbs_val(b),
    ensures
        limbs_val(r) == limbs_val(a) - limbs_val(b),
{
    let (r0, c0) = sub_limb(a[0], b[0], 0);
    let (r1, c1) = sub_limb(a[1], b[1], c0);
    let (r2, c2) = sub_limb(a[2], b[2], c1);
    let (r3, c3) = sub_limb(a[3], b[3], c2);
    let r = [r0, r1, r2, r3];
    proof {
        lemma_limbs_val_bound(r);
        assert(limbs_val(r) as int - c3 * b256() == limbs_val(a) as int - limbs_val(b) as int);
    }
    r
}

/// Whether the first value is at least the second.
fn ge256(a: [u64; 4], b: [u64; 4]) -> (r: bool)
    ensures
        r == (limbs_val(a) >= limbs_val(b)),
{
    if a[3] != b[3] {
        a[3] > b[3]
    } else if a[2] != b[2] {
        a[2] > b[2]
    } else if a[1] != b[1] {
        a[1] > b[1]
    } else {
        a[0] >= b[0]
    }
}

/// The value reduced modulo the prime.
pub fn reduce(a: [u64; 4]) -> (r: [u64; 4])
    ensures
        limbs_val(r) == limbs_val(a) % modulus(),
        limbs_val(r) < modulus(),
{
    let p = p_limbs();
    let mut x = a;
    while ge256(x, p)
        invariant
            limbs_val(p) == modulus(),
            limbs_val(x) % modulus() == limbs_val(a) % modulus(),
        decreases limbs_val(x),
    {
        let y = sub256(x, p);
        proof {
            lemma_mod_sub_multiples_vanish(limbs_val(x) as int, modulus() as int);
        }
        x = y;
    }
    proof {
        lemma_small_mod(limbs_val(x), modulus());
    }
    x
}

/// Addition modulo the prime (`scalar_add_mod`).
pub fn scalar_add_mod(a: [u64; 4], b: [u64; 4]) -> (r: [u64; 4])
    ensures
        limbs_val(r) == add_mod_spec(limbs_val(a), limbs_val(b)),
        limbs_val(r) < modulus(),
{
    let p = p_limbs();
    let x = reduce(a);
    let y = reduce(b);
    let (s, c) = add256(x, y);
    proof {
        lemma_limbs_val_bound(s);
        lemma_add_mod_noop(limbs_val(a) as int, limbs_val(b) as int, modulus() as int);
    }
    if ge256(s, p) {
        let r = sub256(s, p);
        proof {
            lemma_small_mod(limbs_val(r), modulus());
            lemma_mod_sub_multiples_vanish(limbs_val(s) as int, modulus() as int);
        }
        r
    } else {
        proof {
            lemma_small_mod(limbs_val(s), modulus());
        }
        s
    }
}

/// Subtraction modulo the prime (`scalar_sub_mod`).
pub fn scalar_sub_mod(a: [u64; 4], b: [u64; 4]) -> (r: [u64; 4])
    ensures
        limbs_val(r) == sub_mod_spec(limbs_val(a), limbs_val(b)),
        limbs_val(r) < modulus(),
{
    let p = p_limbs();
    let x = reduce(a);
    let y = reduce(b);
    proof {
        lemma_sub_mod_noop(limbs_val(a) as int, limbs_val(b) as int, modulus() as int);
        lemma_mod_twice(limbs_val(a) as int, modulus() as int);
    }
    if ge256(x, y) {
        let r = sub256(x, y);
        proof {
            lemma_small_mod(limbs_val(r), modulus());
        }
        r
    } else {
        let (t, c) = add256(x, p);
        proof {
            lemma_limbs_val_bound(t);
        }
        let r = sub256(t, y);
        proof {
            lemma_small_mod(limbs_val(r), modulus());
            lemma_mod_add_multiples_vanish(limbs_val(x) as int - limbs_val(y) as int, modulus() as int);
        }
        r
    }
}

/// Negation modulo the prime (`scalar_neg_mod`).
pub fn scalar_neg_mod(a: [u64; 4]) -> (r: [u64; 4])
    ensures
        limbs_val(r) == neg_mod_spec(limbs_val(a)),
        limbs_val(r) < modulus(),
{
    scalar_sub_mod([0u64, 0u64, 0u64, 0u64], a)
}

proof fn lemma_mod_sum_left(a: int, x: int, m: int)
    requires
        m > 0,
    ensures
        (a % m + x) % m == (a + x) % m,
{
    lemma_add_mod_noop(a, x, m);
    lemma_add_mod_noop(a % m, x, m);
    lemma_mod_twice(a, m);
}

proof fn lemma_mul_small_step(acc: int, base: int, k: int, k2: int, bit: int, m: int)
    requires
        m > 0,
        k == 2 * k2 + bit,
    ensures
        ((acc + bit * base) % m + ((base + base) % m) * k2) % m == (acc + base * k) % m,
{
    let a = acc + bit * base;
    let b = base + base;
    lemma_mod_sum_left(a, (b % m) * k2, m);
    lemma_mul_mod_noop_left(b, k2, m);
    lemma_mod_sum_left((b % m) * k2, a, m);
    lemma_mod_sum_left(b * k2, a, m);
    assert(a + b * k2 == acc + base * k) by (nonlinear_arith)
        requires
            k == 2 * k2 + bit,
            a == acc + bit * base,
            b == base + base,
    ;
}

/// Product of a reduced value and a machine word, modulo the prime.
fn mul_small(x: [u64; 4], m: u64) -> (r: [u64; 4])
    requires
        limbs_val(x) < modulus(),
    ensures
        limbs_val(r) == (limbs_val(x) * (m as nat)) % modulus(),
        limbs_val(r) < modulus(),
{
    let mut acc: [u64; 4] = [0u64, 0u64, 0u64, 0u64];
    let mut base = x;
    let mut k = m;
    proof {
        lemma_small_mod(limbs_val(x), modulus());
    }
    while k > 0
        invariant
            limbs_val(acc) < modulus(),
            limbs_val(base) < modulus(),
            (limbs_val(acc) + limbs_val(base) * (k as nat)) % modulus() == (limbs_val(x) * (m as nat)) % modulus(),
        decreases k,
    {
        let bit: u64 = k % 2;
        let k2: u64 = k / 2;
        let ghost old_acc = limbs_val(acc);
        let ghost old_base = limbs_val(base);
        if bit == 1 {
            acc = scalar_add_mod(acc, base);
        } else {
            proof {
                lemma_small_mod(limbs_val(acc), modulus());
            }
        }
        base = scalar_add_mod(base, base);
        proof {
            lemma_mul_small_step(old_acc as int, old_base as int, k as int, k2 as int, bit as int, modulus() as int);
        }
        k = k2;
    }
    proof {
        lemma_small_mod(limbs_val(acc), modulus());
    }
    acc
}

/// The value of limbs `j..4` as a number in its own right.
pub open spec fn high_val(l: [u64; 4], j: int) -> nat
    decreases 4 - j,
{
    if j >= 4 || j < 0 {
        0
    } else {
        l[j] as nat + b64() * high_val(l, j + 1)
    }
}

proof fn lemma_high_val_full(l: [u64; 4])
    ensures
        high_val(l, 0) == limbs_val(l),
{
    reveal_with_fuel(high_val, 5);
}

proof fn lemma_mul_limb_step(acc: int, x: int, h: int, limb: int, m: int)
    requires
        m > 0,
        acc == (x * h) % m,
    ensures
        (((acc * 0x1_0000_0000) % m * 0x1_0000_0000) % m + (x * limb) % m) % m
            == (x * (limb + 0x1_0000_0000_0000_0000 * h)) % m,
{
    lemma_mul_mod_noop_left(acc * 0x1_0000_0000, 0x1_0000_0000, m);
    lemma_mul_mod_noop_left(x * h, 0x1_0000_0000, m);
    lemma_mul_mod_noop_left((x * h) * 0x1_0000_0000, 0x1_0000_0000, m);
    lemma_mul_mod_noop_left(acc, 0x1_0000_0000, m);
    assert(((x * h) * 0x1_0000_0000) * 0x1_0000_0000 == x * (0x1_0000_0000_0000_0000 * h)) by (nonlinear_arith);
    let t = x * (0x1_0000_0000_0000_0000 * h);
    assert((((acc * 0x1_0000_0000) % m * 0x1_0000_0000) % m) == t % m) by {
        lemma_mul_mod_noop_left(acc * 0x1_0000_0000, 0x1_0000_0000, m);
        lemma_mul_mod_noop_left((x * h) % m, 0x1_0000_0000, m);
        lemma_mul_mod_noop_left(x * h, 0x1_0000_0000, m);
        lemma_mul_mod_noop_left((x * h) * 0x1_0000_0000, 0x1_0000_0000, m);
        lemma_mul_mod_noop_left(((x * h) * 0x1_0000_0000) % m, 0x1_0000_0000, m);
        assert((acc * 0x1_0000_0000) % m == ((x * h) * 0x1_0000_0000) % m);
    }
    lemma_add_mod_noop(t, x * limb, m);
    assert(t + x * limb == x * (limb + 0x1_0000_0000_0000_0000 * h)) by (nonlinear_arith)
        requires
            t == x * (0x1_0000_0000_0000_0000 * h),
    ;
}

/// Multiplication modulo the prime (`scalar_mul_mod`).
pub fn scalar_mul_mod(a: [u64; 4], b: [u64; 4]) -> (r: [u64; 4])
    ensures
        limbs_val(r) == mul_mod_spec(limbs_val(a), limbs_val(b)),
        limbs_val(r) < modulus(),
{
    let x = reduce(a);
    let mut acc: [u64; 4] = [0u64, 0u64, 0u64, 0u64];
    let mut j: usize = 4;
    proof {
        lemma_small_mod(0, modulus());
        assert(high_val(b, 4) == 0);
        assert(limbs_val(x) * high_val(b, 4) == 0);
    }
    while j > 0
        invariant
            j <= 4,
            limbs_val(x) < modulus(),
            limbs_val(x) == limbs_val(a) % modulus(),
            limbs_val(acc) == (limbs_val(x) * high_val(b, j as int)) % modulus(),
        decreases j,
    {
        j = j - 1;
        let ghost old_acc = limbs_val(acc);
        let t1 = mul_small(acc, 0x1_0000_0000u64);
        let t2 = mul_small(t1, 0x1_0000_0000u64);
        let t3 = mul_small(x, b[j]);
        acc = scalar_add_mod(t2, t3);
        proof {
            lemma_mul_limb_step(old_acc as int, limbs_val(x) as int, high_val(b, j + 1) as int, b[j as int] as int, modulus() as int);
            lemma_mod_twice(limbs_val(t2) as int + limbs_val(t3) as int, modulus() as int);
        }
    }
    proof {
        lemma_high_val_full(b);
        lemma_mul_mod_noop_left(limbs_val(a) as int, limbs_val(b) as int, modulus() as int);
    }
    acc
}

} // verus!
