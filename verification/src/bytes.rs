//! Little-endian byte encodings of integers and field constants.

use vstd::prelude::*;
use crate::scalar::{limbs_val, b64};

verus! {

/// 256 to the power `k`.
pub open spec fn pow256(k: nat) -> nat
    decreases k,
{
    if k == 0 {
        1
    } else {
        256 * pow256((k - 1) as nat)
    }
}

/// The number that a little-endian byte string stands for.
pub open spec fn le_nat(bytes: Seq<u8>) -> nat
    decreases bytes.len(),
{
    if bytes.len() == 0 {
        0
    } else {
        bytes[0] as nat + 256 * le_nat(bytes.drop_first())
    }
}

/// The value of a little-endian byte string read as a two's-complement `i128`
/// (bits above 128 are dropped).
pub open spec fn signed128(u: nat) -> int {
    let v = u % 0x1_0000_0000_0000_0000_0000_0000_0000_0000nat;
    if v < 0x8000_0000_0000_0000_0000_0000_0000_0000nat {
        v as int
    } else {
        v as int - 0x1_0000_0000_0000_0000_0000_0000_0000_0000int
    }
}

pub proof fn lemma_le_nat_append(a: Seq<u8>, b: Seq<u8>)
    ensures
        le_nat(a + b) == le_nat(a) + pow256(a.len()) * le_nat(b),
    decreases a.len(),
{
    if a.len() == 0 {
        assert(a + b =~= b);
        assert(le_nat(a) == 0);
        assert(pow256(0) == 1);
    } else {
        assert((a + b).drop_first() =~= a.drop_first() + b);
        lemma_le_nat_append(a.drop_first(), b);
        assert((a + b)[0] == a[0]);
        assert(le_nat(a + b) == a[0] as nat + 256 * le_nat(a.drop_first() + b));
        assert(le_nat(a) == a[0] as nat + 256 * le_nat(a.drop_first()));
        assert(pow256(a.len()) == 256 * pow256(a.drop_first().len()));
        let x = le_nat(a.drop_first());
        let p = pow256(a.drop_first().len());
        let bb = le_nat(b);
        assert(256 * (x + p * bb) == 256 * x + (256 * p) * bb) by (nonlinear_arith);
    }
}

/// A string of zero bytes stands for 0.
pub proof fn lemma_le_nat_zero(a: Seq<u8>)
    requires
        forall|i: int| 0 <= i < a.len() ==> a[i] == 0u8,
    ensures
        le_nat(a) == 0,
    decreases a.len(),
{
    if a.len() > 0 {
        lemma_le_nat_zero(a.drop_first());
    }
}

pub proof fn lemma_le_nat_bound(a: Seq<u8>)
    ensures
        le_nat(a) < pow256(a.len()),
    decreases a.len(),
{
    if a.len() > 0 {
        lemma_le_nat_bound(a.drop_first());
        assert(le_nat(a) < pow256(a.len())) by (nonlinear_arith)
            requires
                le_nat(a) == a[0] as nat + 256 * le_nat(a.drop_first()),
                le_nat(a.drop_first()) < pow256(a.drop_first().len()),
                pow256(a.len()) == 256 * pow256(a.drop_first().len()),
                a[0] < 256,
        ;
    }
}

proof fn lemma_pow256_8()
    ensures
        pow256(8) == b64(),
{
    reveal_with_fuel(pow256, 9);
}

/// The little-endian bytes of a `u64` (`u64::to_le_bytes`).
pub fn u64_le_bytes(x: u64) -> (r: Vec<u8>)
    ensures
        r@.len() == 8,
        le_nat(r@) == x,
{
    let mut r: Vec<u8> = Vec::new();
    let mut y = x;
    let mut k: usize = 0;
    proof {
        assert(r@ =~= Seq::<u8>::empty());
        assert(le_nat(r@) == 0);
        assert(pow256(0) == 1);
        lemma_pow256_8();
    }
    while k < 8
        invariant
            k <= 8,
            r@.len() == k,
            le_nat(r@) + pow256(k as nat) * y == x,
            y < pow256((8 - k) as nat),
        decreases 8 - k,
    {
        let b = (y % 256) as u8;
        let y2 = y / 256;
        proof {
            lemma_le_nat_append(r@, seq![b]);
            assert(le_nat(seq![b]) == b as nat) by {
                assert(seq![b].drop_first() =~= Seq::<u8>::empty());
                assert(le_nat(Seq::<u8>::empty()) == 0);
            }
            assert(pow256((k + 1) as nat) == 256 * pow256(k as nat));
            assert(pow256((8 - k) as nat) == 256 * pow256((8 - k - 1) as nat));
            assert(le_nat(r@) + pow256(k as nat) * b + pow256((k + 1) as nat) * y2 == x) by (nonlinear_arith)
                requires
                    le_nat(r@) + pow256(k as nat) * y == x,
                    y == 256 * y2 + b,
                    pow256((k + 1) as nat) == 256 * pow256(k as nat),
            ;
            assert(y2 < pow256((8 - k - 1) as nat)) by (nonlinear_arith)
                requires
                    y < 256 * pow256((8 - k - 1) as nat),
                    y2 == y / 256,
            ;
        }
        let ghost old_r = r@;
        r.push(b);
        assert(r@ =~= old_r + seq![b]);
        y = y2;
        k += 1;
    }
    proof {
        reveal_with_fuel(pow256, 1);
    }
    r
}

proof fn lemma_combine_limbs(l: [u64; 4], x01: nat, x012: nat, x: nat)
    requires
        x01 == l[0] as nat + 0x1_0000_0000_0000_0000nat * l[1] as nat,
        x012 == x01 + 0x1_0000_0000_0000_0000_0000_0000_0000_0000nat * l[2] as nat,
        x == x012 + 0x1_0000_0000_0000_0000_0000_0000_0000_0000_0000_0000_0000_0000nat * l[3] as nat,
    ensures
        x == limbs_val(l),
{
}

/// The 32 little-endian bytes of a field constant's limbs.
pub fn limbs_le_bytes(l: [u64; 4]) -> (r: Vec<u8>)
    ensures
        r@.len() == 32,
        le_nat(r@) == limbs_val(l),
{
    let b0 = u64_le_bytes(l[0]);
    let b1 = u64_le_bytes(l[1]);
    let b2 = u64_le_bytes(l[2]);
    let b3 = u64_le_bytes(l[3]);
    let mut r: Vec<u8> = Vec::new();
    let mut i: usize = 0;
    while i < 8
        invariant
            i <= 8,
            b0@.len() == 8,
            b1@.len() == 8,
            b2@.len() == 8,
            b3@.len() == 8,
            r@ =~= b0@.subrange(0, i as int),
        decreases 8 - i,
    {
        r.push(b0[i]);
        i += 1;
    }
    let mut i: usize = 0;
    while i < 8
        invariant
            i <= 8,
            b1@.len() == 8,
            b2@.len() == 8,
            b3@.len() == 8,
            r@ =~= b0@ + b1@.subrange(0, i as int),
        decreases 8 - i,
    {
        r.push(b1[i]);
        i += 1;
    }
    let mut i: usize = 0;
    while i < 8
        invariant
            i <= 8,
            b2@.len() == 8,
            b3@.len() == 8,
            r@ =~= b0@ + b1@ + b2@.subrange(0, i as int),
        decreases 8 - i,
    {
        r.push(b2[i]);
        i += 1;
    }
    let mut i: usize = 0;
    while i < 8
        invariant
            i <= 8,
            b3@.len() == 8,
            r@ =~= b0@ + b1@ + b2@ + b3@.subrange(0, i as int),
        decreases 8 - i,
    {
        r.push(b3[i]);
        i += 1;
    }
    proof {
        assert(b0@.subrange(0, 8) =~= b0@);
        assert(b1@.subrange(0, 8) =~= b1@);
        assert(b2@.subrange(0, 8) =~= b2@);
        assert(b3@.subrange(0, 8) =~= b3@);
        lemma_pow256_8();
        lemma_le_nat_append(b0@ + b1@ + b2@, b3@);
        lemma_le_nat_append(b0@ + b1@, b2@);
        lemma_le_nat_append(b0@, b1@);
        reveal_with_fuel(pow256, 33);
        assert(pow256(16) == 0x1_0000_0000_0000_0000_0000_0000_0000_0000nat);
        assert(pow256(24) == 0x1_0000_0000_0000_0000_0000_0000_0000_0000_0000_0000_0000_0000nat);
        assert((b0@ + b1@).len() == 16);
        assert((b0@ + b1@ + b2@).len() == 24);
        assert(le_nat(b0@ + b1@) == l[0] as nat + 0x1_0000_0000_0000_0000nat * l[1] as nat);
        assert(le_nat(b0@ + b1@ + b2@) == le_nat(b0@ + b1@) + 0x1_0000_0000_0000_0000_0000_0000_0000_0000nat * l[2] as nat);
        assert(le_nat(r@) == le_nat(b0@ + b1@ + b2@) + 0x1_0000_0000_0000_0000_0000_0000_0000_0000_0000_0000_0000_0000nat * l[3] as nat);
        lemma_combine_limbs(l, le_nat(b0@ + b1@), le_nat(b0@ + b1@ + b2@), le_nat(r@));
    }
    r
}

/// Reads eight little-endian bytes as a `u64` (`u64::from_le_bytes`).
pub fn u64_from_le(bytes: &[u8], start: usize) -> (r: u64)
    requires
        start + 8 <= bytes@.len(),
    ensures
        r == le_nat(bytes@.subrange(start as int, start + 8)),
{
    let mut v: u64 = 0;
    let mut i: usize = 8;
    let n = bytes.len();
    proof {
        lemma_le_nat_bound(bytes@.subrange(start as int, start + 8));
    }
    while i > 0
        invariant
            i <= 8,
            n == bytes@.len(),
            start + 8 <= n,
            v == le_nat(bytes@.subrange(start + i, start + 8)),
        decreases i,
    {
        i -= 1;
        let ghost s = bytes@.subrange(start + i, start + 8);
        proof {
            assert(s.drop_first() =~= bytes@.subrange(start + i + 1, start + 8));
            lemma_le_nat_bound(s);
            reveal_with_fuel(pow256, 9);
            lemma_pow_le(s.len(), 8);
            assert(le_nat(s) == s[0] as nat + 256 * le_nat(s.drop_first()));
            assert(s[0] == bytes@[start + i]);
            assert(pow256(8) == 0x1_0000_0000_0000_0000nat);
        }
        let b = bytes[start + i] as u64;
        v = b + 256 * v;
    }
    v
}

proof fn lemma_pow_le(a: nat, b: nat)
    requires
        a <= b,
    ensures
        pow256(a) <= pow256(b),
    decreases b,
{
    if a < b {
        lemma_pow_le(a, (b - 1) as nat);
    }
}

/// Converts 32 little-endian bytes to four 64-bit limbs (no reduction).
pub fn bytes_to_scalar(bytes: &[u8]) -> (r: [u64; 4])
    requires
        bytes@.len() == 32,
    ensures
        forall|j: int| 0 <= j < 4 ==> r[j] as nat == #[trigger] le_nat(bytes@.subrange(8 * j, 8 * j + 8)),
{
    let r = [u64_from_le(bytes, 0), u64_from_le(bytes, 8), u64_from_le(bytes, 16), u64_from_le(bytes, 24)];
    assert forall|j: int| 0 <= j < 4 implies r[j] as nat == #[trigger] le_nat(bytes@.subrange(8 * j, 8 * j + 8)) by {
        if j == 0 {
        } else if j == 1 {
        } else if j == 2 {
        } else {
        }
    }
    r
}

/// Reads up to 16 little-endian bytes as a `u128`.
pub fn le_u128(bytes: &[u8], start: usize, end: usize) -> (r: u128)
    requires
        start <= end <= bytes@.len(),
        end - start <= 16,
    ensures
        r == le_nat(bytes@.subrange(start as int, end as int)),
{
    let mut u: u128 = 0;
    let mut i: usize = end;
    proof {
        assert(bytes@.subrange(end as int, end as int) =~= Seq::<u8>::empty());
    }
    while i > start
        invariant
            start <= i <= end,
            end <= bytes@.len(),
            end - start <= 16,
            u == le_nat(bytes@.subrange(i as int, end as int)),
        decreases i,
    {
        i -= 1;
        let ghost s = bytes@.subrange(i as int, end as int);
        proof {
            assert(s.drop_first() =~= bytes@.subrange(i + 1, end as int));
            lemma_le_nat_bound(s);
            lemma_pow_le(s.len(), 16);
            reveal_with_fuel(pow256, 17);
            assert(le_nat(s) == s[0] as nat + 256 * le_nat(s.drop_first()));
            assert(s[0] == bytes@[i as int]);
            assert(pow256(16) == 0x1_0000_0000_0000_0000_0000_0000_0000_0000nat);
        }
        let b = bytes[i] as u128;
        u = b + 256 * u;
    }
    u
}

/// Reinterprets a `u128` as a two's-complement `i128`.
pub fn u128_as_i128(u: u128) -> (r: i128)
    ensures
        r == signed128(u as nat),
{
    if u < 0x8000_0000_0000_0000_0000_0000_0000_0000u128 {
        u as i128
    } else {
        let m = (0xffff_ffff_ffff_ffff_ffff_ffff_ffff_ffffu128 - u) as i128;
        -m - 1
    }
}

/// Converts the first 16 bytes (little-endian) to an `i128` (two's complement).
pub fn bytes_to_le_i128(bytes: &[u8]) -> (r: i128)
    requires
        bytes@.len() >= 16,
    ensures
        r == signed128(le_nat(bytes@.subrange(0, 16))),
{
    u128_as_i128(le_u128(bytes, 0, 16))
}

} // verus!
