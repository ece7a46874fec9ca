//! Single-bit views of bytes and 64-bit scratch integers, with the
//! extensionality lemmas the codec proofs rest on.

use vstd::prelude::*;
use vstd::arithmetic::power2::pow2;

verus! {

/// True when bit `k` (counting from the least significant bit) of `v` is set.
pub open spec fn u64_bit(v: u64, k: u64) -> bool {
    (v >> k) & 1 == 1
}

/// True when bit `k` (counting from the least significant bit) of `b` is set.
pub open spec fn byte_bit(b: u8, k: u8) -> bool {
    (b >> k) & 1 == 1
}

/// True when `v` is representable in `w` bits.
pub open spec fn fits_width(v: u64, w: int) -> bool {
    w >= 64 || (v as nat) < pow2(w as nat)
}

/// Reads one bit of a byte.
pub fn read_byte_bit(b: u8, k: u8) -> (r: bool)
    requires
        k < 8,
    ensures
        r == byte_bit(b, k),
{
    (b >> k) & 1 == 1
}

/// Reads one bit of a 64-bit scratch integer.
pub fn read_u64_bit(v: u64, k: u64) -> (r: bool)
    requires
        k < 64,
    ensures
        r == u64_bit(v, k),
{
    (v >> k) & 1 == 1
}

/// Returns `b` with bit `k` forced to `v` and every other bit kept.
pub fn byte_with_bit(b: u8, k: u8, v: bool) -> (r: u8)
    requires
        k < 8,
    ensures
        byte_bit(r, k) == v,
        forall|k2: u8| k2 < 8 && k2 != k ==> byte_bit(r, k2) == byte_bit(b, k2),
{
    if v {
        let r = b | (1u8 << k);
        proof {
            assert(k < 8 ==> ((b | (1u8 << k)) >> k) & 1 == 1) by (bit_vector);
            assert(forall|k2: u8|
                k < 8 && k2 < 8 && k2 != k ==> ((b | (1u8 << k)) >> k2) & 1 == (b >> k2)
                    & 1) by (bit_vector);
        }
        r
    } else {
        let r = b & !(1u8 << k);
        proof {
            assert(k < 8 ==> ((b & !(1u8 << k)) >> k) & 1 == 0) by (bit_vector);
            assert(forall|k2: u8|
                k < 8 && k2 < 8 && k2 != k ==> ((b & !(1u8 << k)) >> k2) & 1 == (b >> k2)
                    & 1) by (bit_vector);
        }
        r
    }
}

/// A one left-shifted by `w < 64` is the `w`-th power of two.
pub proof fn lemma_shl1_is_pow2(w: u64)
    requires
        w < 64,
    ensures
        (1u64 << w) as nat == pow2(w as nat),
{
    vstd::bits::lemma_u64_pow2_no_overflow(w as nat);
    vstd::bits::lemma_u64_shl_is_mul(1u64, w);
}

/// Bits at or above the width of a value that fits that width are clear.
pub proof fn lemma_fits_high_bits_zero(v: u64, w: u64, k: u64)
    requires
        w <= k < 64,
        fits_width(v, w as int),
    ensures
        !u64_bit(v, k),
{
    lemma_shl1_is_pow2(w);
    assert(v < (1u64 << w) && w <= k && k < 64 ==> (v >> k) & 1 != 1) by (bit_vector);
}

/// Two bytes that agree on all eight bits are equal.
pub proof fn lemma_byte_bit_ext(a: u8, b: u8)
    requires
        forall|k: u8| k < 8 ==> byte_bit(a, k) == byte_bit(b, k),
    ensures
        a == b,
{
    assert(byte_bit(a, 0) == byte_bit(b, 0));
    assert(byte_bit(a, 1) == byte_bit(b, 1));
    assert(byte_bit(a, 2) == byte_bit(b, 2));
    assert(byte_bit(a, 3) == byte_bit(b, 3));
    assert(byte_bit(a, 4) == byte_bit(b, 4));
    assert(byte_bit(a, 5) == byte_bit(b, 5));
    assert(byte_bit(a, 6) == byte_bit(b, 6));
    assert(byte_bit(a, 7) == byte_bit(b, 7));
    assert(a == b) by (bit_vector)
        requires
            byte_bit(a, 0) == byte_bit(b, 0),
            byte_bit(a, 1) == byte_bit(b, 1),
            byte_bit(a, 2) == byte_bit(b, 2),
            byte_bit(a, 3) == byte_bit(b, 3),
            byte_bit(a, 4) == byte_bit(b, 4),
            byte_bit(a, 5) == byte_bit(b, 5),
            byte_bit(a, 6) == byte_bit(b, 6),
            byte_bit(a, 7) == byte_bit(b, 7),
    ;
}

proof fn lemma_u64_bit_ext_rec(a: u64, b: u64, k: u64)
    requires
        k <= 64,
        forall|j: u64| j < k ==> u64_bit(a, j) == u64_bit(b, j),
    ensures
        k < 64 ==> (a & !(0xffff_ffff_ffff_ffffu64 << k)) == (b & !(0xffff_ffff_ffff_ffffu64 << k)),
        k == 64 ==> a == b,
    decreases k,
{
    if k == 0 {
        assert((a & !(0xffff_ffff_ffff_ffffu64 << 0u64)) == (b & !(0xffff_ffff_ffff_ffffu64
            << 0u64))) by (bit_vector);
    } else {
        let j = (k - 1) as u64;
        lemma_u64_bit_ext_rec(a, b, j);
        assert(u64_bit(a, j) == u64_bit(b, j));
        if k == 64 {
            assert((a & !(0xffff_ffff_ffff_ffffu64 << 63u64)) == (b & !(0xffff_ffff_ffff_ffffu64
                << 63u64)) && (((a >> 63u64) & 1 == 1) == ((b >> 63u64) & 1 == 1)) ==> a
                == b) by (bit_vector);
        } else {
            assert(j < 63 && k == j + 1 && (a & !(0xffff_ffff_ffff_ffffu64 << j)) == (b & !(
            0xffff_ffff_ffff_ffffu64 << j)) && (((a >> j) & 1 == 1) == ((b >> j) & 1 == 1)) ==> (a
                & !(0xffff_ffff_ffff_ffffu64 << k)) == (b & !(0xffff_ffff_ffff_ffffu64
                << k))) by (bit_vector);
        }
    }
}

/// Two 64-bit values that agree on all 64 bits are equal.
pub proof fn lemma_u64_bit_ext(a: u64, b: u64)
    requires
        forall|k: u64| k < 64 ==> u64_bit(a, k) == u64_bit(b, k),
    ensures
        a == b,
{
    lemma_u64_bit_ext_rec(a, b, 64);
}

/// Every bit of zero is clear.
pub proof fn lemma_zero_bits_clear(k: u64)
    requires
        k < 64,
    ensures
        !u64_bit(0u64, k),
{
    assert(k < 64 ==> (0u64 >> k) & 1 == 0) by (bit_vector);
}

/// Every bit of a zero byte is clear.
pub proof fn lemma_zero_byte_bits_clear(k: u8)
    requires
        k < 8,
    ensures
        !byte_bit(0u8, k),
{
    assert(k < 8 ==> (0u8 >> k) & 1 == 0) by (bit_vector);
}

} // verus!
