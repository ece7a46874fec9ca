//! Per-field codec: reading and writing one field's bit range.
//!
//! A scalar field of width `w <= 64` is staged through a 64-bit scratch
//! integer.  Laying the field into the buffer writes scratch bit
//! `value_bit_pos(e, w, j)` at logical position `start + j`; the map is an
//! involution on `[0, w)`, so the same function also describes reading.  Under
//! big endianness the first laid bit is the most significant; under little
//! endianness the field is laid byte by byte of the scratch value, lowest
//! byte first, each byte most-significant-bit first, with the final partial
//! byte contributing only its low bits.

use vstd::prelude::*;
use vstd::arithmetic::power2::pow2;
use crate::addr::{buffer_bit, phys_bit_index, phys_byte_index, read_buffer_bit, write_buffer_bit};
use crate::bits::{
    fits_width,
    lemma_fits_high_bits_zero,
    lemma_shl1_is_pow2,
    lemma_u64_bit_ext,
    lemma_zero_bits_clear,
    read_u64_bit,
    u64_bit,
};
use crate::schema::{BitOrder, Endianness};

verus! {

/// The scratch-value bit index laid at stream position `j` of a `w`-bit
/// field under endianness `e`.
pub open spec fn value_bit_pos(e: Endianness, w: int, j: int) -> int {
    match e {
        Endianness::Big => w - 1 - j,
        Endianness::Little => {
            let c = j / 8;
            let chunk = if w - 8 * c < 8 {
                w - 8 * c
            } else {
                8
            };
            8 * c + chunk - 1 - (j - 8 * c)
        },
    }
}

/// `value_bit_pos` maps `[0, w)` onto itself and is its own inverse.
pub proof fn lemma_value_bit_pos_involution(e: Endianness, w: int, j: int)
    requires
        0 <= j < w,
    ensures
        0 <= value_bit_pos(e, w, j) < w,
        value_bit_pos(e, w, value_bit_pos(e, w, j)) == j,
{
    match e {
        Endianness::Big => {
        },
        Endianness::Little => {
            let c = j / 8;
            assert(j == 8 * c + j % 8);
            let chunk = if w - 8 * c < 8 {
                w - 8 * c
            } else {
                8
            };
            assert(j % 8 < chunk);
            let m = 8 * c + chunk - 1 - (j % 8);
            assert(8 * c <= m < 8 * c + 8);
            assert(m / 8 == c);
            assert(m % 8 == chunk - 1 - (j % 8));
        },
    }
}

/// True when the bits of `buf` at logical range `[start, start + w)` spell
/// the `w`-bit field value `v` under endianness `e`.
pub open spec fn field_bits_eq(
    buf: Seq<u8>,
    order: BitOrder,
    reverse: bool,
    nbytes: int,
    start: int,
    w: int,
    e: Endianness,
    v: u64,
) -> bool {
    forall|j: int|
        0 <= j < w ==> buffer_bit(buf, order, reverse, nbytes, start + j) == u64_bit(
            v,
            value_bit_pos(e, w, j) as u64,
        )
}

/// True when every physical byte the logical range `[start, start + w)`
/// touches lies below `len`: the range can be read from or written to a
/// buffer of that many bytes.
pub open spec fn range_in_buffer(
    order: BitOrder,
    reverse: bool,
    nbytes: int,
    start: int,
    w: int,
    len: int,
) -> bool {
    forall|j: int| 0 <= j < w ==> #[trigger] phys_byte_index(order, reverse, nbytes, start + j) < len
}

/// The stream position of the given scratch bit, executably.
fn value_bit_pos_exec(e: Endianness, w: usize, j: usize) -> (r: usize)
    requires
        j < w,
        w <= 64,
    ensures
        r as int == value_bit_pos(e, w as int, j as int),
        r < w,
{
    proof {
        lemma_value_bit_pos_involution(e, w as int, j as int);
    }
    match e {
        Endianness::Big => w - 1 - j,
        Endianness::Little => {
            let c: usize = j / 8;
            let chunk: usize = if w - 8 * c < 8 {
                w - 8 * c
            } else {
                8
            };
            8 * c + chunk - 1 - (j - 8 * c)
        },
    }
}

/// Writes the `w`-bit value `v` into the logical range `[start, start + w)`,
/// leaving every logical bit outside the range untouched.
pub fn write_field_raw(
    buf: &mut Vec<u8>,
    order: BitOrder,
    reverse: bool,
    nbytes: usize,
    start: usize,
    w: usize,
    e: Endianness,
    v: u64,
)
    requires
        start + w <= 8 * (nbytes as int),
        start + w <= usize::MAX as int,
        w <= 64,
        fits_width(v, w as int),
        range_in_buffer(order, reverse, nbytes as int, start as int, w as int, old(buf)@.len() as int),
    ensures
        final(buf)@.len() == old(buf)@.len(),
        field_bits_eq(
            final(buf)@,
            order,
            reverse,
            nbytes as int,
            start as int,
            w as int,
            e,
            v,
        ),
        forall|i2: int|
            0 <= i2 < 8 * (nbytes as int) && !(start <= i2 < start + w) && phys_byte_index(
                order,
                reverse,
                nbytes as int,
                i2,
            ) < final(buf)@.len() ==> buffer_bit(final(buf)@, order, reverse, nbytes as int, i2)
                == buffer_bit(old(buf)@, order, reverse, nbytes as int, i2),
{
    let mut j: usize = 0;
    while j < w
        invariant
            j <= w,
            start + w <= 8 * (nbytes as int),
            start + w <= usize::MAX as int,
            w <= 64,
            range_in_buffer(order, reverse, nbytes as int, start as int, w as int, buf@.len() as int),
            buf@.len() == old(buf)@.len(),
            forall|j2: int|
                0 <= j2 < j ==> buffer_bit(buf@, order, reverse, nbytes as int, start + j2)
                    == u64_bit(v, value_bit_pos(e, w as int, j2) as u64),
            forall|i2: int|
                0 <= i2 < 8 * (nbytes as int) && !(start <= i2 < start + j) && phys_byte_index(
                    order,
                    reverse,
                    nbytes as int,
                    i2,
                ) < buf@.len() ==> buffer_bit(buf@, order, reverse, nbytes as int, i2)
                    == buffer_bit(old(buf)@, order, reverse, nbytes as int, i2),
        decreases w - j,
    {
        let m = value_bit_pos_exec(e, w, j);
        let bitv = read_u64_bit(v, m as u64);
        write_buffer_bit(buf, order, reverse, nbytes, start + j, bitv);
        j = j + 1;
    }
}

/// Reads the `w`-bit value laid at the logical range `[start, start + w)`.
pub fn read_field_raw(
    buf: &Vec<u8>,
    order: BitOrder,
    reverse: bool,
    nbytes: usize,
    start: usize,
    w: usize,
    e: Endianness,
) -> (r: u64)
    requires
        start + w <= 8 * (nbytes as int),
        start + w <= usize::MAX as int,
        w <= 64,
        range_in_buffer(order, reverse, nbytes as int, start as int, w as int, buf@.len() as int),
    ensures
        fits_width(r, w as int),
        field_bits_eq(buf@, order, reverse, nbytes as int, start as int, w as int, e, r),
{
    let mut acc: u64 = 0;
    let mut j: usize = 0;
    proof {
        assert forall|k: u64| k < 64 implies !u64_bit(0u64, k) by {
            lemma_zero_bits_clear(k);
        }
        let wu = w as u64;
        if w < 64 {
            assert(wu < 64 ==> 0u64 < (1u64 << wu)) by (bit_vector);
        }
    }
    while j < w
        invariant
            j <= w,
            start + w <= 8 * (nbytes as int),
            start + w <= usize::MAX as int,
            w <= 64,
            range_in_buffer(order, reverse, nbytes as int, start as int, w as int, buf@.len() as int),
            w < 64 ==> acc < (1u64 << (w as u64)),
            forall|k: u64|
                k < 64 ==> u64_bit(acc, k) == (k < w && value_bit_pos(e, w as int, k as int) < j
                    && buffer_bit(
                    buf@,
                    order,
                    reverse,
                    nbytes as int,
                    start + value_bit_pos(e, w as int, k as int),
                )),
        decreases w - j,
    {
        let m = value_bit_pos_exec(e, w, j);
        let bitv = read_buffer_bit(buf, order, reverse, nbytes, start + j);
        let ghost prev = acc;
        if bitv {
            acc = acc | (1u64 << (m as u64));
        }
        proof {
            lemma_value_bit_pos_involution(e, w as int, j as int);
            let mu = m as u64;
            assert forall|k: u64|
                k < 64 implies u64_bit(acc, k) == (k < w && value_bit_pos(e, w as int, k as int) < j
                + 1 && buffer_bit(
                buf@,
                order,
                reverse,
                nbytes as int,
                start + value_bit_pos(e, w as int, k as int),
            )) by {
                assert(u64_bit(prev, k) == (k < w && value_bit_pos(e, w as int, k as int) < j
                    && buffer_bit(
                    buf@,
                    order,
                    reverse,
                    nbytes as int,
                    start + value_bit_pos(e, w as int, k as int),
                )));
                if bitv && k != mu {
                    assert(mu < 64 && k < 64 && k != mu ==> ((prev | (1u64 << mu)) >> k) & 1 == (
                    prev >> k) & 1) by (bit_vector);
                }
                if bitv && k == mu {
                    assert(mu < 64 ==> ((prev | (1u64 << mu)) >> mu) & 1 == 1) by (bit_vector);
                }
                if k < w {
                    lemma_value_bit_pos_involution(e, w as int, k as int);
                    if k == mu {
                        assert(value_bit_pos(e, w as int, k as int) == j as int);
                    } else {
                        assert(value_bit_pos(e, w as int, k as int) != j as int);
                    }
                }
            }
            if bitv && (w as int) < 64 {
                assert(prev < (1u64 << (w as u64)) && mu < (w as u64) && (w as u64) < 64 ==> (prev
                    | (1u64 << mu)) < (1u64 << (w as u64))) by (bit_vector);
            }
        }
        j = j + 1;
    }
    proof {
        if w < 64 {
            lemma_shl1_is_pow2(w as u64);
        }
        assert forall|jj: int|
            0 <= jj < w implies buffer_bit(buf@, order, reverse, nbytes as int, start as int + jj)
            == u64_bit(acc, value_bit_pos(e, w as int, jj) as u64) by {
            lemma_value_bit_pos_involution(e, w as int, jj);
            let k = value_bit_pos(e, w as int, jj);
            lemma_value_bit_pos_involution(e, w as int, k);
        }
    }
    acc
}

/// Only one `w`-bit value can match a given bit range: the relation
/// `field_bits_eq` pins the value down.
pub proof fn lemma_field_value_unique(
    buf: Seq<u8>,
    order: BitOrder,
    reverse: bool,
    nbytes: int,
    start: int,
    w: int,
    e: Endianness,
    v1: u64,
    v2: u64,
)
    requires
        0 <= w <= 64,
        fits_width(v1, w),
        fits_width(v2, w),
        field_bits_eq(buf, order, reverse, nbytes, start, w, e, v1),
        field_bits_eq(buf, order, reverse, nbytes, start, w, e, v2),
    ensures
        v1 == v2,
{
    assert forall|k: u64| k < 64 implies u64_bit(v1, k) == u64_bit(v2, k) by {
        if (k as int) < w {
            lemma_value_bit_pos_involution(e, w, k as int);
            let j = value_bit_pos(e, w, k as int);
            assert(buffer_bit(buf, order, reverse, nbytes, start + j) == u64_bit(
                v1,
                value_bit_pos(e, w, j) as u64,
            ));
            assert(buffer_bit(buf, order, reverse, nbytes, start + j) == u64_bit(
                v2,
                value_bit_pos(e, w, j) as u64,
            ));
        } else {
            lemma_fits_high_bits_zero(v1, w as u64, k);
            lemma_fits_high_bits_zero(v2, w as u64, k);
        }
    }
    lemma_u64_bit_ext(v1, v2);
}

/// True when `v` is representable as a `w`-bit two's-complement integer.
pub open spec fn signed_in_range(v: i64, w: int) -> bool {
    -(pow2((w - 1) as nat) as int) <= v as int && (v as int) < pow2((w - 1) as nat) as int
}

/// The unsigned `w`-bit pattern of a signed value: the value itself when
/// non-negative, the value plus `2^w` when negative.
pub open spec fn signed_to_raw(v: i64, w: int) -> int {
    if v >= 0 {
        v as int
    } else {
        v as int + pow2(w as nat) as int
    }
}

/// The signed reading of an unsigned `w`-bit pattern: the pattern itself when
/// its top retained bit is clear, the pattern minus `2^w` when it is set, so
/// that the top bit replicates upward through all unused high bits.
pub open spec fn raw_to_signed(u: u64, w: int) -> int {
    if (u as int) < pow2((w - 1) as nat) as int {
        u as int
    } else {
        u as int - pow2(w as nat) as int
    }
}

/// Converting a signed value to its `w`-bit pattern and reading the pattern
/// back yields the value: sign extension is exact for the whole declared
/// range, its minimum included.
pub proof fn lemma_signed_round_trip(v: i64, w: int, u: u64)
    requires
        1 <= w <= 64,
        signed_in_range(v, w),
        u as int == signed_to_raw(v, w),
    ensures
        raw_to_signed(u, w) == v as int,
{
    vstd::arithmetic::power2::lemma_pow2_unfold(w as nat);
}

/// The `w`-bit pattern of a signed value in range is itself a `w`-bit
/// value.
pub proof fn lemma_signed_to_raw_fits(x: i64, w: int)
    requires
        1 <= w <= 64,
        signed_in_range(x, w),
    ensures
        0 <= signed_to_raw(x, w),
        signed_to_raw(x, w) < pow2(w as nat) as int,
{
    vstd::arithmetic::power2::lemma_pow2_unfold(w as nat);
}

/// Reading a `w`-bit pattern as signed and converting back gives the
/// pattern: the two conversions invert each other in this direction too.
pub proof fn lemma_raw_signed_inverse(u: u64, w: int, x: i64)
    requires
        1 <= w <= 64,
        fits_width(u, w),
        x as int == raw_to_signed(u, w),
    ensures
        signed_to_raw(x, w) == u as int,
        signed_in_range(x, w),
{
    vstd::arithmetic::power2::lemma_pow2_unfold(w as nat);
    vstd::arithmetic::power2::lemma2_to64();
    vstd::arithmetic::power2::lemma2_to64_rest();
}

/// Converts a signed value to its unsigned `w`-bit pattern.
pub fn signed_to_raw_exec(v: i64, w: usize) -> (r: u64)
    requires
        1 <= w <= 64,
        signed_in_range(v, w as int),
    ensures
        r as int == signed_to_raw(v, w as int),
        fits_width(r, w as int),
{
    proof {
        vstd::arithmetic::power2::lemma_pow2_unfold(w as nat);
        vstd::arithmetic::power2::lemma2_to64();
        vstd::arithmetic::power2::lemma2_to64_rest();
        if w < 64 {
            lemma_shl1_is_pow2(w as u64);
            lemma_shl1_is_pow2((w - 1) as u64);
        } else {
            lemma_shl1_is_pow2(63u64);
        }
    }
    if v >= 0 {
        v as u64
    } else if w == 64 {
        u64::MAX - ((-(v + 1)) as u64)
    } else {
        let half: u64 = 1u64 << ((w - 1) as u64);
        ((v + (half as i64)) as u64) + half
    }
}

/// Reads an unsigned `w`-bit pattern as a signed value, sign-extending from
/// the top retained bit.
pub fn raw_to_signed_exec(u: u64, w: usize) -> (r: i64)
    requires
        1 <= w <= 64,
        fits_width(u, w as int),
    ensures
        r as int == raw_to_signed(u, w as int),
        signed_in_range(r, w as int),
{
    proof {
        vstd::arithmetic::power2::lemma_pow2_unfold(w as nat);
        vstd::arithmetic::power2::lemma2_to64();
        vstd::arithmetic::power2::lemma2_to64_rest();
        if w < 64 {
            lemma_shl1_is_pow2(w as u64);
            lemma_shl1_is_pow2((w - 1) as u64);
        } else {
            lemma_shl1_is_pow2(63u64);
        }
    }
    if w == 64 {
        if u >= 0x8000_0000_0000_0000u64 {
            -1i64 - ((u64::MAX - u) as i64)
        } else {
            u as i64
        }
    } else {
        let half: u64 = 1u64 << ((w - 1) as u64);
        if u >= half {
            (u as i64) - (half as i64) - (half as i64)
        } else {
            u as i64
        }
    }
}

/// True when the bits of `buf` at logical range `[start, start + wbits)`
/// equal the first `wbits` bits of the byte window `win`, the window being
/// addressed most-significant-bit-first with no reversal.
pub open spec fn window_bits_eq(
    buf: Seq<u8>,
    order: BitOrder,
    reverse: bool,
    nbytes: int,
    start: int,
    wbits: int,
    win: Seq<u8>,
) -> bool {
    forall|j: int|
        0 <= j < wbits ==> buffer_bit(buf, order, reverse, nbytes, start + j) == buffer_bit(
            win,
            BitOrder::Msb0,
            false,
            win.len() as int,
            j,
        )
}

/// True when `win` is a canonical byte window for `wbits` bits: exactly
/// `ceil(wbits / 8)` bytes, with every bit past `wbits` clear.
pub open spec fn window_well_formed(win: Seq<u8>, wbits: int) -> bool {
    win.len() as int == (wbits + 7) / 8 && forall|j: int|
        wbits <= j < 8 * (win.len() as int) ==> !buffer_bit(
            win,
            BitOrder::Msb0,
            false,
            win.len() as int,
            j,
        )
}

/// A vector of `n` zero bytes.
pub fn zero_vec(n: usize) -> (r: Vec<u8>)
    ensures
        r@.len() == n,
        forall|i: int| 0 <= i < n ==> r@[i] == 0u8,
{
    let mut r: Vec<u8> = Vec::new();
    let mut i: usize = 0;
    while i < n
        invariant
            i <= n,
            r@.len() == i,
            forall|k: int| 0 <= k < i ==> r@[k] == 0u8,
        decreases n - i,
    {
        r.push(0u8);
        i = i + 1;
    }
    r
}

/// Every logical bit of an all-zero buffer is clear.
pub proof fn lemma_zero_buffer_bits_clear(
    buf: Seq<u8>,
    order: BitOrder,
    reverse: bool,
    nbytes: int,
    i: int,
)
    requires
        buf.len() == nbytes,
        0 <= i < 8 * nbytes,
        forall|k: int| 0 <= k < nbytes ==> buf[k] == 0u8,
    ensures
        !buffer_bit(buf, order, reverse, nbytes, i),
{
    crate::addr::lemma_phys_in_range(order, reverse, nbytes, i);
    crate::bits::lemma_zero_byte_bits_clear(phys_bit_index(order, i) as u8);
}

/// Extracts the bit range `[start, start + wbits)` into a fresh canonical
/// byte window, so that a nested record or array block can be decoded from
/// it on its own.
pub fn read_window(
    buf: &Vec<u8>,
    order: BitOrder,
    reverse: bool,
    nbytes: usize,
    start: usize,
    wbits: usize,
) -> (r: Vec<u8>)
    requires
        start + wbits <= 8 * (nbytes as int),
        start + wbits <= usize::MAX as int,
        wbits + 7 <= usize::MAX as int,
        range_in_buffer(order, reverse, nbytes as int, start as int, wbits as int, buf@.len() as int),
    ensures
        window_well_formed(r@, wbits as int),
        window_bits_eq(buf@, order, reverse, nbytes as int, start as int, wbits as int, r@),
{
    let out_len: usize = (wbits + 7) / 8;
    let mut out = zero_vec(out_len);
    proof {
        assert forall|j: int| 0 <= j < 8 * (out_len as int) implies !buffer_bit(
            out@,
            BitOrder::Msb0,
            false,
            out_len as int,
            j,
        ) by {
            lemma_zero_buffer_bits_clear(out@, BitOrder::Msb0, false, out_len as int, j);
        }
    }
    let mut j: usize = 0;
    while j < wbits
        invariant
            j <= wbits,
            start + wbits <= 8 * (nbytes as int),
            start + wbits <= usize::MAX as int,
            out_len as int == (wbits as int + 7) / 8,
            out@.len() == out_len,
            range_in_buffer(
                order,
                reverse,
                nbytes as int,
                start as int,
                wbits as int,
                buf@.len() as int,
            ),
            forall|j2: int|
                0 <= j2 < j ==> buffer_bit(out@, BitOrder::Msb0, false, out_len as int, j2)
                    == buffer_bit(buf@, order, reverse, nbytes as int, start + j2),
            forall|j2: int|
                j <= j2 < 8 * (out_len as int) ==> !buffer_bit(
                    out@,
                    BitOrder::Msb0,
                    false,
                    out_len as int,
                    j2,
                ),
        decreases wbits - j,
    {
        proof {
            assert(j < wbits);
            assert(wbits as int <= 8 * ((wbits as int + 7) / 8));
        }
        let b = read_buffer_bit(buf, order, reverse, nbytes, start + j);
        write_buffer_bit(&mut out, BitOrder::Msb0, false, out_len, j, b);
        proof {
            crate::addr::lemma_phys_in_range(BitOrder::Msb0, false, out_len as int, j as int);
        }
        j = j + 1;
    }
    out
}

/// Writes the first `wbits` bits of the byte window `win` into the bit range
/// `[start, start + wbits)`, leaving every logical bit outside the range
/// untouched.
pub fn write_window(
    buf: &mut Vec<u8>,
    order: BitOrder,
    reverse: bool,
    nbytes: usize,
    start: usize,
    wbits: usize,
    win: &Vec<u8>,
)
    requires
        start + wbits <= 8 * (nbytes as int),
        start + wbits <= usize::MAX as int,
        wbits as int <= 8 * (win@.len() as int),
        range_in_buffer(
            order,
            reverse,
            nbytes as int,
            start as int,
            wbits as int,
            old(buf)@.len() as int,
        ),
    ensures
        final(buf)@.len() == old(buf)@.len(),
        window_bits_eq(
            final(buf)@,
            order,
            reverse,
            nbytes as int,
            start as int,
            wbits as int,
            win@,
        ),
        forall|i2: int|
            0 <= i2 < 8 * (nbytes as int) && !(start <= i2 < start + wbits) && phys_byte_index(
                order,
                reverse,
                nbytes as int,
                i2,
            ) < final(buf)@.len() ==> buffer_bit(final(buf)@, order, reverse, nbytes as int, i2)
                == buffer_bit(old(buf)@, order, reverse, nbytes as int, i2),
{
    let win_len: usize = win.len();
    let mut j: usize = 0;
    while j < wbits
        invariant
            j <= wbits,
            start + wbits <= 8 * (nbytes as int),
            start + wbits <= usize::MAX as int,
            wbits as int <= 8 * (win_len as int),
            win@.len() == win_len,
            buf@.len() == old(buf)@.len(),
            range_in_buffer(
                order,
                reverse,
                nbytes as int,
                start as int,
                wbits as int,
                buf@.len() as int,
            ),
            forall|j2: int|
                0 <= j2 < j ==> buffer_bit(buf@, order, reverse, nbytes as int, start + j2)
                    == buffer_bit(win@, BitOrder::Msb0, false, win_len as int, j2),
            forall|i2: int|
                0 <= i2 < 8 * (nbytes as int) && !(start <= i2 < start + j) && phys_byte_index(
                    order,
                    reverse,
                    nbytes as int,
                    i2,
                ) < buf@.len() ==> buffer_bit(buf@, order, reverse, nbytes as int, i2)
                    == buffer_bit(old(buf)@, order, reverse, nbytes as int, i2),
        decreases wbits - j,
    {
        proof {
            crate::addr::lemma_phys_in_range(BitOrder::Msb0, false, win_len as int, j as int);
        }
        let b = read_buffer_bit(win, BitOrder::Msb0, false, win_len, j);
        write_buffer_bit(buf, order, reverse, nbytes, start + j, b);
        j = j + 1;
    }
}

/// Only one canonical window can match a given bit range.
pub proof fn lemma_window_unique(
    buf: Seq<u8>,
    order: BitOrder,
    reverse: bool,
    nbytes: int,
    start: int,
    wbits: int,
    w1: Seq<u8>,
    w2: Seq<u8>,
)
    requires
        0 <= wbits,
        window_well_formed(w1, wbits),
        window_well_formed(w2, wbits),
        window_bits_eq(buf, order, reverse, nbytes, start, wbits, w1),
        window_bits_eq(buf, order, reverse, nbytes, start, wbits, w2),
    ensures
        w1 == w2,
{
    let len = w1.len() as int;
    assert(w2.len() as int == len);
    assert forall|bi: int| 0 <= bi < len implies w1[bi] == w2[bi] by {
        assert forall|k: u8| k < 8 implies crate::bits::byte_bit(w1[bi], k) == crate::bits::byte_bit(
            w2[bi],
            k,
        ) by {
            let j = 8 * bi + 7 - k as int;
            assert(j / 8 == bi);
            assert(j % 8 == 7 - k as int);
            assert(buffer_bit(w1, BitOrder::Msb0, false, len, j) == crate::bits::byte_bit(
                w1[bi],
                k,
            ));
            assert(buffer_bit(w2, BitOrder::Msb0, false, len, j) == crate::bits::byte_bit(
                w2[bi],
                k,
            ));
            assert(8 * len <= wbits + 7);
            if j < wbits {
                assert(buffer_bit(w1, BitOrder::Msb0, false, len, j) == buffer_bit(
                    buf,
                    order,
                    reverse,
                    nbytes,
                    start + j,
                ));
                assert(buffer_bit(w2, BitOrder::Msb0, false, len, j) == buffer_bit(
                    buf,
                    order,
                    reverse,
                    nbytes,
                    start + j,
                ));
            }
        }
        crate::bits::lemma_byte_bit_ext(w1[bi], w2[bi]);
    }
    assert(w1 =~= w2);
}

/// The least buffer length that covers every physical byte of the logical
/// range `[start, start + w)`: under forward addressing the byte of the last
/// bit, under backward addressing the byte of the first.
pub open spec fn spec_required_len(
    order: BitOrder,
    reverse: bool,
    nbytes: int,
    start: int,
    w: int,
) -> int {
    let forward = match order {
        BitOrder::Msb0 => !reverse,
        BitOrder::Lsb0 => reverse,
    };
    if forward {
        (start + w - 1) / 8 + 1
    } else {
        nbytes - start / 8
    }
}

/// A buffer of `spec_required_len` bytes covers the whole range, no shorter
/// buffer covers it, and a full record buffer always suffices.
pub proof fn lemma_required_len(order: BitOrder, reverse: bool, nbytes: int, start: int, w: int)
    requires
        0 <= start,
        0 < w,
        start + w <= 8 * nbytes,
    ensures
        range_in_buffer(order, reverse, nbytes, start, w, spec_required_len(
            order,
            reverse,
            nbytes,
            start,
            w,
        )),
        spec_required_len(order, reverse, nbytes, start, w) <= nbytes,
        exists|j: int|
            0 <= j < w && #[trigger] phys_byte_index(order, reverse, nbytes, start + j)
                == spec_required_len(order, reverse, nbytes, start, w) - 1,
{
    let req = spec_required_len(order, reverse, nbytes, start, w);
    let forward = match order {
        BitOrder::Msb0 => !reverse,
        BitOrder::Lsb0 => reverse,
    };
    assert forall|j: int| 0 <= j < w implies #[trigger] phys_byte_index(
        order,
        reverse,
        nbytes,
        start + j,
    ) < req by {
        lemma_div_monotone(start, start + j, 8);
        lemma_div_monotone(start + j, start + w - 1, 8);
        assert(8 * ((start + w - 1) / 8) <= start + w - 1);
    }
    if forward {
        let j = w - 1;
        assert(8 * ((start + w - 1) / 8) <= start + w - 1);
        assert(0 <= j < w && phys_byte_index(order, reverse, nbytes, start + j) == req - 1);
    } else {
        let j = 0int;
        assert(0 <= j < w && phys_byte_index(order, reverse, nbytes, start + j) == req - 1);
    }
}

/// Division by a positive constant is monotone.
proof fn lemma_div_monotone(a: int, b: int, d: int)
    requires
        a <= b,
        d > 0,
    ensures
        a / d <= b / d,
{
    vstd::arithmetic::div_mod::lemma_div_is_ordered(a, b, d);
}

/// Computes `spec_required_len` executably.
pub fn required_len_exec(
    order: BitOrder,
    reverse: bool,
    nbytes: usize,
    start: usize,
    w: usize,
) -> (r: usize)
    requires
        0 < w,
        start + w <= 8 * (nbytes as int),
        start + w <= usize::MAX as int,
    ensures
        r as int == spec_required_len(order, reverse, nbytes as int, start as int, w as int),
        r <= nbytes,
{
    proof {
        lemma_required_len(order, reverse, nbytes as int, start as int, w as int);
    }
    let forward = match order {
        BitOrder::Msb0 => !reverse,
        BitOrder::Lsb0 => reverse,
    };
    if forward {
        (start + w - 1) / 8 + 1
    } else {
        nbytes - start / 8
    }
}

} // verus!
