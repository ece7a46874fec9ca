//! Logical-to-physical bit addressing.
//!
//! Logical bit `i` of a record is mapped to a physical byte index and a bit
//! position inside that byte by two pure address functions, composed from the
//! bit order and the optional buffer-wide reversal.  Every masking operation
//! in the codec goes through this one mapping, so the rest of the algorithm
//! is single-pathed regardless of configuration.

use vstd::prelude::*;
use crate::bits::{byte_bit, byte_with_bit, read_byte_bit};
use crate::schema::BitOrder;

verus! {

/// The physical byte index holding logical bit `i` of a buffer of `nbytes`
/// bytes.
pub open spec fn phys_byte_index(order: BitOrder, reverse: bool, nbytes: int, i: int) -> int {
    let base = match order {
        BitOrder::Msb0 => i / 8,
        BitOrder::Lsb0 => nbytes - 1 - i / 8,
    };
    if reverse {
        nbytes - 1 - base
    } else {
        base
    }
}

/// The bit position (least significant bit = 0) of logical bit `i` inside
/// its physical byte.
pub open spec fn phys_bit_index(order: BitOrder, i: int) -> int {
    match order {
        BitOrder::Msb0 => 7 - i % 8,
        BitOrder::Lsb0 => i % 8,
    }
}

/// The value of logical bit `i` in `buf`, addressed under `order` and
/// `reverse` for a record of `nbytes` bytes.
pub open spec fn buffer_bit(buf: Seq<u8>, order: BitOrder, reverse: bool, nbytes: int, i: int) -> bool {
    byte_bit(buf[phys_byte_index(order, reverse, nbytes, i)], phys_bit_index(order, i) as u8)
}

/// Physical addresses of logical bits are within the record.
pub proof fn lemma_phys_in_range(order: BitOrder, reverse: bool, nbytes: int, i: int)
    requires
        0 <= i < 8 * nbytes,
    ensures
        0 <= phys_byte_index(order, reverse, nbytes, i) < nbytes,
        0 <= phys_bit_index(order, i) < 8,
{
    assert(i == 8 * (i / 8) + i % 8);
    assert(0 <= i % 8 < 8);
    assert(0 <= i / 8 < nbytes);
}

/// Distinct logical bits never share a physical address.
pub proof fn lemma_phys_injective(order: BitOrder, reverse: bool, nbytes: int, i: int, j: int)
    requires
        0 <= i < 8 * nbytes,
        0 <= j < 8 * nbytes,
        i != j,
    ensures
        phys_byte_index(order, reverse, nbytes, i) != phys_byte_index(order, reverse, nbytes, j)
            || phys_bit_index(order, i) != phys_bit_index(order, j),
{
    assert(i == 8 * (i / 8) + i % 8);
    assert(j == 8 * (j / 8) + j % 8);
}

/// Reads logical bit `i` of a record buffer.  The buffer may be shorter than
/// the record as long as it covers this bit's physical byte.
pub fn read_buffer_bit(buf: &Vec<u8>, order: BitOrder, reverse: bool, nbytes: usize, i: usize) -> (r:
    bool)
    requires
        i < 8 * nbytes,
        phys_byte_index(order, reverse, nbytes as int, i as int) < buf@.len(),
    ensures
        r == buffer_bit(buf@, order, reverse, nbytes as int, i as int),
{
    proof {
        lemma_phys_in_range(order, reverse, nbytes as int, i as int);
    }
    let base: usize = match order {
        BitOrder::Msb0 => i / 8,
        BitOrder::Lsb0 => nbytes - 1 - i / 8,
    };
    let byte_idx: usize = if reverse {
        nbytes - 1 - base
    } else {
        base
    };
    let bit_idx: u8 = match order {
        BitOrder::Msb0 => 7 - (i % 8) as u8,
        BitOrder::Lsb0 => (i % 8) as u8,
    };
    read_byte_bit(buf[byte_idx], bit_idx)
}

/// Writes logical bit `i` of a record buffer, leaving every other bit of the
/// record untouched.
pub fn write_buffer_bit(
    buf: &mut Vec<u8>,
    order: BitOrder,
    reverse: bool,
    nbytes: usize,
    i: usize,
    v: bool,
)
    requires
        i < 8 * nbytes,
        phys_byte_index(order, reverse, nbytes as int, i as int) < old(buf)@.len(),
    ensures
        final(buf)@.len() == old(buf)@.len(),
        buffer_bit(final(buf)@, order, reverse, nbytes as int, i as int) == v,
        forall|i2: int|
            0 <= i2 < 8 * (nbytes as int) && i2 != i as int && phys_byte_index(
                order,
                reverse,
                nbytes as int,
                i2,
            ) < final(buf)@.len() ==> buffer_bit(final(buf)@, order, reverse, nbytes as int, i2)
                == buffer_bit(old(buf)@, order, reverse, nbytes as int, i2),
        forall|bi: int|
            0 <= bi < final(buf)@.len() && bi != phys_byte_index(
                order,
                reverse,
                nbytes as int,
                i as int,
            ) ==> final(buf)@[bi] == old(buf)@[bi],
{
    proof {
        lemma_phys_in_range(order, reverse, nbytes as int, i as int);
    }
    let base: usize = match order {
        BitOrder::Msb0 => i / 8,
        BitOrder::Lsb0 => nbytes - 1 - i / 8,
    };
    let byte_idx: usize = if reverse {
        nbytes - 1 - base
    } else {
        base
    };
    let bit_idx: u8 = match order {
        BitOrder::Msb0 => 7 - (i % 8) as u8,
        BitOrder::Lsb0 => (i % 8) as u8,
    };
    let updated = byte_with_bit(buf[byte_idx], bit_idx, v);
    buf.set(byte_idx, updated);
    proof {
        assert forall|i2: int|
            0 <= i2 < 8 * (nbytes as int) && i2 != i as int && phys_byte_index(
                order,
                reverse,
                nbytes as int,
                i2,
            ) < buf@.len() implies buffer_bit(buf@, order, reverse, nbytes as int, i2)
            == buffer_bit(old(buf)@, order, reverse, nbytes as int, i2) by {
            lemma_phys_injective(order, reverse, nbytes as int, i as int, i2);
            lemma_phys_in_range(order, reverse, nbytes as int, i2);
        }
    }
}

} // verus!
