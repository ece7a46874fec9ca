//! Whole-record codec and per-field accessors.
//!
//! Encoding zeroes a buffer of the layout's size and writes every
//! non-reserved field into its resolved range; ranges are disjoint by
//! construction, so no write disturbs another field's bits, and every bit
//! outside the non-reserved ranges — gaps, reserved fields, trailing bits of
//! a partial final byte — stays zero.  Decoding reads every non-reserved
//! field back and gives reserved fields their kind's zero value, leaving the
//! reserved bits unread.  Bounded accessors read or write one field through
//! a buffer that only has to cover that field's physical bytes.

use vstd::prelude::*;
use vstd::arithmetic::power2::pow2;
use crate::addr::{buffer_bit, lemma_phys_in_range, phys_byte_index};
use crate::bits::fits_width;
use crate::enums::{
    spec_enum_decode,
    spec_enum_encode,
    spec_enum_value_ok,
    EnumValue,
};
use crate::field::{
    field_bits_eq,
    lemma_required_len,
    lemma_zero_buffer_bits_clear,
    range_in_buffer,
    read_field_raw,
    read_window,
    required_len_exec,
    signed_in_range,
    signed_to_raw,
    spec_required_len,
    window_bits_eq,
    window_well_formed,
    write_field_raw,
    write_window,
    zero_vec,
};
use crate::layout::{
    spec_layout_matches,
    spec_pair_disjoint,
    spec_range_end,
    spec_range_start,
    spec_schema_valid,
    spec_total_bits,
    Layout,
};
use crate::schema::{
    spec_field_endianness,
    spec_field_width,
    spec_kind_is_scalar,
    FieldKind,
    FieldSchema,
    StructConfig,
};

verus! {

/// The value one field holds in a record: primitive-backed kinds carry
/// their scratch integer, floating-point kinds their raw bit pattern, and
/// nested records and arrays a packed byte window.
#[derive(Clone, PartialEq, Debug)]
pub enum FieldValue {
    /// An unsigned integer.
    Unsigned(u64),
    /// A signed integer.
    Signed(i64),
    /// A boolean.
    Boolean(bool),
    /// The raw bit pattern of a floating-point number.
    Float(u64),
    /// A decoded enum variant.
    Enum(EnumValue),
    /// The packed window of a nested record or array.
    Bytes(Vec<u8>),
}

/// A bounded accessor was handed a buffer shorter than the field needs:
/// carries the field's index and the minimum length that would do.
#[derive(Clone, Copy, PartialEq, Eq, Structural, Debug)]
pub struct BoundsError {
    /// Index of the field in declaration order.
    pub field: usize,
    /// Minimum buffer length, in bytes, the field requires.
    pub required: usize,
}

/// The value's shape and range agree with the field's kind and width.
pub open spec fn spec_value_fits(v: FieldValue, f: FieldSchema) -> bool {
    let w = spec_field_width(f);
    match f.kind {
        FieldKind::Unsigned { .. } => match v {
            FieldValue::Unsigned(x) => fits_width(x, w),
            _ => false,
        },
        FieldKind::Signed { .. } => match v {
            FieldValue::Signed(x) => signed_in_range(x, w),
            _ => false,
        },
        FieldKind::Boolean => match v {
            FieldValue::Boolean(_) => true,
            _ => false,
        },
        FieldKind::Float { .. } => match v {
            FieldValue::Float(x) => fits_width(x, w),
            _ => false,
        },
        FieldKind::Enum { mapping, .. } => match v {
            FieldValue::Enum(ev) => spec_enum_value_ok(mapping.variants@, w, ev),
            _ => false,
        },
        FieldKind::Nested { .. } => match v {
            FieldValue::Bytes(b) => window_well_formed(b@, w),
            _ => false,
        },
        FieldKind::ArrayElement { .. } => match v {
            FieldValue::Bytes(b) => window_well_formed(b@, w),
            _ => false,
        },
        FieldKind::ArrayBlock { .. } => match v {
            FieldValue::Bytes(b) => window_well_formed(b@, w),
            _ => false,
        },
    }
}

/// The scratch integer a scalar value converts to before it is laid into
/// the buffer: identity for unsigned and float bits, two's complement for
/// signed, a nonzero flag for booleans, the variant's primitive for enums.
pub open spec fn spec_scalar_raw(v: FieldValue, f: FieldSchema) -> int {
    match v {
        FieldValue::Unsigned(x) => x as int,
        FieldValue::Signed(x) => signed_to_raw(x, spec_field_width(f)),
        FieldValue::Boolean(b) => if b {
            1
        } else {
            0
        },
        FieldValue::Float(x) => x as int,
        FieldValue::Enum(ev) => match f.kind {
            FieldKind::Enum { mapping, .. } => spec_enum_encode(mapping.variants@, ev),
            _ => 0,
        },
        FieldValue::Bytes(_) => 0,
    }
}

/// The bits of `buf` at field `i`'s resolved range spell the value `v`.
pub open spec fn spec_field_encoded(
    buf: Seq<u8>,
    fields: Seq<FieldSchema>,
    config: StructConfig,
    nb: int,
    i: int,
    v: FieldValue,
) -> bool {
    let f = fields[i];
    let start = spec_range_start(fields, i);
    let w = spec_field_width(f);
    let e = spec_field_endianness(f, config);
    if spec_kind_is_scalar(f.kind) {
        field_bits_eq(
            buf,
            config.bit_order,
            config.reverse,
            nb,
            start,
            w,
            e,
            spec_scalar_raw(v, f) as u64,
        )
    } else {
        match v {
            FieldValue::Bytes(b) => window_bits_eq(
                buf,
                config.bit_order,
                config.reverse,
                nb,
                start,
                w,
                b@,
            ),
            _ => false,
        }
    }
}

/// `v` is what reading field `i` out of `buf` yields.
pub open spec fn spec_field_decoded(
    v: FieldValue,
    buf: Seq<u8>,
    fields: Seq<FieldSchema>,
    config: StructConfig,
    nb: int,
    i: int,
) -> bool {
    let f = fields[i];
    let start = spec_range_start(fields, i);
    let w = spec_field_width(f);
    let e = spec_field_endianness(f, config);
    let order = config.bit_order;
    let rev = config.reverse;
    match f.kind {
        FieldKind::Unsigned { .. } => match v {
            FieldValue::Unsigned(raw) => fits_width(raw, w) && field_bits_eq(
                buf,
                order,
                rev,
                nb,
                start,
                w,
                e,
                raw,
            ),
            _ => false,
        },
        FieldKind::Signed { .. } => match v {
            FieldValue::Signed(x) => signed_in_range(x, w) && field_bits_eq(
                buf,
                order,
                rev,
                nb,
                start,
                w,
                e,
                signed_to_raw(x, w) as u64,
            ),
            _ => false,
        },
        FieldKind::Boolean => match v {
            FieldValue::Boolean(b) => exists|raw: u64|
                fits_width(raw, w) && #[trigger] field_bits_eq(buf, order, rev, nb, start, w, e, raw)
                    && b == (raw != 0),
            _ => false,
        },
        FieldKind::Float { .. } => match v {
            FieldValue::Float(raw) => fits_width(raw, w) && field_bits_eq(
                buf,
                order,
                rev,
                nb,
                start,
                w,
                e,
                raw,
            ),
            _ => false,
        },
        FieldKind::Enum { mapping, .. } => match v {
            FieldValue::Enum(ev) => exists|raw: u64|
                fits_width(raw, w) && #[trigger] field_bits_eq(buf, order, rev, nb, start, w, e, raw)
                    && ev == spec_enum_decode(mapping.variants@, raw as int),
            _ => false,
        },
        FieldKind::Nested { .. } => match v {
            FieldValue::Bytes(b) => window_well_formed(b@, w) && window_bits_eq(
                buf,
                order,
                rev,
                nb,
                start,
                w,
                b@,
            ),
            _ => false,
        },
        FieldKind::ArrayElement { .. } => match v {
            FieldValue::Bytes(b) => window_well_formed(b@, w) && window_bits_eq(
                buf,
                order,
                rev,
                nb,
                start,
                w,
                b@,
            ),
            _ => false,
        },
        FieldKind::ArrayBlock { .. } => match v {
            FieldValue::Bytes(b) => window_well_formed(b@, w) && window_bits_eq(
                buf,
                order,
                rev,
                nb,
                start,
                w,
                b@,
            ),
            _ => false,
        },
    }
}

/// `v` is the kind's zero value: what a reserved field surfaces as.
pub open spec fn spec_is_zero_value(v: FieldValue, f: FieldSchema) -> bool {
    let w = spec_field_width(f);
    match f.kind {
        FieldKind::Unsigned { .. } => v == FieldValue::Unsigned(0u64),
        FieldKind::Signed { .. } => v == FieldValue::Signed(0i64),
        FieldKind::Boolean => v == FieldValue::Boolean(false),
        FieldKind::Float { .. } => v == FieldValue::Float(0u64),
        FieldKind::Enum { mapping, .. } => v == FieldValue::Enum(
            spec_enum_decode(mapping.variants@, 0),
        ),
        FieldKind::Nested { .. } => match v {
            FieldValue::Bytes(b) => b@.len() as int == (w + 7) / 8 && forall|k: int|
                0 <= k < b@.len() ==> b@[k] == 0u8,
            _ => false,
        },
        FieldKind::ArrayElement { .. } => match v {
            FieldValue::Bytes(b) => b@.len() as int == (w + 7) / 8 && forall|k: int|
                0 <= k < b@.len() ==> b@[k] == 0u8,
            _ => false,
        },
        FieldKind::ArrayBlock { .. } => match v {
            FieldValue::Bytes(b) => b@.len() as int == (w + 7) / 8 && forall|k: int|
                0 <= k < b@.len() ==> b@[k] == 0u8,
            _ => false,
        },
    }
}

/// Two field values are the same contents: byte windows compare by their
/// bytes, every other value by equality.
pub open spec fn spec_value_eq(a: FieldValue, b: FieldValue) -> bool {
    match a {
        FieldValue::Bytes(x) => match b {
            FieldValue::Bytes(y) => x@ == y@,
            _ => false,
        },
        _ => a == b,
    }
}

/// Logical bit `bit` lies inside one of the first `n` fields' resolved
/// ranges, counting non-reserved fields only.
pub open spec fn spec_bit_claimed_upto(fields: Seq<FieldSchema>, n: int, bit: int) -> bool {
    exists|i: int|
        0 <= i < n && !fields[i].reserved && spec_range_start(fields, i) <= bit
            < #[trigger] spec_range_end(fields, i)
}

/// Logical bit `bit` lies inside some non-reserved field's resolved range.
pub open spec fn spec_bit_claimed(fields: Seq<FieldSchema>, bit: int) -> bool {
    spec_bit_claimed_upto(fields, fields.len() as int, bit)
}

/// `buf` is the encoding of `values`: the right size, every non-reserved
/// field's bits spelling its value, and every unclaimed bit — gaps,
/// reserved ranges, trailing bits — zero.
pub open spec fn spec_record_encoded(
    buf: Seq<u8>,
    fields: Seq<FieldSchema>,
    config: StructConfig,
    values: Seq<FieldValue>,
) -> bool {
    let nb = (spec_total_bits(fields) + 7) / 8;
    buf.len() as int == nb && (forall|i: int|
        0 <= i < fields.len() && !(#[trigger] fields[i]).reserved ==> spec_field_encoded(
            buf,
            fields,
            config,
            nb,
            i,
            values[i],
        )) && (forall|bit: int|
        0 <= bit < 8 * nb && !spec_bit_claimed(fields, bit) ==> !buffer_bit(
            buf,
            config.bit_order,
            config.reverse,
            nb,
            bit,
        ))
}

/// `values` is the decoding of `buf`: non-reserved fields read back from
/// their ranges, reserved fields surfaced as their kind's zero value.
pub open spec fn spec_record_decoded(
    values: Seq<FieldValue>,
    buf: Seq<u8>,
    fields: Seq<FieldSchema>,
    config: StructConfig,
) -> bool {
    let nb = (spec_total_bits(fields) + 7) / 8;
    values.len() == fields.len() && forall|i: int|
        0 <= i < fields.len() ==> if (#[trigger] fields[i]).reserved {
            spec_is_zero_value(values[i], fields[i])
        } else {
            spec_field_decoded(values[i], buf, fields, config, nb, i)
        }
}

/// Every field's range lies within the record, and the record's bits fit
/// its byte count.
pub proof fn lemma_range_in_record(fields: Seq<FieldSchema>, i: int)
    requires
        0 <= i < fields.len(),
    ensures
        spec_range_end(fields, i) <= spec_total_bits(fields),
        spec_total_bits(fields) <= 8 * ((spec_total_bits(fields) + 7) / 8),
{
    crate::layout::lemma_max_end_bounds(fields, fields.len() as int);
    let t = spec_total_bits(fields);
    assert(t == 8 * (t / 8) + t % 8);
    assert(t <= 8 * ((t + 7) / 8));
}

/// Reads field `i`'s resolved start and width out of a matching layout.
fn field_start_width(fields: &Vec<FieldSchema>, layout: &Layout, i: usize) -> (r: (usize, usize))
    requires
        spec_layout_matches(fields@, *layout),
        i < fields@.len(),
        crate::layout::spec_field_ok(fields@[i as int]),
        spec_total_bits(fields@) + 7 <= usize::MAX as int,
    ensures
        r.0 as int == spec_range_start(fields@, i as int),
        r.1 as int == spec_field_width(fields@[i as int]),
        r.0 + r.1 == spec_range_end(fields@, i as int),
        r.0 + r.1 <= 8 * ((spec_total_bits(fields@) + 7) / 8),
        r.0 + r.1 <= usize::MAX as int,
{
    proof {
        lemma_range_in_record(fields@, i as int);
    }
    let start = layout.ranges[i].start_bit;
    let end = layout.ranges[i].end_bit;
    (start, end - start)
}

/// Converts a scalar field value to the scratch integer laid into the
/// buffer.
fn scalar_raw_exec(f: &FieldSchema, v: &FieldValue) -> (r: u64)
    requires
        spec_kind_is_scalar(f.kind),
        crate::layout::spec_field_ok(*f),
        spec_value_fits(*v, *f),
    ensures
        r as int == spec_scalar_raw(*v, *f),
        fits_width(r, spec_field_width(*f)),
{
    proof {
        vstd::arithmetic::power2::lemma2_to64();
        if 1 < f.bit_length < 64 {
            vstd::arithmetic::power2::lemma_pow2_strictly_increases(1, f.bit_length as nat);
        }
    }
    match v {
        FieldValue::Unsigned(x) => *x,
        FieldValue::Signed(x) => crate::field::signed_to_raw_exec(*x, f.bit_length),
        FieldValue::Boolean(b) => if *b {
            1
        } else {
            0
        },
        FieldValue::Float(x) => *x,
        FieldValue::Enum(ev) => match &f.kind {
            FieldKind::Enum { mapping, .. } => crate::enums::encode_variant(
                &mapping.variants,
                f.bit_length,
                ev,
            ),
            _ => {
                proof {
                    assert(false);
                }
                0
            },
        },
        FieldValue::Bytes(_) => {
            proof {
                assert(false);
            }
            0
        },
    }
}

/// Writes one field's value at `[start, start + w)`, leaving every logical
/// bit outside the range untouched.
fn write_value(
    buf: &mut Vec<u8>,
    config: &StructConfig,
    f: &FieldSchema,
    nbytes: usize,
    start: usize,
    w: usize,
    v: &FieldValue,
)
    requires
        crate::layout::spec_field_ok(*f),
        w as int == spec_field_width(*f),
        spec_value_fits(*v, *f),
        start + w <= 8 * (nbytes as int),
        start + w <= usize::MAX as int,
        range_in_buffer(
            config.bit_order,
            config.reverse,
            nbytes as int,
            start as int,
            w as int,
            old(buf)@.len() as int,
        ),
    ensures
        final(buf)@.len() == old(buf)@.len(),
        spec_kind_is_scalar(f.kind) ==> field_bits_eq(
            final(buf)@,
            config.bit_order,
            config.reverse,
            nbytes as int,
            start as int,
            w as int,
            spec_field_endianness(*f, *config),
            spec_scalar_raw(*v, *f) as u64,
        ),
        !spec_kind_is_scalar(f.kind) ==> (match v {
            FieldValue::Bytes(b) => window_bits_eq(
                final(buf)@,
                config.bit_order,
                config.reverse,
                nbytes as int,
                start as int,
                w as int,
                b@,
            ),
            _ => false,
        }),
        forall|i2: int|
            0 <= i2 < 8 * (nbytes as int) && !(start <= i2 < start + w) && phys_byte_index(
                config.bit_order,
                config.reverse,
                nbytes as int,
                i2,
            ) < final(buf)@.len() ==> buffer_bit(
                final(buf)@,
                config.bit_order,
                config.reverse,
                nbytes as int,
                i2,
            ) == buffer_bit(old(buf)@, config.bit_order, config.reverse, nbytes as int, i2),
{
    let e = f.resolved_endianness(config);
    let scalar = match &f.kind {
        FieldKind::Unsigned { .. } => true,
        FieldKind::Signed { .. } => true,
        FieldKind::Boolean => true,
        FieldKind::Float { .. } => true,
        FieldKind::Enum { .. } => true,
        _ => false,
    };
    if scalar {
        let raw = scalar_raw_exec(f, v);
        write_field_raw(buf, config.bit_order, config.reverse, nbytes, start, w, e, raw);
    } else {
        match v {
            FieldValue::Bytes(b) => {
                proof {
                    assert(8 * ((w as int + 7) / 8) >= w as int);
                }
                write_window(buf, config.bit_order, config.reverse, nbytes, start, w, b);
            },
            _ => {
                proof {
                    assert(false);
                }
            },
        }
    }
}

/// Reads one field's value from `[start, start + w)`.
fn read_value(
    buf: &Vec<u8>,
    config: &StructConfig,
    f: &FieldSchema,
    nbytes: usize,
    start: usize,
    w: usize,
) -> (r: FieldValue)
    requires
        crate::layout::spec_field_ok(*f),
        w as int == spec_field_width(*f),
        start + w <= 8 * (nbytes as int),
        start + w <= usize::MAX as int,
        w as int + 7 <= usize::MAX as int,
        range_in_buffer(
            config.bit_order,
            config.reverse,
            nbytes as int,
            start as int,
            w as int,
            buf@.len() as int,
        ),
    ensures
        spec_kind_is_scalar(f.kind) ==> (match r {
            FieldValue::Unsigned(raw) => f.kind is Unsigned && fits_width(raw, w as int)
                && field_bits_eq(
                buf@,
                config.bit_order,
                config.reverse,
                nbytes as int,
                start as int,
                w as int,
                spec_field_endianness(*f, *config),
                raw,
            ),
            FieldValue::Signed(x) => f.kind is Signed && signed_in_range(x, w as int)
                && field_bits_eq(
                buf@,
                config.bit_order,
                config.reverse,
                nbytes as int,
                start as int,
                w as int,
                spec_field_endianness(*f, *config),
                signed_to_raw(x, w as int) as u64,
            ),
            FieldValue::Boolean(b) => f.kind is Boolean && exists|raw: u64|
                fits_width(raw, w as int) && #[trigger] field_bits_eq(
                    buf@,
                    config.bit_order,
                    config.reverse,
                    nbytes as int,
                    start as int,
                    w as int,
                    spec_field_endianness(*f, *config),
                    raw,
                ) && b == (raw != 0),
            FieldValue::Float(raw) => f.kind is Float && fits_width(raw, w as int)
                && field_bits_eq(
                buf@,
                config.bit_order,
                config.reverse,
                nbytes as int,
                start as int,
                w as int,
                spec_field_endianness(*f, *config),
                raw,
            ),
            FieldValue::Enum(ev) => f.kind is Enum && exists|raw: u64|
                fits_width(raw, w as int) && #[trigger] field_bits_eq(
                    buf@,
                    config.bit_order,
                    config.reverse,
                    nbytes as int,
                    start as int,
                    w as int,
                    spec_field_endianness(*f, *config),
                    raw,
                ) && ev == spec_enum_decode(f.kind->Enum_mapping.variants@, raw as int),
            _ => false,
        }),
        !spec_kind_is_scalar(f.kind) ==> (match r {
            FieldValue::Bytes(b) => window_well_formed(b@, w as int) && window_bits_eq(
                buf@,
                config.bit_order,
                config.reverse,
                nbytes as int,
                start as int,
                w as int,
                b@,
            ),
            _ => false,
        }),
{
    let e = f.resolved_endianness(config);
    match &f.kind {
        FieldKind::Unsigned { .. } => {
            let raw = read_field_raw(buf, config.bit_order, config.reverse, nbytes, start, w, e);
            FieldValue::Unsigned(raw)
        },
        FieldKind::Signed { .. } => {
            let raw = read_field_raw(buf, config.bit_order, config.reverse, nbytes, start, w, e);
            let x = crate::field::raw_to_signed_exec(raw, w);
            proof {
                crate::field::lemma_raw_signed_inverse(raw, w as int, x);
            }
            FieldValue::Signed(x)
        },
        FieldKind::Boolean => {
            let raw = read_field_raw(buf, config.bit_order, config.reverse, nbytes, start, w, e);
            FieldValue::Boolean(raw != 0)
        },
        FieldKind::Float { .. } => {
            let raw = read_field_raw(buf, config.bit_order, config.reverse, nbytes, start, w, e);
            FieldValue::Float(raw)
        },
        FieldKind::Enum { mapping, .. } => {
            let raw = read_field_raw(buf, config.bit_order, config.reverse, nbytes, start, w, e);
            let ev = crate::enums::decode_variant(&mapping.variants, f.bit_length, raw);
            FieldValue::Enum(ev)
        },
        FieldKind::Nested { .. } => FieldValue::Bytes(
            read_window(buf, config.bit_order, config.reverse, nbytes, start, w),
        ),
        FieldKind::ArrayElement { .. } => FieldValue::Bytes(
            read_window(buf, config.bit_order, config.reverse, nbytes, start, w),
        ),
        FieldKind::ArrayBlock { .. } => FieldValue::Bytes(
            read_window(buf, config.bit_order, config.reverse, nbytes, start, w),
        ),
    }
}

/// The kind's zero value, executably.
fn zero_value_exec(f: &FieldSchema) -> (r: FieldValue)
    requires
        crate::layout::spec_field_ok(*f),
        spec_field_width(*f) + 7 <= usize::MAX as int,
    ensures
        spec_is_zero_value(r, *f),
{
    match &f.kind {
        FieldKind::Unsigned { .. } => FieldValue::Unsigned(0),
        FieldKind::Signed { .. } => FieldValue::Signed(0),
        FieldKind::Boolean => FieldValue::Boolean(false),
        FieldKind::Float { .. } => FieldValue::Float(0),
        FieldKind::Enum { mapping, .. } => FieldValue::Enum(
            crate::enums::decode_variant(&mapping.variants, f.bit_length, 0),
        ),
        FieldKind::Nested { .. } => {
            let w = f.width();
            FieldValue::Bytes(zero_vec((w + 7) / 8))
        },
        FieldKind::ArrayElement { .. } => {
            let w = f.width();
            FieldValue::Bytes(zero_vec((w + 7) / 8))
        },
        FieldKind::ArrayBlock { .. } => {
            let w = f.width();
            FieldValue::Bytes(zero_vec((w + 7) / 8))
        },
    }
}

/// Encodes a whole record: zeroes a buffer of the layout's size and writes
/// every non-reserved field's value into its range.  Ranges are disjoint,
/// so the writes compose in any order; reserved ranges, gaps and trailing
/// bits are left zero.
pub fn encode_record(
    fields: &Vec<FieldSchema>,
    config: &StructConfig,
    layout: &Layout,
    values: &Vec<FieldValue>,
) -> (r: Vec<u8>)
    requires
        spec_schema_valid(fields@, *config),
        spec_layout_matches(fields@, *layout),
        spec_total_bits(fields@) + 7 <= usize::MAX as int,
        values@.len() == fields@.len(),
        forall|i: int|
            0 <= i < fields@.len() && !(#[trigger] fields@[i]).reserved ==> spec_value_fits(
                values@[i],
                fields@[i],
            ),
    ensures
        spec_record_encoded(r@, fields@, *config, values@),
{
    let order = config.bit_order;
    let rev = config.reverse;
    let nbytes = layout.total_bytes;
    let ghost nb = nbytes as int;
    let mut buf = zero_vec(nbytes);
    proof {
        assert forall|bit: int| 0 <= bit < 8 * nb implies !buffer_bit(buf@, order, rev, nb, bit) by {
            lemma_zero_buffer_bits_clear(buf@, order, rev, nb, bit);
        }
    }
    let n = fields.len();
    let mut i: usize = 0;
    while i < n
        invariant
            i <= n,
            n == fields@.len(),
            spec_schema_valid(fields@, *config),
            spec_layout_matches(fields@, *layout),
            spec_total_bits(fields@) + 7 <= usize::MAX as int,
            nb == nbytes as int,
            nb == (spec_total_bits(fields@) + 7) / 8,
            order == config.bit_order,
            rev == config.reverse,
            values@.len() == n,
            forall|k: int|
                0 <= k < n && !(#[trigger] fields@[k]).reserved ==> spec_value_fits(
                    values@[k],
                    fields@[k],
                ),
            buf@.len() == nbytes,
            forall|k: int|
                0 <= k < i && !(#[trigger] fields@[k]).reserved ==> spec_field_encoded(
                    buf@,
                    fields@,
                    *config,
                    nb,
                    k,
                    values@[k],
                ),
            forall|bit: int|
                0 <= bit < 8 * nb && !spec_bit_claimed_upto(fields@, i as int, bit)
                    ==> !buffer_bit(buf@, order, rev, nb, bit),
        decreases n - i,
    {
        if !fields[i].reserved {
            let (start, w) = field_start_width(fields, layout, i);
            proof {
                lemma_range_in_record(fields@, i as int);
                assert forall|j: int|
                    0 <= j < w implies #[trigger] phys_byte_index(order, rev, nb, start + j) < buf@.len() as int by {
                    lemma_phys_in_range(order, rev, nb, start + j);
                }
            }
            let ghost pre = buf@;
            write_value(&mut buf, config, &fields[i], nbytes, start, w, &values[i]);
            proof {
                assert forall|k: int|
                    0 <= k < i && !(#[trigger] fields@[k]).reserved implies spec_field_encoded(
                    buf@,
                    fields@,
                    *config,
                    nb,
                    k,
                    values@[k],
                ) by {
                    assert(spec_pair_disjoint(fields@, k, i as int));
                    lemma_range_in_record(fields@, k);
                    crate::layout::lemma_cursor_monotone(fields@, 0, k);
                    let sk = spec_range_start(fields@, k);
                    let wk = spec_field_width(fields@[k]);
                    assert(crate::layout::spec_field_ok(fields@[k]));
                    assert(sk + wk == spec_range_end(fields@, k));
                    assert(0 <= sk);
                    assert forall|j: int| 0 <= j < wk implies #[trigger] buffer_bit(
                        buf@,
                        order,
                        rev,
                        nb,
                        sk + j,
                    ) == buffer_bit(pre, order, rev, nb, sk + j) by {
                        lemma_phys_in_range(order, rev, nb, sk + j);
                    }
                }
                assert forall|bit: int|
                    0 <= bit < 8 * nb && !spec_bit_claimed_upto(fields@, i as int + 1, bit) implies !buffer_bit(
                    buf@,
                    order,
                    rev,
                    nb,
                    bit,
                ) by {
                    assert(!spec_bit_claimed_upto(fields@, i as int, bit));
                    assert(!(start <= bit < start + w));
                    lemma_phys_in_range(order, rev, nb, bit);
                }
            }
        } else {
            proof {
                assert forall|bit: int|
                    0 <= bit < 8 * nb && !spec_bit_claimed_upto(fields@, i as int + 1, bit) implies !buffer_bit(
                    buf@,
                    order,
                    rev,
                    nb,
                    bit,
                ) by {
                    assert(!spec_bit_claimed_upto(fields@, i as int, bit));
                }
            }
        }
        i = i + 1;
    }
    buf
}

/// Decodes a whole record: reads every non-reserved field out of its range
/// and surfaces reserved fields as their kind's zero value, leaving their
/// bits unread.
pub fn decode_record(
    fields: &Vec<FieldSchema>,
    config: &StructConfig,
    layout: &Layout,
    buf: &Vec<u8>,
) -> (r: Vec<FieldValue>)
    requires
        spec_schema_valid(fields@, *config),
        spec_layout_matches(fields@, *layout),
        spec_total_bits(fields@) + 7 <= usize::MAX as int,
        buf@.len() as int == (spec_total_bits(fields@) + 7) / 8,
    ensures
        spec_record_decoded(r@, buf@, fields@, *config),
{
    let order = config.bit_order;
    let rev = config.reverse;
    let nbytes = buf.len();
    let ghost nb = nbytes as int;
    let n = fields.len();
    let mut out: Vec<FieldValue> = Vec::new();
    let mut i: usize = 0;
    while i < n
        invariant
            i <= n,
            n == fields@.len(),
            spec_schema_valid(fields@, *config),
            spec_layout_matches(fields@, *layout),
            spec_total_bits(fields@) + 7 <= usize::MAX as int,
            nb == nbytes as int,
            nb == (spec_total_bits(fields@) + 7) / 8,
            buf@.len() == nbytes,
            order == config.bit_order,
            rev == config.reverse,
            out@.len() == i,
            forall|k: int|
                0 <= k < i ==> if (#[trigger] fields@[k]).reserved {
                    spec_is_zero_value(out@[k], fields@[k])
                } else {
                    spec_field_decoded(out@[k], buf@, fields@, *config, nb, k)
                },
        decreases n - i,
    {
        if fields[i].reserved {
            proof {
                lemma_range_in_record(fields@, i as int);
                crate::layout::lemma_cursor_monotone(fields@, 0, i as int);
                assert(crate::layout::spec_field_ok(fields@[i as int]));
                assert(spec_field_width(fields@[i as int]) + spec_range_start(fields@, i as int)
                    == spec_range_end(fields@, i as int));
            }
            let v = zero_value_exec(&fields[i]);
            out.push(v);
        } else {
            let (start, w) = field_start_width(fields, layout, i);
            proof {
                lemma_range_in_record(fields@, i as int);
                assert forall|j: int|
                    0 <= j < w implies #[trigger] phys_byte_index(order, rev, nb, start + j) < buf@.len() as int by {
                    lemma_phys_in_range(order, rev, nb, start + j);
                }
            }
            let v = read_value(buf, config, &fields[i], nbytes, start, w);
            out.push(v);
        }
        i = i + 1;
    }
    out
}

/// Reads one field — reserved fields included — out of a full record
/// buffer.
pub fn read_field_at(
    fields: &Vec<FieldSchema>,
    config: &StructConfig,
    layout: &Layout,
    i: usize,
    buf: &Vec<u8>,
) -> (r: FieldValue)
    requires
        spec_schema_valid(fields@, *config),
        spec_layout_matches(fields@, *layout),
        spec_total_bits(fields@) + 7 <= usize::MAX as int,
        i < fields@.len(),
        buf@.len() as int == (spec_total_bits(fields@) + 7) / 8,
    ensures
        spec_field_decoded(
            r,
            buf@,
            fields@,
            *config,
            (spec_total_bits(fields@) + 7) / 8,
            i as int,
        ),
{
    let order = config.bit_order;
    let rev = config.reverse;
    let nbytes = buf.len();
    let ghost nb = nbytes as int;
    let (start, w) = field_start_width(fields, layout, i);
    proof {
        lemma_range_in_record(fields@, i as int);
        assert forall|j: int|
            0 <= j < w implies #[trigger] phys_byte_index(order, rev, nb, start + j) < buf@.len() as int by {
            lemma_phys_in_range(order, rev, nb, start + j);
        }
    }
    read_value(buf, config, &fields[i], nbytes, start, w)
}

/// Writes one field — reserved fields included — into a full record
/// buffer, leaving every logical bit outside its range untouched.
pub fn write_field_at(
    fields: &Vec<FieldSchema>,
    config: &StructConfig,
    layout: &Layout,
    i: usize,
    buf: &mut Vec<u8>,
    v: &FieldValue,
)
    requires
        spec_schema_valid(fields@, *config),
        spec_layout_matches(fields@, *layout),
        spec_total_bits(fields@) + 7 <= usize::MAX as int,
        i < fields@.len(),
        old(buf)@.len() as int == (spec_total_bits(fields@) + 7) / 8,
        spec_value_fits(*v, fields@[i as int]),
    ensures
        final(buf)@.len() == old(buf)@.len(),
        spec_field_encoded(
            final(buf)@,
            fields@,
            *config,
            (spec_total_bits(fields@) + 7) / 8,
            i as int,
            *v,
        ),
        forall|bit: int|
            0 <= bit < 8 * ((spec_total_bits(fields@) + 7) / 8) && !(spec_range_start(
                fields@,
                i as int,
            ) <= bit < spec_range_end(fields@, i as int)) ==> #[trigger] buffer_bit(
                final(buf)@,
                config.bit_order,
                config.reverse,
                (spec_total_bits(fields@) + 7) / 8,
                bit,
            ) == buffer_bit(
                old(buf)@,
                config.bit_order,
                config.reverse,
                (spec_total_bits(fields@) + 7) / 8,
                bit,
            ),
{
    let order = config.bit_order;
    let rev = config.reverse;
    let nbytes = buf.len();
    let ghost nb = nbytes as int;
    let (start, w) = field_start_width(fields, layout, i);
    proof {
        lemma_range_in_record(fields@, i as int);
        assert forall|j: int|
            0 <= j < w implies #[trigger] phys_byte_index(order, rev, nb, start + j) < buf@.len() as int by {
            lemma_phys_in_range(order, rev, nb, start + j);
        }
    }
    write_value(buf, config, &fields[i], nbytes, start, w, v);
    proof {
        assert forall|bit: int|
            0 <= bit < 8 * nb && !(spec_range_start(fields@, i as int) <= bit < spec_range_end(
                fields@,
                i as int,
            )) implies buffer_bit(buf@, order, rev, nb, bit) == buffer_bit(
            old(buf)@,
            order,
            rev,
            nb,
            bit,
        ) by {
            lemma_phys_in_range(order, rev, nb, bit);
        }
    }
}

/// Reads one field out of a buffer that only has to cover the field's
/// physical bytes, failing with the field's identity and its minimum
/// required length when the buffer is shorter than that.
pub fn read_field_bounded(
    fields: &Vec<FieldSchema>,
    config: &StructConfig,
    layout: &Layout,
    i: usize,
    buf: &Vec<u8>,
) -> (r: Result<FieldValue, BoundsError>)
    requires
        spec_schema_valid(fields@, *config),
        spec_layout_matches(fields@, *layout),
        spec_total_bits(fields@) + 7 <= usize::MAX as int,
        i < fields@.len(),
    ensures
        match r {
            Ok(v) => buf@.len() as int >= spec_required_len(
                config.bit_order,
                config.reverse,
                (spec_total_bits(fields@) + 7) / 8,
                spec_range_start(fields@, i as int),
                spec_field_width(fields@[i as int]),
            ) && spec_field_decoded(
                v,
                buf@,
                fields@,
                *config,
                (spec_total_bits(fields@) + 7) / 8,
                i as int,
            ),
            Err(e) => (buf@.len() as int) < spec_required_len(
                config.bit_order,
                config.reverse,
                (spec_total_bits(fields@) + 7) / 8,
                spec_range_start(fields@, i as int),
                spec_field_width(fields@[i as int]),
            ) && e.field == i && e.required as int == spec_required_len(
                config.bit_order,
                config.reverse,
                (spec_total_bits(fields@) + 7) / 8,
                spec_range_start(fields@, i as int),
                spec_field_width(fields@[i as int]),
            ),
        },
{
    let order = config.bit_order;
    let rev = config.reverse;
    let nbytes = layout.total_bytes;
    let ghost nb = nbytes as int;
    let (start, w) = field_start_width(fields, layout, i);
    proof {
        lemma_range_in_record(fields@, i as int);
    }
    let req = required_len_exec(order, rev, nbytes, start, w);
    if buf.len() < req {
        Err(BoundsError { field: i, required: req })
    } else {
        proof {
            lemma_required_len(order, rev, nb, start as int, w as int);
        }
        Ok(read_value(buf, config, &fields[i], nbytes, start, w))
    }
}

/// Writes one field through a buffer that only has to cover the field's
/// physical bytes, failing — and leaving the buffer untouched — with the
/// field's identity and its minimum required length when the buffer is
/// shorter than that.
pub fn write_field_bounded(
    fields: &Vec<FieldSchema>,
    config: &StructConfig,
    layout: &Layout,
    i: usize,
    buf: &mut Vec<u8>,
    v: &FieldValue,
) -> (r: Result<(), BoundsError>)
    requires
        spec_schema_valid(fields@, *config),
        spec_layout_matches(fields@, *layout),
        spec_total_bits(fields@) + 7 <= usize::MAX as int,
        i < fields@.len(),
        spec_value_fits(*v, fields@[i as int]),
    ensures
        match r {
            Ok(_) => old(buf)@.len() as int >= spec_required_len(
                config.bit_order,
                config.reverse,
                (spec_total_bits(fields@) + 7) / 8,
                spec_range_start(fields@, i as int),
                spec_field_width(fields@[i as int]),
            ) && final(buf)@.len() == old(buf)@.len() && spec_field_encoded(
                final(buf)@,
                fields@,
                *config,
                (spec_total_bits(fields@) + 7) / 8,
                i as int,
                *v,
            ) && (forall|bit: int|
                0 <= bit < 8 * ((spec_total_bits(fields@) + 7) / 8) && !(spec_range_start(
                    fields@,
                    i as int,
                ) <= bit < spec_range_end(fields@, i as int)) && phys_byte_index(
                    config.bit_order,
                    config.reverse,
                    (spec_total_bits(fields@) + 7) / 8,
                    bit,
                ) < final(buf)@.len() ==> #[trigger] buffer_bit(
                    final(buf)@,
                    config.bit_order,
                    config.reverse,
                    (spec_total_bits(fields@) + 7) / 8,
                    bit,
                ) == buffer_bit(
                    old(buf)@,
                    config.bit_order,
                    config.reverse,
                    (spec_total_bits(fields@) + 7) / 8,
                    bit,
                )),
            Err(e) => final(buf)@ == old(buf)@ && (old(buf)@.len() as int) < spec_required_len(
                config.bit_order,
                config.reverse,
                (spec_total_bits(fields@) + 7) / 8,
                spec_range_start(fields@, i as int),
                spec_field_width(fields@[i as int]),
            ) && e.field == i && e.required as int == spec_required_len(
                config.bit_order,
                config.reverse,
                (spec_total_bits(fields@) + 7) / 8,
                spec_range_start(fields@, i as int),
                spec_field_width(fields@[i as int]),
            ),
        },
{
    let order = config.bit_order;
    let rev = config.reverse;
    let nbytes = layout.total_bytes;
    let ghost nb = nbytes as int;
    let (start, w) = field_start_width(fields, layout, i);
    proof {
        lemma_range_in_record(fields@, i as int);
    }
    let req = required_len_exec(order, rev, nbytes, start, w);
    if buf.len() < req {
        Err(BoundsError { field: i, required: req })
    } else {
        proof {
            lemma_required_len(order, rev, nb, start as int, w as int);
        }
        write_value(buf, config, &fields[i], nbytes, start, w, v);
        Ok(())
    }
}

/// Round trip: decoding an encoded record yields every non-reserved
/// field's value back, byte windows compared by their contents.  Reserved
/// fields are excluded: they are not part of the record's value.
#[verifier::rlimit(80)]
pub proof fn lemma_record_round_trip(
    fields: Seq<FieldSchema>,
    config: StructConfig,
    values: Seq<FieldValue>,
    buf: Seq<u8>,
    decoded: Seq<FieldValue>,
)
    requires
        spec_schema_valid(fields, config),
        values.len() == fields.len(),
        forall|i: int|
            0 <= i < fields.len() && !(#[trigger] fields[i]).reserved ==> spec_value_fits(
                values[i],
                fields[i],
            ),
        spec_record_encoded(buf, fields, config, values),
        spec_record_decoded(decoded, buf, fields, config),
    ensures
        forall|i: int|
            0 <= i < fields.len() && !(#[trigger] fields[i]).reserved ==> spec_value_eq(
                decoded[i],
                values[i],
            ),
{
    let nb = (spec_total_bits(fields) + 7) / 8;
    assert forall|i: int|
        0 <= i < fields.len() && !(#[trigger] fields[i]).reserved implies spec_value_eq(
        decoded[i],
        values[i],
    ) by {
        let f = fields[i];
        let start = spec_range_start(fields, i);
        let w = spec_field_width(f);
        let e = spec_field_endianness(f, config);
        let order = config.bit_order;
        let rev = config.reverse;
        assert(crate::layout::spec_field_ok(f));
        assert(spec_field_encoded(buf, fields, config, nb, i, values[i]));
        assert(spec_field_decoded(decoded[i], buf, fields, config, nb, i));
        vstd::arithmetic::power2::lemma2_to64();
        match f.kind {
            FieldKind::Unsigned { .. } => {
                let x = values[i]->Unsigned_0;
                let y = decoded[i]->Unsigned_0;
                crate::field::lemma_field_value_unique(buf, order, rev, nb, start, w, e, x, y);
            },
            FieldKind::Signed { .. } => {
                let x = values[i]->Signed_0;
                let y = decoded[i]->Signed_0;
                crate::field::lemma_signed_to_raw_fits(x, w);
                crate::field::lemma_signed_to_raw_fits(y, w);
                vstd::arithmetic::power2::lemma2_to64_rest();
                if w < 64 {
                    vstd::arithmetic::power2::lemma_pow2_strictly_increases(w as nat, 64);
                }
                crate::field::lemma_field_value_unique(
                    buf,
                    order,
                    rev,
                    nb,
                    start,
                    w,
                    e,
                    signed_to_raw(x, w) as u64,
                    signed_to_raw(y, w) as u64,
                );
                crate::field::lemma_signed_round_trip(x, w, signed_to_raw(x, w) as u64);
                crate::field::lemma_signed_round_trip(y, w, signed_to_raw(y, w) as u64);
            },
            FieldKind::Boolean => {
                let b0 = values[i]->Boolean_0;
                let b1 = decoded[i]->Boolean_0;
                let raw1 = choose|raw: u64|
                    fits_width(raw, w) && #[trigger] field_bits_eq(
                        buf,
                        order,
                        rev,
                        nb,
                        start,
                        w,
                        e,
                        raw,
                    ) && b1 == (raw != 0);
                let raw0 = spec_scalar_raw(values[i], f) as u64;
                if 1 < w < 64 {
                    vstd::arithmetic::power2::lemma_pow2_strictly_increases(1, w as nat);
                }
                crate::field::lemma_field_value_unique(
                    buf,
                    order,
                    rev,
                    nb,
                    start,
                    w,
                    e,
                    raw0,
                    raw1,
                );
            },
            FieldKind::Float { .. } => {
                let x = values[i]->Float_0;
                let y = decoded[i]->Float_0;
                crate::field::lemma_field_value_unique(buf, order, rev, nb, start, w, e, x, y);
            },
            FieldKind::Enum { mapping, .. } => {
                let ev = values[i]->Enum_0;
                let ev1 = decoded[i]->Enum_0;
                let raw1 = choose|raw: u64|
                    fits_width(raw, w) && #[trigger] field_bits_eq(
                        buf,
                        order,
                        rev,
                        nb,
                        start,
                        w,
                        e,
                        raw,
                    ) && ev1 == spec_enum_decode(mapping.variants@, raw as int);
                let raw0 = spec_enum_encode(mapping.variants@, ev);
                assert(0 <= raw0 < pow2(w as nat) as int) by {
                    if mapping.variants@[ev.variant as int].catch
                        != crate::schema::CatchMode::CatchValue {
                        assert(crate::enums::spec_assigned(mapping.variants@, ev.variant as int)
                            < pow2(w as nat) as int);
                        crate::enums::lemma_assigned_nonneg(mapping.variants@, w, ev.variant as int);
                    }
                }
                crate::field::lemma_field_value_unique(
                    buf,
                    order,
                    rev,
                    nb,
                    start,
                    w,
                    e,
                    raw0 as u64,
                    raw1,
                );
                crate::enums::lemma_enum_round_trip(mapping.variants@, w, ev);
            },
            FieldKind::Nested { .. } => {
                let b0 = values[i]->Bytes_0;
                let b1 = decoded[i]->Bytes_0;
                crate::field::lemma_window_unique(buf, order, rev, nb, start, w, b0@, b1@);
            },
            FieldKind::ArrayElement { .. } => {
                let b0 = values[i]->Bytes_0;
                let b1 = decoded[i]->Bytes_0;
                crate::field::lemma_window_unique(buf, order, rev, nb, start, w, b0@, b1@);
            },
            FieldKind::ArrayBlock { .. } => {
                let b0 = values[i]->Bytes_0;
                let b1 = decoded[i]->Bytes_0;
                crate::field::lemma_window_unique(buf, order, rev, nb, start, w, b0@, b1@);
            },
        }
    }
}

/// Reserved-field isolation: a whole-record encode never sets a bit inside
/// a reserved field's range; the range keeps the buffer's zero state.
pub proof fn lemma_reserved_bits_zero(
    fields: Seq<FieldSchema>,
    config: StructConfig,
    values: Seq<FieldValue>,
    buf: Seq<u8>,
    i: int,
)
    requires
        spec_schema_valid(fields, config),
        spec_record_encoded(buf, fields, config, values),
        0 <= i < fields.len(),
        fields[i].reserved,
    ensures
        forall|bit: int|
            spec_range_start(fields, i) <= bit < spec_range_end(fields, i) ==> !(#[trigger] buffer_bit(
                buf,
                config.bit_order,
                config.reverse,
                (spec_total_bits(fields) + 7) / 8,
                bit,
            )),
{
    let nb = (spec_total_bits(fields) + 7) / 8;
    assert forall|bit: int|
        spec_range_start(fields, i) <= bit < spec_range_end(fields, i) implies !buffer_bit(
        buf,
        config.bit_order,
        config.reverse,
        nb,
        bit,
    ) by {
        lemma_range_in_record(fields, i);
        crate::layout::lemma_cursor_monotone(fields, 0, i);
        assert(0 <= bit < 8 * nb);
        if spec_bit_claimed(fields, bit) {
            let k = choose|k: int|
                0 <= k < fields.len() && !fields[k].reserved && spec_range_start(fields, k) <= bit
                    < #[trigger] spec_range_end(fields, k);
            assert(k != i);
            if k < i {
                assert(spec_pair_disjoint(fields, k, i));
            } else {
                assert(spec_pair_disjoint(fields, i, k));
            }
        }
    }
}

} // verus!
