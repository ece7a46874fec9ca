//! Hexadecimal text codec: two ASCII nibble characters per byte.
//!
//! Encoding is case-selectable; decoding accepts either case and fails on
//! the first character that is not a hex digit, naming the character and
//! its position.

use vstd::prelude::*;
use crate::layout::{spec_layout_matches, spec_schema_valid, spec_total_bits, Layout};
use crate::record::{
    decode_record,
    encode_record,
    spec_record_decoded,
    spec_record_encoded,
    FieldValue,
};
use crate::schema::{FieldSchema, StructConfig};

verus! {

/// A hex decode met a byte that is no hex digit: the byte and its
/// position in the input.
#[derive(Clone, Copy, PartialEq, Eq, Structural, Debug)]
pub struct HexError {
    /// The offending input byte.
    pub character: u8,
    /// Its position in the input.
    pub position: usize,
}

/// The ASCII digit encoding the nibble `v`, from the upper- or lower-case
/// table.
pub open spec fn spec_hex_digit(v: u8, upper: bool) -> u8 {
    if v < 10 {
        (48 + v) as u8
    } else if upper {
        (55 + v) as u8
    } else {
        (87 + v) as u8
    }
}

/// The nibble an ASCII byte stands for, when it is a hex digit of either
/// case.
pub open spec fn spec_nibble(c: u8) -> Option<u8> {
    if 48 <= c <= 57 {
        Some((c - 48) as u8)
    } else if 65 <= c <= 70 {
        Some((c - 65 + 10) as u8)
    } else if 97 <= c <= 102 {
        Some((c - 97 + 10) as u8)
    } else {
        None
    }
}

/// `h` is the hex text of `bytes`: twice as long, the high nibble of each
/// byte first.
pub open spec fn spec_hex_encoding(h: Seq<u8>, bytes: Seq<u8>, upper: bool) -> bool {
    h.len() == 2 * bytes.len() && forall|i: int|
        0 <= i < bytes.len() ==> h[2 * i] == spec_hex_digit((#[trigger] bytes[i]) >> 4u8, upper)
            && h[2 * i + 1] == spec_hex_digit(bytes[i] & 15u8, upper)
}

/// `bytes` is the decoding of the hex text `h`: every character a digit,
/// each pair combined high nibble first.
pub open spec fn spec_hex_decoding(bytes: Seq<u8>, h: Seq<u8>) -> bool {
    2 * bytes.len() == h.len() && (forall|p: int| 0 <= p < h.len() ==> spec_nibble(#[trigger] h[p]) is Some)
        && (forall|i: int|
        0 <= i < bytes.len() ==> #[trigger] bytes[i] == spec_nibble(h[2 * i]).unwrap() * 16
            + spec_nibble(h[2 * i + 1]).unwrap())
}

/// Encodes one nibble as an ASCII digit.
fn hex_digit_exec(v: u8, upper: bool) -> (r: u8)
    requires
        v < 16,
    ensures
        r == spec_hex_digit(v, upper),
{
    if v < 10 {
        48 + v
    } else if upper {
        55 + v
    } else {
        87 + v
    }
}

/// Decodes one ASCII byte to its nibble, if it is a hex digit.
fn nibble_exec(c: u8) -> (r: Option<u8>)
    ensures
        r == spec_nibble(c),
{
    if 48 <= c && c <= 57 {
        Some(c - 48)
    } else if 65 <= c && c <= 70 {
        Some(c - 65 + 10)
    } else if 97 <= c && c <= 102 {
        Some(c - 97 + 10)
    } else {
        None
    }
}

/// Encodes a byte sequence as hex text, upper or lower case.
pub fn to_hex(bytes: &Vec<u8>, upper: bool) -> (r: Vec<u8>)
    requires
        2 * bytes@.len() <= usize::MAX as int,
    ensures
        spec_hex_encoding(r@, bytes@, upper),
{
    let n = bytes.len();
    let mut out: Vec<u8> = Vec::new();
    let mut i: usize = 0;
    while i < n
        invariant
            i <= n,
            n == bytes@.len(),
            2 * n <= usize::MAX as int,
            out@.len() == 2 * i,
            forall|k: int|
                0 <= k < i ==> out@[2 * k] == spec_hex_digit((#[trigger] bytes@[k]) >> 4u8, upper)
                    && out@[2 * k + 1] == spec_hex_digit(bytes@[k] & 15u8, upper),
        decreases n - i,
    {
        let b = bytes[i];
        proof {
            assert((b >> 4u8) < 16 && (b & 15u8) < 16) by (bit_vector);
        }
        out.push(hex_digit_exec(b >> 4, upper));
        out.push(hex_digit_exec(b & 15, upper));
        i = i + 1;
    }
    out
}

/// Decodes hex text back to bytes, failing on the first byte that is not
/// a hex digit and naming it together with its position.
pub fn from_hex(h: &Vec<u8>) -> (r: Result<Vec<u8>, HexError>)
    requires
        h@.len() % 2 == 0,
    ensures
        match r {
            Ok(bytes) => spec_hex_decoding(bytes@, h@),
            Err(e) => e.position < h@.len() && e.character == h@[e.position as int] && spec_nibble(
                h@[e.position as int],
            ) is None && (forall|p: int|
                0 <= p < e.position ==> spec_nibble(#[trigger] h@[p]) is Some),
        },
{
    let len = h.len();
    let n = len / 2;
    let mut out: Vec<u8> = Vec::new();
    let mut i: usize = 0;
    while i < n
        invariant
            i <= n,
            len == h@.len(),
            n == len / 2,
            len % 2 == 0,
            out@.len() == i,
            forall|p: int| 0 <= p < 2 * i ==> spec_nibble(#[trigger] h@[p]) is Some,
            forall|k: int|
                0 <= k < i ==> #[trigger] out@[k] == spec_nibble(h@[2 * k]).unwrap() * 16
                    + spec_nibble(h@[2 * k + 1]).unwrap(),
        decreases n - i,
    {
        let hi = match nibble_exec(h[2 * i]) {
            Some(v) => v,
            None => {
                return Err(HexError { character: h[2 * i], position: 2 * i });
            },
        };
        let lo = match nibble_exec(h[2 * i + 1]) {
            Some(v) => v,
            None => {
                return Err(HexError { character: h[2 * i + 1], position: 2 * i + 1 });
            },
        };
        out.push(hi * 16 + lo);
        i = i + 1;
    }
    proof {
        assert(2 * n == len);
    }
    Ok(out)
}

/// Hex round trip: decoding the hex text of a byte sequence gives back
/// the very bytes, whichever case the text was written in.
pub proof fn lemma_hex_round_trip(h: Seq<u8>, bytes: Seq<u8>, upper: bool, decoded: Seq<u8>)
    requires
        spec_hex_encoding(h, bytes, upper),
        spec_hex_decoding(decoded, h),
    ensures
        decoded == bytes,
{
    assert forall|i: int| 0 <= i < bytes.len() implies decoded[i] == bytes[i] by {
        let b = bytes[i];
        assert((b >> 4u8) < 16 && (b & 15u8) < 16) by (bit_vector);
        assert(((b >> 4u8) as int) * 16 + ((b & 15u8) as int) == b as int) by (bit_vector);
        assert(spec_nibble(spec_hex_digit(b >> 4u8, upper)) == Some(b >> 4u8));
        assert(spec_nibble(spec_hex_digit(b & 15u8, upper)) == Some(b & 15u8));
    }
    assert(decoded =~= bytes);
}

/// Encodes a whole record and renders the buffer as hex text.
pub fn record_to_hex(
    fields: &Vec<FieldSchema>,
    config: &StructConfig,
    layout: &Layout,
    values: &Vec<FieldValue>,
    upper: bool,
) -> (r: Vec<u8>)
    requires
        spec_schema_valid(fields@, *config),
        spec_layout_matches(fields@, *layout),
        2 * (spec_total_bits(fields@) + 7) <= usize::MAX as int,
        values@.len() == fields@.len(),
        forall|i: int|
            0 <= i < fields@.len() && !(#[trigger] fields@[i]).reserved
                ==> crate::record::spec_value_fits(values@[i], fields@[i]),
    ensures
        exists|buf: Seq<u8>|
            #[trigger] spec_record_encoded(buf, fields@, *config, values@) && spec_hex_encoding(
                r@,
                buf,
                upper,
            ),
{
    let buf = encode_record(fields, config, layout, values);
    let ghost bufg = buf@;
    let h = to_hex(&buf, upper);
    proof {
        assert(spec_record_encoded(bufg, fields@, *config, values@) && spec_hex_encoding(
            h@,
            bufg,
            upper,
        ));
    }
    h
}

/// Decodes hex text of the record's exact length and defers to the
/// whole-record decode; a non-digit fails with its character and
/// position, exactly as `from_hex` reports it.
pub fn record_from_hex(
    fields: &Vec<FieldSchema>,
    config: &StructConfig,
    layout: &Layout,
    h: &Vec<u8>,
) -> (r: Result<Vec<FieldValue>, HexError>)
    requires
        spec_schema_valid(fields@, *config),
        spec_layout_matches(fields@, *layout),
        spec_total_bits(fields@) + 7 <= usize::MAX as int,
        h@.len() as int == 2 * ((spec_total_bits(fields@) + 7) / 8),
    ensures
        match r {
            Ok(values) => exists|buf: Seq<u8>|
                #[trigger] spec_hex_decoding(buf, h@) && spec_record_decoded(
                    values@,
                    buf,
                    fields@,
                    *config,
                ),
            Err(e) => e.position < h@.len() && e.character == h@[e.position as int] && spec_nibble(
                h@[e.position as int],
            ) is None && (forall|p: int|
                0 <= p < e.position ==> spec_nibble(#[trigger] h@[p]) is Some),
        },
{
    match from_hex(h) {
        Ok(bytes) => {
            let ghost bytesg = bytes@;
            let values = decode_record(fields, config, layout, &bytes);
            proof {
                assert(spec_hex_decoding(bytesg, h@) && spec_record_decoded(
                    values@,
                    bytesg,
                    fields@,
                    *config,
                ));
            }
            Ok(values)
        },
        Err(e) => Err(e),
    }
}

} // verus!
