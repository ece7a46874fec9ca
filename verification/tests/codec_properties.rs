use bitfields::enums::{assign_values, decode_variant, encode_variant, validate_enum, EnumValue};
use bitfields::hex::{from_hex, record_from_hex, record_to_hex, to_hex, HexError};
use bitfields::layout::resolve;
use bitfields::record::{
    decode_record, encode_record, read_field_bounded, write_field_bounded, BoundsError, FieldValue,
};
use bitfields::schema::{
    BitOrder, CatchMode, Endianness, EnumSchema, FieldKind, FieldSchema, StructConfig, VariantSchema,
};

fn unsigned(name: &str, native_bits: usize, bit_length: usize) -> FieldSchema {
    FieldSchema {
        name: String::from(name),
        kind: FieldKind::Unsigned { native_bits },
        bit_length,
        endianness: None,
        explicit_bit_range: None,
        reserved: false,
    }
}

fn signed(name: &str, native_bits: usize, bit_length: usize) -> FieldSchema {
    FieldSchema {
        name: String::from(name),
        kind: FieldKind::Signed { native_bits },
        bit_length,
        endianness: None,
        explicit_bit_range: None,
        reserved: false,
    }
}

fn config(e: Endianness) -> StructConfig {
    StructConfig {
        default_endianness: e,
        bit_order: BitOrder::Msb0,
        reverse: false,
        enforce_bytes: None,
        enforce_bits: None,
        enforce_full_bytes: false,
    }
}

fn variant(name: &str, literal: Option<u64>, catch: CatchMode) -> VariantSchema {
    VariantSchema { name: String::from(name), literal, catch }
}

#[test]
fn signed_minimum_round_trips() {
    let fields = vec![signed("a", 16, 14), signed("b", 8, 4), signed("c", 64, 64)];
    let cfg = config(Endianness::Big);
    let layout = resolve(&fields, &cfg).unwrap();
    let values = vec![
        FieldValue::Signed(-8192),
        FieldValue::Signed(-8),
        FieldValue::Signed(i64::MIN),
    ];
    let bytes = encode_record(&fields, &cfg, &layout, &values);
    let decoded = decode_record(&fields, &cfg, &layout, &bytes);
    assert_eq!(values, decoded);
}

#[test]
fn signed_values_round_trip_across_widths() {
    let fields = vec![signed("a", 32, 11)];
    let cfg = config(Endianness::Little);
    let layout = resolve(&fields, &cfg).unwrap();
    for v in [-1024i64, -1023, -513, -1, 0, 1, 511, 1023] {
        let values = vec![FieldValue::Signed(v)];
        let bytes = encode_record(&fields, &cfg, &layout, &values);
        let decoded = decode_record(&fields, &cfg, &layout, &bytes);
        assert_eq!(values, decoded);
    }
}

#[test]
fn bounded_access_enforces_minimum_length() {
    let fields = vec![
        unsigned("one", 8, 3),
        unsigned("two", 32, 27),
        unsigned("three", 16, 14),
        unsigned("four", 8, 8),
    ];
    let cfg = config(Endianness::Big);
    let layout = resolve(&fields, &cfg).unwrap();
    let values = vec![
        FieldValue::Unsigned(2),
        FieldValue::Unsigned(6345),
        FieldValue::Unsigned(2145),
        FieldValue::Unsigned(66),
    ];
    let bytes = encode_record(&fields, &cfg, &layout, &values);
    // field `two` spans bits 3..30: its last byte is the fourth
    let mut short: Vec<u8> = bytes[..3].to_vec();
    let err = read_field_bounded(&fields, &cfg, &layout, 1, &short).unwrap_err();
    assert_eq!(err, BoundsError { field: 1, required: 4 });
    let exact: Vec<u8> = bytes[..4].to_vec();
    assert_eq!(
        FieldValue::Unsigned(6345),
        read_field_bounded(&fields, &cfg, &layout, 1, &exact).unwrap()
    );
    // writing through a short buffer fails the same way and changes nothing
    let before = short.clone();
    let werr = write_field_bounded(&fields, &cfg, &layout, 1, &mut short, &FieldValue::Unsigned(9))
        .unwrap_err();
    assert_eq!(werr, BoundsError { field: 1, required: 4 });
    assert_eq!(short, before);
    let mut exact2 = exact.clone();
    write_field_bounded(&fields, &cfg, &layout, 1, &mut exact2, &FieldValue::Unsigned(9)).unwrap();
    assert_eq!(
        FieldValue::Unsigned(9),
        read_field_bounded(&fields, &cfg, &layout, 1, &exact2).unwrap()
    );
}

#[test]
fn hex_codec_round_trips_and_reports_position() {
    let fields = vec![unsigned("one", 8, 3), unsigned("two", 32, 27), unsigned("three", 16, 14)];
    let cfg = config(Endianness::Big);
    let layout = resolve(&fields, &cfg).unwrap();
    let values = vec![
        FieldValue::Unsigned(5),
        FieldValue::Unsigned(99999),
        FieldValue::Unsigned(12345),
    ];
    let lower = record_to_hex(&fields, &cfg, &layout, &values, false);
    let upper = record_to_hex(&fields, &cfg, &layout, &values, true);
    assert_eq!(lower.len(), 2 * layout.total_bytes);
    for c in &lower {
        assert!(c.is_ascii_hexdigit());
    }
    assert_eq!(lower.to_ascii_uppercase(), upper);
    // hex decode agrees byte for byte with the direct binary decode
    let bytes = encode_record(&fields, &cfg, &layout, &values);
    assert_eq!(from_hex(&lower).unwrap(), bytes);
    assert_eq!(from_hex(&upper).unwrap(), bytes);
    let via_hex = record_from_hex(&fields, &cfg, &layout, &lower).unwrap();
    assert_eq!(via_hex, decode_record(&fields, &cfg, &layout, &bytes));
    // a non-digit fails, naming the character and its position
    let bad = vec![b'0', b'a', b'1', b'g', b'2', b'b'];
    let err = from_hex(&bad).unwrap_err();
    assert_eq!(err, HexError { character: b'g', position: 3 });
    // byte-level encoding uses two digits per byte, high nibble first
    let h = to_hex(&vec![0xAB, 0x09], false);
    assert_eq!(h, vec![b'a', b'b', b'0', b'9']);
}

#[test]
fn enum_values_assign_in_declaration_order() {
    // literals are reserved; the rest fill from the lowest unused upward
    let vars = vec![
        variant("zero", None, CatchMode::Normal),
        variant("one", None, CatchMode::Normal),
        variant("six", Some(6), CatchMode::Normal),
        variant("two", None, CatchMode::Normal),
    ];
    assert!(validate_enum(&vars, 3));
    let assigned = assign_values(&vars);
    assert_eq!(assigned, vec![0, 1, 6, 2]);
    // an auto value skips values claimed by literals, even later ones
    let vars2 = vec![
        variant("first", Some(1), CatchMode::Normal),
        variant("a", None, CatchMode::Normal),
        variant("b", None, CatchMode::Normal),
    ];
    let assigned2 = assign_values(&vars2);
    assert_eq!(assigned2, vec![1, 0, 2]);
}

#[test]
fn enum_catch_all_absorbs_unmatched_values() {
    let vars = vec![
        variant("zero", None, CatchMode::Normal),
        variant("one", None, CatchMode::Normal),
        variant("six", Some(6), CatchMode::Normal),
        variant("two", None, CatchMode::Normal),
    ];
    // no variant is marked, so the last declared one catches by default
    assert_eq!(decode_variant(&vars, 3, 6), EnumValue { variant: 2, raw: None });
    assert_eq!(decode_variant(&vars, 3, 2), EnumValue { variant: 3, raw: None });
    assert_eq!(decode_variant(&vars, 3, 5), EnumValue { variant: 3, raw: None });
    assert_eq!(encode_variant(&vars, 3, &EnumValue { variant: 3, raw: None }), 2);
    // two catching variants are rejected
    let bad = vec![
        variant("a", None, CatchMode::CatchAll),
        variant("b", None, CatchMode::CatchValue),
    ];
    assert!(!validate_enum(&bad, 3));
    // so are duplicate literals
    let dup = vec![
        variant("a", Some(1), CatchMode::Normal),
        variant("b", Some(1), CatchMode::Normal),
    ];
    assert!(!validate_enum(&dup, 3));
}

#[test]
fn enum_catch_value_keeps_the_raw_value() {
    let vars = vec![
        variant("zero", None, CatchMode::Normal),
        variant("invalid", None, CatchMode::CatchValue),
    ];
    assert!(validate_enum(&vars, 4));
    assert_eq!(decode_variant(&vars, 4, 0), EnumValue { variant: 0, raw: None });
    assert_eq!(decode_variant(&vars, 4, 9), EnumValue { variant: 1, raw: Some(9) });
    assert_eq!(encode_variant(&vars, 4, &EnumValue { variant: 1, raw: Some(9) }), 9);
}

#[test]
fn enum_fields_round_trip_inside_records() {
    let mapping = EnumSchema {
        variants: vec![
            variant("zero", None, CatchMode::Normal),
            variant("one", None, CatchMode::Normal),
            variant("six", Some(6), CatchMode::Normal),
            variant("two", None, CatchMode::Normal),
        ],
    };
    let fields = vec![
        unsigned("head", 8, 3),
        FieldSchema {
            name: String::from("kind"),
            kind: FieldKind::Enum { primitive_bits: 8, mapping },
            bit_length: 3,
            endianness: None,
            explicit_bit_range: None,
            reserved: false,
        },
        unsigned("tail", 8, 2),
    ];
    let cfg = config(Endianness::Little);
    let layout = resolve(&fields, &cfg).unwrap();
    assert_eq!(layout.total_bytes, 1);
    let values = vec![
        FieldValue::Unsigned(5),
        FieldValue::Enum(EnumValue { variant: 2, raw: None }),
        FieldValue::Unsigned(1),
    ];
    let bytes = encode_record(&fields, &cfg, &layout, &values);
    // head=101, kind=six=110, tail=01
    assert_eq!(bytes[0], 0b101_110_01);
    let decoded = decode_record(&fields, &cfg, &layout, &bytes);
    assert_eq!(values, decoded);
}

#[test]
fn nested_windows_round_trip() {
    let fields = vec![
        unsigned("head", 8, 3),
        FieldSchema {
            name: String::from("inner"),
            kind: FieldKind::Nested { total_bits: 12 },
            bit_length: 0,
            endianness: None,
            explicit_bit_range: None,
            reserved: false,
        },
        unsigned("tail", 8, 5),
    ];
    let cfg = config(Endianness::Big);
    let layout = resolve(&fields, &cfg).unwrap();
    assert_eq!(layout.total_bits, 20);
    // the window carries 12 bits packed most-significant-bit first
    let values = vec![
        FieldValue::Unsigned(0),
        FieldValue::Bytes(vec![0b10110100, 0b1011_0000]),
        FieldValue::Unsigned(0),
    ];
    let bytes = encode_record(&fields, &cfg, &layout, &values);
    assert_eq!(bytes, vec![0b000_10110, 0b100_1011_0, 0b0000_0000]);
    let decoded = decode_record(&fields, &cfg, &layout, &bytes);
    assert_eq!(values, decoded);
}

#[test]
fn unsigned_round_trip_sweep() {
    // every value of a 5-bit field, under each endianness and bit order
    for order in [BitOrder::Msb0, BitOrder::Lsb0] {
        for e in [Endianness::Big, Endianness::Little] {
            for reverse in [false, true] {
                let fields = vec![unsigned("pad", 8, 3), unsigned("v", 8, 5), unsigned("t", 16, 9)];
                let cfg = StructConfig {
                    default_endianness: e,
                    bit_order: order,
                    reverse,
                    enforce_bytes: None,
                    enforce_bits: None,
                    enforce_full_bytes: false,
                };
                let layout = resolve(&fields, &cfg).unwrap();
                for v in 0u64..32 {
                    let values = vec![
                        FieldValue::Unsigned(5),
                        FieldValue::Unsigned(v),
                        FieldValue::Unsigned(257),
                    ];
                    let bytes = encode_record(&fields, &cfg, &layout, &values);
                    let decoded = decode_record(&fields, &cfg, &layout, &bytes);
                    assert_eq!(values, decoded);
                }
            }
        }
    }
}

#[test]
fn per_field_endianness_override() {
    let mut le_field = unsigned("two", 16, 16);
    le_field.endianness = Some(Endianness::Little);
    let fields = vec![unsigned("one", 16, 16), le_field];
    let cfg = config(Endianness::Big);
    let layout = resolve(&fields, &cfg).unwrap();
    let values = vec![FieldValue::Unsigned(0xABCD), FieldValue::Unsigned(0xABCD)];
    let bytes = encode_record(&fields, &cfg, &layout, &values);
    // the record default lays big-endian; the override flips the second field
    assert_eq!(bytes, vec![0xAB, 0xCD, 0xCD, 0xAB]);
    let decoded = decode_record(&fields, &cfg, &layout, &bytes);
    assert_eq!(values, decoded);
}
