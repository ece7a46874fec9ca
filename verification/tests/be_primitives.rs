use bitfields::layout::{resolve, Layout};
use bitfields::record::{
    decode_record, encode_record, read_field_at, read_field_bounded, write_field_bounded,
    FieldValue,
};
use bitfields::schema::{BitOrder, Endianness, FieldKind, FieldSchema, StructConfig};

fn unsigned(name: &str, native_bits: usize, bit_length: usize) -> FieldSchema {
    FieldSchema {
        name: String::from(name),
        kind: FieldKind::Unsigned { native_bits },
        bit_length,
        endianness: None,
        explicit_bit_range: None,
        reserved: false,
    }
}

fn signed(name: &str, native_bits: usize, bit_length: usize) -> FieldSchema {
    FieldSchema {
        name: String::from(name),
        kind: FieldKind::Signed { native_bits },
        bit_length,
        endianness: None,
        explicit_bit_range: None,
        reserved: false,
    }
}

fn boolean(name: &str) -> FieldSchema {
    FieldSchema {
        name: String::from(name),
        kind: FieldKind::Boolean,
        bit_length: 1,
        endianness: None,
        explicit_bit_range: None,
        reserved: false,
    }
}

fn config(order: BitOrder, reverse: bool) -> StructConfig {
    StructConfig {
        default_endianness: Endianness::Big,
        bit_order: order,
        reverse,
        enforce_bytes: None,
        enforce_bits: None,
        enforce_full_bytes: false,
    }
}

fn simple_schema() -> Vec<FieldSchema> {
    vec![
        unsigned("one", 8, 3),
        unsigned("two", 32, 27),
        unsigned("three", 16, 14),
        unsigned("four", 8, 8),
    ]
}

#[test]
fn be_into_bytes_simple() {
    let fields = simple_schema();
    let cfg = config(BitOrder::Msb0, false);
    let layout: Layout = resolve(&fields, &cfg).unwrap();
    let values = vec![
        FieldValue::Unsigned(2),
        FieldValue::Unsigned(6345),
        FieldValue::Unsigned(2145),
        FieldValue::Unsigned(66),
    ];
    assert_eq!(layout.total_bytes, 7);
    let bytes = encode_record(&fields, &cfg, &layout, &values);
    assert_eq!(bytes.len(), 7);
    assert_eq!(bytes[0], 0b010_00000);
    assert_eq!(bytes[1], 0b00000000);
    assert_eq!(bytes[2], 0b01100011);
    assert_eq!(bytes[3], 0b001001_00);
    assert_eq!(bytes[4], 0b10000110);
    assert_eq!(bytes[5], 0b0001_0100);
    // this last 4 bits here don't exist in the struct
    assert_eq!(bytes[6], 0b0010_0000);
    // bounded reads of each field out of the buffer
    assert_eq!(
        values[0],
        read_field_bounded(&fields, &cfg, &layout, 0, &bytes).unwrap()
    );
    assert_eq!(
        values[1],
        read_field_bounded(&fields, &cfg, &layout, 1, &bytes).unwrap()
    );
    assert_eq!(
        values[2],
        read_field_bounded(&fields, &cfg, &layout, 2, &bytes).unwrap()
    );
    assert_eq!(
        values[3],
        read_field_bounded(&fields, &cfg, &layout, 3, &bytes).unwrap()
    );

    let new_values = decode_record(&fields, &cfg, &layout, &bytes);
    assert_eq!(values, new_values);
}

fn flip_schema() -> Vec<FieldSchema> {
    vec![boolean("one"), unsigned("two", 16, 10), unsigned("three", 8, 5)]
}

#[test]
fn be_into_bytes_simple_with_reverse() {
    let fields = flip_schema();
    let cfg = config(BitOrder::Msb0, true);
    let layout = resolve(&fields, &cfg).unwrap();
    let values = vec![
        FieldValue::Boolean(false),
        FieldValue::Unsigned((u16::MAX & 0b0000001111111111) as u64),
        FieldValue::Unsigned(0),
    ];
    assert_eq!(layout.total_bytes, 2);
    let bytes = encode_record(&fields, &cfg, &layout, &values);
    assert_eq!(bytes.len(), 2);

    assert_eq!(bytes[1], 0b01111111);
    assert_eq!(bytes[0], 0b11100000);
    assert_eq!(
        values[0],
        read_field_bounded(&fields, &cfg, &layout, 0, &bytes).unwrap()
    );
    assert_eq!(
        values[1],
        read_field_bounded(&fields, &cfg, &layout, 1, &bytes).unwrap()
    );
    assert_eq!(
        values[2],
        read_field_bounded(&fields, &cfg, &layout, 2, &bytes).unwrap()
    );

    let new_values = decode_record(&fields, &cfg, &layout, &bytes);
    assert_eq!(values, new_values);
}

#[test]
fn be_into_bytes_simple_with_read_from_back() {
    let fields = flip_schema();
    let cfg = config(BitOrder::Lsb0, false);
    let layout = resolve(&fields, &cfg).unwrap();
    let values = vec![
        FieldValue::Boolean(false),
        FieldValue::Unsigned((u16::MAX & 0b0000001111111111) as u64),
        FieldValue::Unsigned(0),
    ];
    assert_eq!(layout.total_bytes, 2);
    let bytes = encode_record(&fields, &cfg, &layout, &values);
    assert_eq!(bytes.len(), 2);

    assert_eq!(bytes[0], 0b00000111);
    assert_eq!(bytes[1], 0b11111110);
    assert_eq!(
        values[0],
        read_field_bounded(&fields, &cfg, &layout, 0, &bytes).unwrap()
    );
    assert_eq!(
        values[1],
        read_field_bounded(&fields, &cfg, &layout, 1, &bytes).unwrap()
    );
    assert_eq!(
        values[2],
        read_field_bounded(&fields, &cfg, &layout, 2, &bytes).unwrap()
    );

    let new_values = decode_record(&fields, &cfg, &layout, &bytes);
    assert_eq!(values, new_values);
}

#[test]
fn be_into_bytes_simple_with_reserve_field() {
    let mut reserve = unsigned("reserve", 8, 3);
    reserve.reserved = true;
    let fields = vec![unsigned("one", 16, 9), reserve, signed("two", 8, 4)];
    let cfg = config(BitOrder::Msb0, false);
    let layout = resolve(&fields, &cfg).unwrap();
    let mut values = vec![
        FieldValue::Unsigned(341),
        FieldValue::Unsigned(u8::MAX as u64),
        FieldValue::Signed(-1),
    ];
    assert_eq!(layout.total_bytes, 2);
    let mut bytes = encode_record(&fields, &cfg, &layout, &values);
    assert_eq!(bytes.len(), 2);

    assert_eq!(bytes[0], 0b10101010);
    assert_eq!(bytes[1], 0b10001111);
    assert_eq!(
        values[0],
        read_field_bounded(&fields, &cfg, &layout, 0, &bytes).unwrap()
    );
    assert_eq!(
        FieldValue::Unsigned(0),
        read_field_bounded(&fields, &cfg, &layout, 1, &bytes).unwrap()
    );
    assert_eq!(
        values[2],
        read_field_bounded(&fields, &cfg, &layout, 2, &bytes).unwrap()
    );
    // direct accessors can still write a reserved field's bits
    write_field_bounded(&fields, &cfg, &layout, 0, &mut bytes, &FieldValue::Unsigned(0)).unwrap();
    write_field_bounded(&fields, &cfg, &layout, 1, &mut bytes, &FieldValue::Unsigned(7)).unwrap();
    write_field_bounded(&fields, &cfg, &layout, 2, &mut bytes, &FieldValue::Signed(0)).unwrap();
    values[0] = FieldValue::Unsigned(0);
    values[2] = FieldValue::Signed(0);
    assert_eq!(FieldValue::Unsigned(7), read_field_at(&fields, &cfg, &layout, 1, &bytes));
    assert!(read_field_at(&fields, &cfg, &layout, 1, &bytes) != values[1]);
    values[1] = FieldValue::Unsigned(0);
    // whole-record decode never surfaces the reserved bits
    let new_values = decode_record(&fields, &cfg, &layout, &bytes);
    assert_eq!(values, new_values);
}
