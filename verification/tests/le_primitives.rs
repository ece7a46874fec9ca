use bitfields::layout::resolve;
use bitfields::record::{decode_record, encode_record, read_field_bounded, FieldValue};
use bitfields::schema::{BitOrder, Endianness, FieldKind, FieldSchema, StructConfig};

fn unsigned(name: &str, native_bits: usize, bit_length: usize) -> FieldSchema {
    FieldSchema {
        name: String::from(name),
        kind: FieldKind::Unsigned { native_bits },
        bit_length,
        endianness: None,
        explicit_bit_range: None,
        reserved: false,
    }
}

fn float(name: &str, native_bits: usize, bit_length: usize) -> FieldSchema {
    FieldSchema {
        name: String::from(name),
        kind: FieldKind::Float { native_bits },
        bit_length,
        endianness: None,
        explicit_bit_range: None,
        reserved: false,
    }
}

fn boolean(name: &str) -> FieldSchema {
    FieldSchema {
        name: String::from(name),
        kind: FieldKind::Boolean,
        bit_length: 1,
        endianness: None,
        explicit_bit_range: None,
        reserved: false,
    }
}

fn config(order: BitOrder, reverse: bool) -> StructConfig {
    StructConfig {
        default_endianness: Endianness::Little,
        bit_order: order,
        reverse,
        enforce_bytes: None,
        enforce_bits: None,
        enforce_full_bytes: false,
    }
}

#[test]
fn le_into_bytes_simple() {
    let fields = vec![
        unsigned("one", 8, 3),
        unsigned("two", 32, 27),
        unsigned("three", 16, 14),
        unsigned("four", 8, 8),
    ];
    let cfg = config(BitOrder::Msb0, false);
    let layout = resolve(&fields, &cfg).unwrap();
    let values = vec![
        FieldValue::Unsigned(2),
        FieldValue::Unsigned(6345),
        FieldValue::Unsigned(2145),
        FieldValue::Unsigned(66),
    ];
    assert_eq!(layout.total_bytes, 7);
    let bytes = encode_record(&fields, &cfg, &layout, &values);
    assert_eq!(bytes.len(), 7);
    assert_eq!(bytes[0], 0b010_11001);
    assert_eq!(bytes[1], 0b00100011);
    assert_eq!(bytes[2], 0b00000000);
    assert_eq!(bytes[3], 0b000000_01);
    assert_eq!(bytes[4], 0b10000100);
    assert_eq!(bytes[5], 0b1000_0100);
    // this last 4 bits here don't exist in the struct
    assert_eq!(bytes[6], 0b0010_0000);
    assert_eq!(
        values[0],
        read_field_bounded(&fields, &cfg, &layout, 0, &bytes).unwrap()
    );
    assert_eq!(
        values[1],
        read_field_bounded(&fields, &cfg, &layout, 1, &bytes).unwrap()
    );
    assert_eq!(
        values[2],
        read_field_bounded(&fields, &cfg, &layout, 2, &bytes).unwrap()
    );
    assert_eq!(
        values[3],
        read_field_bounded(&fields, &cfg, &layout, 3, &bytes).unwrap()
    );

    let new_values = decode_record(&fields, &cfg, &layout, &bytes);
    assert_eq!(values, new_values);
}

fn flip_schema() -> Vec<FieldSchema> {
    vec![boolean("one"), unsigned("two", 16, 10), unsigned("three", 8, 5)]
}

#[test]
fn le_into_bytes_simple_with_reverse() {
    let fields = flip_schema();
    let cfg = config(BitOrder::Msb0, true);
    let layout = resolve(&fields, &cfg).unwrap();
    let values = vec![
        FieldValue::Boolean(false),
        FieldValue::Unsigned((u16::MAX & 0b0000001111111111) as u64),
        FieldValue::Unsigned(0),
    ];
    assert_eq!(layout.total_bytes, 2);
    let bytes = encode_record(&fields, &cfg, &layout, &values);
    assert_eq!(bytes.len(), 2);

    assert_eq!(bytes[1], 0b01111111);
    assert_eq!(bytes[0], 0b11100000);
    assert_eq!(
        values[0],
        read_field_bounded(&fields, &cfg, &layout, 0, &bytes).unwrap()
    );
    assert_eq!(
        values[1],
        read_field_bounded(&fields, &cfg, &layout, 1, &bytes).unwrap()
    );
    assert_eq!(
        values[2],
        read_field_bounded(&fields, &cfg, &layout, 2, &bytes).unwrap()
    );

    let new_values = decode_record(&fields, &cfg, &layout, &bytes);
    assert_eq!(values, new_values);
}

#[test]
fn le_into_bytes_simple_with_read_from_back() {
    let fields = flip_schema();
    let cfg = config(BitOrder::Lsb0, false);
    let layout = resolve(&fields, &cfg).unwrap();
    let values = vec![
        FieldValue::Boolean(false),
        FieldValue::Unsigned((u16::MAX & 0b0000001111111111) as u64),
        FieldValue::Unsigned(0),
    ];
    assert_eq!(layout.total_bytes, 2);
    let bytes = encode_record(&fields, &cfg, &layout, &values);
    assert_eq!(bytes.len(), 2);

    assert_eq!(bytes[0], 0b00000111);
    assert_eq!(bytes[1], 0b11111110);
    assert_eq!(
        values[0],
        read_field_bounded(&fields, &cfg, &layout, 0, &bytes).unwrap()
    );
    assert_eq!(
        values[1],
        read_field_bounded(&fields, &cfg, &layout, 1, &bytes).unwrap()
    );
    assert_eq!(
        values[2],
        read_field_bounded(&fields, &cfg, &layout, 2, &bytes).unwrap()
    );

    let new_values = decode_record(&fields, &cfg, &layout, &bytes);
    assert_eq!(values, new_values);
}

#[test]
fn le_into_bytes_simple_floating_point() {
    let fields = vec![float("one", 32, 27), float("two", 64, 60), float("three", 32, 19)];
    let cfg = config(BitOrder::Msb0, false);
    let layout = resolve(&fields, &cfg).unwrap();
    let one = f32::from_bits(0x00000000_u32);
    let two = f64::from_bits(0x09A1D45EE54D1A90_u64);
    let three = f32::from_bits(0x0001D45E_u32);
    let values = vec![
        FieldValue::Float(one.to_bits() as u64),
        FieldValue::Float(two.to_bits()),
        FieldValue::Float(three.to_bits() as u64),
    ];
    let bytes = encode_record(&fields, &cfg, &layout, &values);
    for byte in &bytes {
        println!("{:08b}", byte);
    }
    assert_eq!(
        values[0],
        read_field_bounded(&fields, &cfg, &layout, 0, &bytes).unwrap()
    );

    let new_values = decode_record(&fields, &cfg, &layout, &bytes);
    assert_eq!(values, new_values);
    // the raw patterns reinterpret to the exact floats that went in
    match &new_values[1] {
        FieldValue::Float(bits) => assert_eq!(f64::from_bits(*bits), two),
        _ => panic!("wrong kind"),
    }
}
