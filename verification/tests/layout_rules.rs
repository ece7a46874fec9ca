use bitfields::layout::{resolve, SchemaError};
use bitfields::schema::{BitOrder, Endianness, FieldKind, FieldSchema, StructConfig};

fn unsigned(name: &str, native_bits: usize, bit_length: usize) -> FieldSchema {
    FieldSchema {
        name: String::from(name),
        kind: FieldKind::Unsigned { native_bits },
        bit_length,
        endianness: None,
        explicit_bit_range: None,
        reserved: false,
    }
}

fn config() -> StructConfig {
    StructConfig {
        default_endianness: Endianness::Big,
        bit_order: BitOrder::Msb0,
        reverse: false,
        enforce_bytes: None,
        enforce_bits: None,
        enforce_full_bytes: false,
    }
}

#[test]
fn sequential_placement_and_totals() {
    let fields = vec![unsigned("a", 8, 3), unsigned("b", 32, 27), unsigned("c", 16, 14)];
    let layout = resolve(&fields, &config()).unwrap();
    assert_eq!(layout.total_bits, 44);
    assert_eq!(layout.total_bytes, 6);
    assert_eq!(layout.ranges[0].start_bit, 0);
    assert_eq!(layout.ranges[0].end_bit, 3);
    assert_eq!(layout.ranges[1].start_bit, 3);
    assert_eq!(layout.ranges[1].end_bit, 30);
    assert_eq!(layout.ranges[2].start_bit, 30);
    assert_eq!(layout.ranges[2].end_bit, 44);
    // resolved ranges are pairwise disjoint
    for i in 0..layout.ranges.len() {
        for j in (i + 1)..layout.ranges.len() {
            let a = &layout.ranges[i];
            let b = &layout.ranges[j];
            assert!(a.end_bit <= b.start_bit || b.end_bit <= a.start_bit);
        }
    }
}

#[test]
fn explicit_range_skips_cursor() {
    let mut pinned = unsigned("pinned", 16, 9);
    pinned.explicit_bit_range = Some((16, 25));
    let fields = vec![unsigned("a", 8, 4), pinned, unsigned("b", 8, 4)];
    let layout = resolve(&fields, &config()).unwrap();
    // the cursor walks a then b; the pinned field sits where it asked to
    assert_eq!(layout.ranges[0].start_bit, 0);
    assert_eq!(layout.ranges[0].end_bit, 4);
    assert_eq!(layout.ranges[1].start_bit, 16);
    assert_eq!(layout.ranges[1].end_bit, 25);
    assert_eq!(layout.ranges[2].start_bit, 4);
    assert_eq!(layout.ranges[2].end_bit, 8);
    assert_eq!(layout.total_bits, 25);
    assert_eq!(layout.total_bytes, 4);
}

#[test]
fn overlap_is_reported_with_both_fields() {
    let mut pinned = unsigned("pinned", 8, 6);
    pinned.explicit_bit_range = Some((2, 8));
    let fields = vec![unsigned("a", 8, 4), pinned];
    let errs = resolve(&fields, &config()).unwrap_err();
    assert!(errs.contains(&SchemaError::Overlap { first: 0, second: 1 }));
}

#[test]
fn size_constraints_are_checked() {
    let fields = vec![unsigned("a", 8, 7)];
    let mut cfg = config();
    cfg.enforce_bits = Some(8);
    let errs = resolve(&fields, &cfg).unwrap_err();
    assert!(errs.contains(&SchemaError::SizeMismatchBits { expected: 8, actual: 7 }));

    let mut cfg2 = config();
    cfg2.enforce_full_bytes = true;
    let errs2 = resolve(&fields, &cfg2).unwrap_err();
    assert!(errs2.contains(&SchemaError::NotFullBytes { actual_bits: 7 }));

    let mut cfg3 = config();
    cfg3.enforce_bytes = Some(2);
    let errs3 = resolve(&fields, &cfg3).unwrap_err();
    assert!(errs3.contains(&SchemaError::SizeMismatchBytes { expected: 2, actual: 1 }));

    let mut cfg4 = config();
    cfg4.enforce_bits = Some(7);
    cfg4.enforce_bytes = Some(1);
    assert!(resolve(&fields, &cfg4).is_ok());
}

#[test]
fn per_field_rules_are_checked() {
    let fields = vec![unsigned("zero", 8, 0), unsigned("wide", 8, 9)];
    let errs = resolve(&fields, &config()).unwrap_err();
    assert!(errs.contains(&SchemaError::ZeroWidth { field: 0 }));
    assert!(errs.contains(&SchemaError::WidthExceedsNative { field: 1 }));

    let mut bad_range = unsigned("bad", 8, 4);
    bad_range.explicit_bit_range = Some((0, 5));
    let errs2 = resolve(&vec![bad_range], &config()).unwrap_err();
    assert!(errs2.contains(&SchemaError::BadExplicitRange { field: 0 }));
}

#[test]
fn array_widths_accumulate() {
    let element = FieldSchema {
        name: String::from("elems"),
        kind: FieldKind::ArrayElement { element_bits: 5, count: 3 },
        bit_length: 0,
        endianness: None,
        explicit_bit_range: None,
        reserved: false,
    };
    let block = FieldSchema {
        name: String::from("block"),
        kind: FieldKind::ArrayBlock { block_bits: 11 },
        bit_length: 0,
        endianness: None,
        explicit_bit_range: None,
        reserved: false,
    };
    let nested = FieldSchema {
        name: String::from("inner"),
        kind: FieldKind::Nested { total_bits: 12 },
        bit_length: 0,
        endianness: None,
        explicit_bit_range: None,
        reserved: false,
    };
    let layout = resolve(&vec![element, block, nested], &config()).unwrap();
    assert_eq!(layout.ranges[0].end_bit, 15);
    assert_eq!(layout.ranges[1].end_bit, 26);
    assert_eq!(layout.ranges[2].end_bit, 38);
    assert_eq!(layout.total_bits, 38);
    assert_eq!(layout.total_bytes, 5);
}
