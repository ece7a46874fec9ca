//! Schema types: the description of a record that the layout resolver and the
//! codec consume.

use vstd::prelude::*;

verus! {

/// Byte order used when a multi-byte field is laid into the buffer.
#[derive(Clone, Copy, PartialEq, Eq, Structural, Debug)]
pub enum Endianness {
    Little,
    Big,
}

/// Which physical end of the buffer logical bit 0 refers to: under `Msb0` it
/// is the most significant bit of the first byte, under `Lsb0` the least
/// significant bit of the last byte.
#[derive(Clone, Copy, PartialEq, Eq, Structural, Debug)]
pub enum BitOrder {
    Msb0,
    Lsb0,
}

/// Record-level settings.
#[derive(Clone, Copy, Debug)]
pub struct StructConfig {
    /// Endianness for fields that do not override it.
    pub default_endianness: Endianness,
    /// Bit-addressing convention for the whole buffer.
    pub bit_order: BitOrder,
    /// When set, the byte array is physically reversed relative to the
    /// bit-order interpretation.
    pub reverse: bool,
    /// When present, the resolved total byte count must equal this value.
    pub enforce_bytes: Option<usize>,
    /// When present, the resolved total bit count must equal this value.
    pub enforce_bits: Option<usize>,
    /// When set, the resolved total bit count must be a multiple of 8.
    pub enforce_full_bytes: bool,
}

/// One variant of a field enum: its declared literal value, if any, and
/// whether it absorbs unmatched primitive values.
#[derive(Clone, Copy, PartialEq, Eq, Structural, Debug)]
pub enum CatchMode {
    /// An ordinary variant: matched only by its assigned value.
    Normal,
    /// Decoding an unmatched value yields this variant, discarding the value.
    CatchAll,
    /// Decoding an unmatched value yields this variant holding the raw value.
    CatchValue,
}

/// One declared enum variant.
#[derive(Clone, Debug)]
pub struct VariantSchema {
    /// Variant name, for diagnostics only.
    pub name: String,
    /// Explicitly declared primitive value, when the declaration gives one.
    pub literal: Option<u64>,
    /// Whether this variant catches unmatched values.
    pub catch: CatchMode,
}

/// An enumerated-value mapping: declared variants in order.
#[derive(Clone, Debug)]
pub struct EnumSchema {
    /// Variants in declaration order.
    pub variants: Vec<VariantSchema>,
}

/// The kind of value a field holds, with the natural width of the backing
/// primitive where one exists.
#[derive(Clone, Debug)]
pub enum FieldKind {
    /// Unsigned integer backed by a primitive of `native_bits` bits.
    Unsigned { native_bits: usize },
    /// Two's-complement signed integer backed by a primitive of
    /// `native_bits` bits; narrower declared widths sign-extend on read.
    Signed { native_bits: usize },
    /// Boolean, read as a nonzero test.
    Boolean,
    /// IEEE floating-point bit pattern of a primitive of `native_bits` bits,
    /// carried as its raw bits: no numeric conversion is ever applied.
    Float { native_bits: usize },
    /// Enumerated value decoded through `mapping`; the enum's primitive of
    /// `primitive_bits` bits bounds the declared width.
    Enum { primitive_bits: usize, mapping: EnumSchema },
    /// A nested record occupying its own previously resolved number of bits;
    /// its value is carried as a packed byte window.
    Nested { total_bits: usize },
    /// An array laid element by element: `count` elements of
    /// `element_bits` bits each; carried as a packed byte window.
    ArrayElement { element_bits: usize, count: usize },
    /// An array packed into one block of `block_bits` bits; when the block is
    /// not an exact multiple of the element width the lowest-indexed elements
    /// are truncated first.  Carried as a packed byte window.
    ArrayBlock { block_bits: usize },
}

/// One declared field.
#[derive(Clone, Debug)]
pub struct FieldSchema {
    /// Identifier, unique within the record.
    pub name: String,
    /// What the field holds.
    pub kind: FieldKind,
    /// Requested width in bits for primitive-backed kinds.
    pub bit_length: usize,
    /// Per-field override of the record's default endianness.
    pub endianness: Option<Endianness>,
    /// Caller-supplied absolute `[start, end)` range; when present it is used
    /// verbatim and sequential placement skips this field.
    pub explicit_bit_range: Option<(usize, usize)>,
    /// A reserved field occupies bit space and has direct accessors but is
    /// excluded from whole-record construction and decomposition.
    pub reserved: bool,
}

/// The number of bits a field occupies, by its kind.
pub open spec fn spec_field_width(f: FieldSchema) -> int {
    match f.kind {
        FieldKind::Unsigned { .. } => f.bit_length as int,
        FieldKind::Signed { .. } => f.bit_length as int,
        FieldKind::Boolean => f.bit_length as int,
        FieldKind::Float { .. } => f.bit_length as int,
        FieldKind::Enum { .. } => f.bit_length as int,
        FieldKind::Nested { total_bits } => total_bits as int,
        FieldKind::ArrayElement { element_bits, count } => element_bits as int * count as int,
        FieldKind::ArrayBlock { block_bits } => block_bits as int,
    }
}

/// The endianness a field is laid with: its own override, or the record's
/// default.
pub open spec fn spec_field_endianness(f: FieldSchema, config: StructConfig) -> Endianness {
    match f.endianness {
        Some(e) => e,
        None => config.default_endianness,
    }
}

/// True when the field's value fits the scalar codec: every primitive-backed
/// kind is staged through a 64-bit scratch integer.
pub open spec fn spec_kind_is_scalar(k: FieldKind) -> bool {
    match k {
        FieldKind::Unsigned { .. } => true,
        FieldKind::Signed { .. } => true,
        FieldKind::Boolean => true,
        FieldKind::Float { .. } => true,
        FieldKind::Enum { .. } => true,
        FieldKind::Nested { .. } => false,
        FieldKind::ArrayElement { .. } => false,
        FieldKind::ArrayBlock { .. } => false,
    }
}

impl FieldSchema {
    /// The number of bits this field occupies.
    pub fn width(&self) -> (r: usize)
        requires
            spec_field_width(*self) <= usize::MAX as int,
        ensures
            r as int == spec_field_width(*self),
    {
        match &self.kind {
            FieldKind::Unsigned { .. } => self.bit_length,
            FieldKind::Signed { .. } => self.bit_length,
            FieldKind::Boolean => self.bit_length,
            FieldKind::Float { .. } => self.bit_length,
            FieldKind::Enum { .. } => self.bit_length,
            FieldKind::Nested { total_bits } => *total_bits,
            FieldKind::ArrayElement { element_bits, count } => *element_bits * *count,
            FieldKind::ArrayBlock { block_bits } => *block_bits,
        }
    }

    /// The endianness this field is laid with under `config`.
    pub fn resolved_endianness(&self, config: &StructConfig) -> (r: Endianness)
        ensures
            r == spec_field_endianness(*self, *config),
    {
        match self.endianness {
            Some(e) => e,
            None => config.default_endianness,
        }
    }
}

} // verus!
