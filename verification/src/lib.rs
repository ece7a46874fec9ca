//! Bit-exact packing of structured records into fixed-size byte buffers.
//!
//! A record is described by an ordered list of [`schema::FieldSchema`]s and a
//! [`schema::StructConfig`].  The layout resolver assigns every field an
//! absolute bit range inside the buffer and validates the schema; the codec
//! reads and writes field values through byte-level masking that works for any
//! bit width, byte-boundary crossing, endianness, bit order and buffer
//! reversal.  All of it is specified and proved here: encoding then decoding a
//! record gives the record back, resolved ranges never overlap, and writing
//! one field never disturbs the bits of another.

pub mod addr;
pub mod bits;
pub mod enums;
pub mod field;
pub mod hex;
pub mod layout;
pub mod record;
pub mod schema;
