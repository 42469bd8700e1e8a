//! Fixed-layout binary struct codec.
//!
//! A struct is declared as an ordered list of typed fields (primitives,
//! nested composites, fixed-size arrays and bitfields) with optional
//! byte-order annotations on the struct and on each field. Building its
//! schema resolves each field's effective byte order once: a nested composite
//! keeps its own layout, else the field's annotation applies, else the
//! struct's default. Encoding and decoding then place the fields back to back
//! in declaration order in a buffer of exactly `byte_len` bytes.

pub mod primitive;
pub mod value;
pub mod bitfield;
pub mod schema;
pub mod resolve;
pub mod codec;
pub mod traits;
pub mod laws;

pub use primitive::{ByteOrder, PrimKind};
pub use value::{Datum, Value};
pub use bitfield::{SubField, pack, unpack};
pub use schema::{
    EffectiveOrder, FieldDecl, ResolvedField, Schema, SchemaError, StructDecl, TypeDesc,
};
pub use resolve::{byte_struct_be_macro_derive, byte_struct_le_macro_derive, byte_struct_macro_derive};
pub use traits::{ByteStruct, ByteStructLen, ByteStructUnspecifiedByteOrder, CodecError};
