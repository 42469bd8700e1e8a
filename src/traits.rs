//! The codec interface: a length, self-describing pack/unpack, and pack/unpack
//! under a default byte order.
//!
//! Every call takes a buffer of exactly the layout's length; a buffer of any
//! other length, or a value that does not fit the layout, is refused with the
//! buffer left untouched.

use vstd::prelude::*;
use crate::primitive::ByteOrder;
use crate::value::{Value, Datum};
use crate::schema::{TypeDesc, EffectiveOrder, Schema, type_len, type_wf, type_byte_len};
use crate::codec::{
    fits, enc, dec, value_fits, fits_struct, encode_value, encode_struct, decode_value,
    decode_struct, lemma_enc_dec,
};

verus! {

/// Why an encode or decode call was refused.
#[derive(Clone, Copy, Debug, PartialEq, Eq, Structural)]
pub enum CodecError {
    /// The buffer is not exactly as long as the layout.
    BufferLength { expected: usize, actual: usize },
    /// The value does not fit the layout.
    ValueMismatch,
}

/// The outcome of writing a value whose fitness is `fits` and whose bytes
/// are `encoding` into a buffer that held `before` and holds `after`.
pub open spec fn written(
    r: Result<(), CodecError>,
    before: Seq<u8>,
    after: Seq<u8>,
    len: nat,
    fits: bool,
    encoding: Seq<u8>,
) -> bool {
    if before.len() != len {
        r == Err::<(), CodecError>(
            CodecError::BufferLength { expected: len as usize, actual: before.len() as usize },
        ) && after == before
    } else if !fits {
        r == Err::<(), CodecError>(CodecError::ValueMismatch) && after == before
    } else {
        r == Ok::<(), CodecError>(()) && after == encoding
    }
}

/// The outcome of reading a buffer `b` whose value is `decoding`.
pub open spec fn read(r: Result<Value, CodecError>, b: Seq<u8>, len: nat, decoding: Datum) -> bool {
    if b.len() != len {
        r == Err::<Value, CodecError>(
            CodecError::BufferLength { expected: len as usize, actual: b.len() as usize },
        )
    } else {
        r is Ok && r->Ok_0@ == decoding
    }
}

/// A layout of fixed length.
pub trait ByteStructLen {
    /// The layout is well-formed.
    spec fn spec_wf(&self) -> bool;

    /// The length of the packed bytes.
    spec fn spec_byte_len(&self) -> nat;

    /// `v` is a value of this layout.
    spec fn spec_accepts(&self, v: Datum) -> bool;

    /// The length of the packed bytes.
    fn byte_len(&self) -> (r: usize)
        requires
            self.spec_wf(),
        ensures
            r == self.spec_byte_len(),
    ;
}

/// A layout that fixes its own byte order.
pub trait ByteStruct: ByteStructLen {
    /// The packed bytes of `v`.
    spec fn spec_encode(&self, v: Datum) -> Seq<u8>;

    /// The value that the packed bytes `b` hold.
    spec fn spec_decode(&self, b: Seq<u8>) -> Datum;

    /// Packs `value` into `bytes`.
    fn write_bytes(&self, value: &Value, bytes: &mut [u8]) -> (r: Result<(), CodecError>)
        requires
            self.spec_wf(),
        ensures
            written(
                r,
                old(bytes)@,
                final(bytes)@,
                self.spec_byte_len(),
                self.spec_accepts(value@),
                self.spec_encode(value@),
            ),
    ;

    /// Unpacks a value from `bytes`.
    fn read_bytes(&self, bytes: &[u8]) -> (r: Result<Value, CodecError>)
        requires
            self.spec_wf(),
        ensures
            read(r, bytes@, self.spec_byte_len(), self.spec_decode(bytes@)),
    ;
}

/// A layout packed under a default byte order. The default applies to what
/// carries no order of its own (primitives, bitfields, arrays of them); a
/// self-describing layout ignores it.
pub trait ByteStructUnspecifiedByteOrder: ByteStructLen {
    /// The packed bytes of `v` under the default `order`.
    spec fn spec_encode_default(&self, order: ByteOrder, v: Datum) -> Seq<u8>;

    /// The value that `b` holds under the default `order`.
    spec fn spec_decode_default(&self, order: ByteOrder, b: Seq<u8>) -> Datum;

    /// Packs `value` into `bytes`, little-endian by default.
    fn write_bytes_default_le(&self, value: &Value, bytes: &mut [u8]) -> (r: Result<(), CodecError>)
        requires
            self.spec_wf(),
        ensures
            written(
                r,
                old(bytes)@,
                final(bytes)@,
                self.spec_byte_len(),
                self.spec_accepts(value@),
                self.spec_encode_default(ByteOrder::Little, value@),
            ),
    ;

    /// Unpacks a value from `bytes`, little-endian by default.
    fn read_bytes_default_le(&self, bytes: &[u8]) -> (r: Result<Value, CodecError>)
        requires
            self.spec_wf(),
        ensures
            read(
                r,
                bytes@,
                self.spec_byte_len(),
                self.spec_decode_default(ByteOrder::Little, bytes@),
            ),
    ;

    /// Packs `value` into `bytes`, big-endian by default.
    fn write_bytes_default_be(&self, value: &Value, bytes: &mut [u8]) -> (r: Result<(), CodecError>)
        requires
            self.spec_wf(),
        ensures
            written(
                r,
                old(bytes)@,
                final(bytes)@,
                self.spec_byte_len(),
                self.spec_accepts(value@),
                self.spec_encode_default(ByteOrder::Big, value@),
            ),
    ;

    /// Unpacks a value from `bytes`, big-endian by default.
    fn read_bytes_default_be(&self, bytes: &[u8]) -> (r: Result<Value, CodecError>)
        requires
            self.spec_wf(),
        ensures
            read(r, bytes@, self.spec_byte_len(), self.spec_decode_default(ByteOrder::Big, bytes@)),
    ;
}

/// Overwrites `dst` with `src`, which has its length.
fn copy_into(src: &Vec<u8>, dst: &mut [u8])
    requires
        src@.len() == old(dst)@.len(),
    ensures
        final(dst)@ == src@,
{
    let n = src.len();
    let mut i: usize = 0;
    while i < n
        invariant
            i <= n,
            n == src@.len(),
            dst@.len() == n,
            forall|j: int| 0 <= j < i ==> dst@[j] == src@[j],
        decreases n - i,
    {
        dst[i] = src[i];
        i = i + 1;
    }
    assert(dst@ =~= src@);
}

fn write_typed(t: &TypeDesc, o: EffectiveOrder, value: &Value, bytes: &mut [u8]) -> (r: Result<
    (),
    CodecError,
>)
    requires
        type_wf(*t),
        o is Fixed,
    ensures
        written(r, old(bytes)@, final(bytes)@, type_len(*t), fits(*t, value@), enc(*t, o, value@)),
{
    let len = type_byte_len(t);
    if bytes.len() != len {
        return Err(CodecError::BufferLength { expected: len, actual: bytes.len() });
    }
    if !value_fits(t, value) {
        return Err(CodecError::ValueMismatch);
    }
    let mut out: Vec<u8> = Vec::new();
    encode_value(t, o, value, &mut out);
    proof {
        lemma_enc_dec(*t, o, value@);
    }
    copy_into(&out, bytes);
    Ok(())
}

fn read_typed(t: &TypeDesc, o: EffectiveOrder, bytes: &[u8]) -> (r: Result<Value, CodecError>)
    requires
        type_wf(*t),
    ensures
        read(r, bytes@, type_len(*t), dec(*t, o, bytes@)),
{
    let len = type_byte_len(t);
    if bytes.len() != len {
        return Err(CodecError::BufferLength { expected: len, actual: bytes.len() });
    }
    let v = decode_value(t, o, bytes, 0);
    assert(bytes@.subrange(0, len as int) =~= bytes@);
    Ok(v)
}

impl ByteStructLen for TypeDesc {
    open spec fn spec_wf(&self) -> bool {
        type_wf(*self)
    }

    open spec fn spec_byte_len(&self) -> nat {
        type_len(*self)
    }

    open spec fn spec_accepts(&self, v: Datum) -> bool {
        fits(*self, v)
    }

    fn byte_len(&self) -> (r: usize) {
        type_byte_len(self)
    }
}

impl ByteStructUnspecifiedByteOrder for TypeDesc {
    open spec fn spec_encode_default(&self, order: ByteOrder, v: Datum) -> Seq<u8> {
        enc(*self, EffectiveOrder::Fixed(order), v)
    }

    open spec fn spec_decode_default(&self, order: ByteOrder, b: Seq<u8>) -> Datum {
        dec(*self, EffectiveOrder::Fixed(order), b)
    }

    fn write_bytes_default_le(&self, value: &Value, bytes: &mut [u8]) -> (r: Result<(), CodecError>) {
        write_typed(self, EffectiveOrder::Fixed(ByteOrder::Little), value, bytes)
    }

    fn read_bytes_default_le(&self, bytes: &[u8]) -> (r: Result<Value, CodecError>) {
        read_typed(self, EffectiveOrder::Fixed(ByteOrder::Little), bytes)
    }

    fn write_bytes_default_be(&self, value: &Value, bytes: &mut [u8]) -> (r: Result<(), CodecError>) {
        write_typed(self, EffectiveOrder::Fixed(ByteOrder::Big), value, bytes)
    }

    fn read_bytes_default_be(&self, bytes: &[u8]) -> (r: Result<Value, CodecError>) {
        read_typed(self, EffectiveOrder::Fixed(ByteOrder::Big), bytes)
    }
}

impl ByteStructLen for Schema {
    open spec fn spec_wf(&self) -> bool {
        self.wf()
    }

    open spec fn spec_byte_len(&self) -> nat {
        self.byte_len as nat
    }

    open spec fn spec_accepts(&self, v: Datum) -> bool {
        fits(TypeDesc::Composite(*self), v)
    }

    fn byte_len(&self) -> (r: usize) {
        self.byte_len
    }
}

impl ByteStruct for Schema {
    open spec fn spec_encode(&self, v: Datum) -> Seq<u8> {
        enc(TypeDesc::Composite(*self), EffectiveOrder::OwnLayout, v)
    }

    open spec fn spec_decode(&self, b: Seq<u8>) -> Datum {
        dec(TypeDesc::Composite(*self), EffectiveOrder::OwnLayout, b)
    }

    fn write_bytes(&self, value: &Value, bytes: &mut [u8]) -> (r: Result<(), CodecError>) {
        if bytes.len() != self.byte_len {
            return Err(CodecError::BufferLength { expected: self.byte_len, actual: bytes.len() });
        }
        if !fits_struct(self, value) {
            return Err(CodecError::ValueMismatch);
        }
        let mut out: Vec<u8> = Vec::new();
        encode_struct(self, value, &mut out);
        proof {
            lemma_enc_dec(TypeDesc::Composite(*self), EffectiveOrder::OwnLayout, value@);
        }
        copy_into(&out, bytes);
        Ok(())
    }

    fn read_bytes(&self, bytes: &[u8]) -> (r: Result<Value, CodecError>) {
        if bytes.len() != self.byte_len {
            return Err(CodecError::BufferLength { expected: self.byte_len, actual: bytes.len() });
        }
        let v = decode_struct(self, bytes, 0);
        assert(bytes@.subrange(0, self.byte_len as int) =~= bytes@);
        Ok(v)
    }
}

/// A self-describing layout ignores the default order.
impl ByteStructUnspecifiedByteOrder for Schema {
    open spec fn spec_encode_default(&self, order: ByteOrder, v: Datum) -> Seq<u8> {
        self.spec_encode(v)
    }

    open spec fn spec_decode_default(&self, order: ByteOrder, b: Seq<u8>) -> Datum {
        self.spec_decode(b)
    }

    fn write_bytes_default_le(&self, value: &Value, bytes: &mut [u8]) -> (r: Result<(), CodecError>) {
        self.write_bytes(value, bytes)
    }

    fn read_bytes_default_le(&self, bytes: &[u8]) -> (r: Result<Value, CodecError>) {
        self.read_bytes(bytes)
    }

    fn write_bytes_default_be(&self, value: &Value, bytes: &mut [u8]) -> (r: Result<(), CodecError>) {
        self.write_bytes(value, bytes)
    }

    fn read_bytes_default_be(&self, bytes: &[u8]) -> (r: Result<Value, CodecError>) {
        self.read_bytes(bytes)
    }
}

impl Schema {
    /// The packed bytes of `value`: exactly `byte_len` of them.
    pub fn encode(&self, value: &Value) -> (r: Result<Vec<u8>, CodecError>)
        requires
            self.wf(),
        ensures
            r is Ok <==> self.spec_accepts(value@),
            r is Ok ==> r->Ok_0@ == self.spec_encode(value@) && r->Ok_0@.len() == self.byte_len,
            r is Err ==> r->Err_0 == CodecError::ValueMismatch,
    {
        if !fits_struct(self, value) {
            return Err(CodecError::ValueMismatch);
        }
        let mut out: Vec<u8> = Vec::new();
        encode_struct(self, value, &mut out);
        proof {
            lemma_enc_dec(TypeDesc::Composite(*self), EffectiveOrder::OwnLayout, value@);
        }
        assert(out@ =~= self.spec_encode(value@));
        Ok(out)
    }
}

} // verus!
