//! Type descriptors, schemas, and the byte-order resolution that turns a
//! declared struct into a schema.

use vstd::prelude::*;
use crate::primitive::{ByteOrder, PrimKind};
use crate::bitfield::{SubField, widths_of, total_bits, lemma_total_suffix};

verus! {

broadcast use vstd::std_specs::vec::group_vec_axioms;

/// The layout type of a field.
pub enum TypeDesc {
    /// A primitive number; its byte order is supplied by the container.
    Primitive(PrimKind),
    /// A nested composite: self-describing, it keeps its own resolved layout.
    Composite(Schema),
    /// `n` elements of one type, back to back in index order.
    Array(Box<TypeDesc>, usize),
    /// Sub-fields packed into an unsigned base integer, least significant
    /// bits first; the base integer's byte order is supplied by the container.
    Bitfield(PrimKind, Vec<SubField>),
}

/// The byte order a field is actually encoded with.
#[derive(Clone, Copy, Debug, PartialEq, Eq, Structural)]
pub enum EffectiveOrder {
    Fixed(ByteOrder),
    /// The field's type is self-describing and uses its own layout.
    OwnLayout,
}

/// A field bound to its effective byte order.
pub struct ResolvedField {
    pub name: String,
    pub ty: TypeDesc,
    pub order: EffectiveOrder,
}

/// A composite layout: resolved fields in declaration order, and the total
/// length computed once when the schema was built.
pub struct Schema {
    pub name: String,
    pub fields: Vec<ResolvedField>,
    pub byte_len: usize,
}

/// A field as declared, with the byte-order annotations attached to it.
pub struct FieldDecl {
    pub name: String,
    pub ty: TypeDesc,
    /// Annotated little-endian.
    pub le: bool,
    /// Annotated big-endian.
    pub be: bool,
}

/// A struct as declared, with its container-level byte-order annotations.
pub struct StructDecl {
    pub name: String,
    /// Annotated little-endian by default.
    pub le: bool,
    /// Annotated big-endian by default.
    pub be: bool,
    pub fields: Vec<FieldDecl>,
}

/// Why a declaration does not give a schema.
#[derive(Clone, Copy, Debug, PartialEq, Eq, Structural)]
pub enum SchemaError {
    /// The struct carries both a little- and a big-endian default.
    ConflictingOrder,
    /// The field at this index carries both annotations.
    ConflictingFieldOrder(usize),
    /// The field at this index has an invalid type: a bitfield whose widths do
    /// not add up to its unsigned base type, a malformed nested schema, or an
    /// array too large to measure.
    InvalidType(usize),
    /// The field at this index needs a byte order and none applies.
    MissingOrder(usize),
    /// The total length does not fit in `usize`.
    TooLarge,
}

/// The encoded length of a type.
pub open spec fn type_len(t: TypeDesc) -> nat
    decreases t,
{
    match t {
        TypeDesc::Primitive(k) => k.spec_byte_len(),
        TypeDesc::Composite(s) => s.byte_len as nat,
        TypeDesc::Array(e, n) => (n * type_len(*e)) as nat,
        TypeDesc::Bitfield(k, _) => k.spec_byte_len(),
    }
}

/// The sum of the fields' lengths.
pub open spec fn fields_len(fs: Seq<ResolvedField>) -> nat
    decreases fs.len(),
{
    if fs.len() == 0 {
        0
    } else {
        fields_len(fs.drop_last()) + type_len(fs.last().ty)
    }
}

/// The offset of field `i`: the sum of the lengths of the fields before it.
pub open spec fn field_offset(fs: Seq<ResolvedField>, i: int) -> nat {
    fields_len(fs.subrange(0, i))
}

/// An order that can drive a type: only a self-describing type goes without
/// a byte order.
pub open spec fn order_ok(t: TypeDesc, o: EffectiveOrder) -> bool {
    match o {
        EffectiveOrder::Fixed(_) => true,
        EffectiveOrder::OwnLayout => t is Composite,
    }
}

/// A well-formed type: bitfields are based on an unsigned integer whose width
/// their sub-fields fill exactly, lengths fit in `usize`, and a nested
/// schema's fields are well-formed, have usable orders, and add up to its
/// cached length.
pub open spec fn type_wf(t: TypeDesc) -> bool
    decreases t,
{
    match t {
        TypeDesc::Primitive(_) => true,
        TypeDesc::Bitfield(k, fs) => k.spec_is_unsigned_int() && total_bits(widths_of(fs@))
            == k.spec_bit_width(),
        TypeDesc::Array(e, n) => type_wf(*e) && n * type_len(*e) <= usize::MAX,
        TypeDesc::Composite(s) => {
            &&& s.byte_len == fields_len(s.fields@)
            &&& forall|i: int|
                0 <= i < s.fields@.len() ==> type_wf(#[trigger] s.fields@[i].ty) && order_ok(
                    s.fields@[i].ty,
                    s.fields@[i].order,
                )
        },
    }
}

impl Schema {
    /// Well-formed as a nested composite type.
    pub open spec fn wf(self) -> bool {
        type_wf(TypeDesc::Composite(self))
    }
}

pub proof fn lemma_fields_len_prefix(fs: Seq<ResolvedField>, i: int)
    requires
        0 <= i <= fs.len(),
    ensures
        fields_len(fs.subrange(0, i)) <= fields_len(fs),
        i < fs.len() ==> fields_len(fs.subrange(0, i + 1)) == fields_len(fs.subrange(0, i))
            + type_len(fs[i].ty),
    decreases fs.len(),
{
    if i < fs.len() {
        assert(fs.subrange(0, i + 1).drop_last() =~= fs.subrange(0, i));
    }
    if i == fs.len() {
        assert(fs.subrange(0, i) =~= fs);
    } else {
        let d = fs.drop_last();
        lemma_fields_len_prefix(d, i);
        assert(d.subrange(0, i) =~= fs.subrange(0, i));
    }
}

/// The length of a well-formed type.
pub fn type_byte_len(t: &TypeDesc) -> (r: usize)
    requires
        type_wf(*t),
    ensures
        r == type_len(*t),
    decreases t,
{
    match t {
        TypeDesc::Primitive(k) => k.byte_len(),
        TypeDesc::Composite(s) => s.byte_len,
        TypeDesc::Array(e, n) => {
            let l = type_byte_len(e);
            *n * l
        },
        TypeDesc::Bitfield(k, _) => k.byte_len(),
    }
}

/// Whether sub-fields of these widths fill a base of `width` bits exactly.
fn widths_fill(fields: &Vec<SubField>, width: usize) -> (r: bool)
    requires
        width <= 128,
    ensures
        r == (total_bits(widths_of(fields@)) == width),
{
    let ghost ws = widths_of(fields@);
    let n = fields.len();
    let mut sum: u64 = 0;
    let mut i: usize = n;
    assert(ws.subrange(n as int, n as int) =~= Seq::<nat>::empty());
    while i > 0
        invariant
            i <= n,
            n == fields@.len(),
            ws == widths_of(fields@),
            width <= 128,
            sum <= 128,
            sum == total_bits(ws.subrange(i as int, n as int)),
        decreases i,
    {
        i = i - 1;
        proof {
            lemma_total_suffix(ws, i as int);
        }
        sum = sum + fields[i].bits as u64;
        if sum > 128 {
            proof {
                lemma_total_suffix(ws, i as int);
            }
            return false;
        }
    }
    assert(ws.subrange(0, n as int) =~= ws);
    sum == width as u64
}

/// Checks a type: its length when it is well-formed.
pub fn check_type(t: &TypeDesc) -> (r: Option<usize>)
    ensures
        r is Some <==> type_wf(*t),
        r is Some ==> r->0 == type_len(*t),
    decreases t,
{
    match t {
        TypeDesc::Primitive(k) => Some(k.byte_len()),
        TypeDesc::Bitfield(k, fields) => {
            if k.is_unsigned_int() && widths_fill(fields, 8 * k.byte_len()) {
                Some(k.byte_len())
            } else {
                None
            }
        },
        TypeDesc::Array(e, n) => {
            match check_type(e) {
                Some(l) => n.checked_mul(l),
                None => None,
            }
        },
        TypeDesc::Composite(s) => {
            let ghost fs = s.fields@;
            let n = s.fields.len();
            let mut sum: usize = 0;
            let mut i: usize = 0;
            assert(fs.subrange(0, 0) =~= Seq::<ResolvedField>::empty());
            while i < n
                invariant
                    i <= n,
                    n == fs.len(),
                    fs == s.fields@,
                    *t == TypeDesc::Composite(*s),
                    sum == fields_len(fs.subrange(0, i as int)),
                    forall|j: int|
                        0 <= j < i ==> type_wf(#[trigger] fs[j].ty) && order_ok(fs[j].ty, fs[j].order),
                decreases n - i,
            {
                let f = &s.fields[i];
                proof {
                    lemma_fields_len_prefix(fs, i as int);
                    assert(f.ty == fs[i as int].ty);
                    assert(decreases_to!(*t => (*t)->Composite_0));
                    assert(decreases_to!((*t)->Composite_0 => s.fields));
                    assert(decreases_to!(s.fields => s.fields@));
                    assert(decreases_to!(s.fields@ => s.fields@[i as int]));
                    assert(decreases_to!(s.fields@[i as int] => s.fields@[i as int].ty));
                }
                let l = match check_type(&f.ty) {
                    Some(l) => l,
                    None => return None,
                };
                let usable = match f.order {
                    EffectiveOrder::Fixed(_) => true,
                    EffectiveOrder::OwnLayout => matches!(f.ty, TypeDesc::Composite(_)),
                };
                if !usable {
                    return None;
                }
                sum = match sum.checked_add(l) {
                    Some(x) => x,
                    None => {
                        proof {
                            lemma_fields_len_prefix(fs, i + 1);
                        }
                        return None;
                    },
                };
                i = i + 1;
            }
            assert(fs.subrange(0, n as int) =~= fs);
            if sum == s.byte_len {
                Some(sum)
            } else {
                None
            }
        },
    }
}

} // verus!
