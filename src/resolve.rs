//! Byte-order resolution: from a declared struct to a schema.
//!
//! Precedence for each field, highest first: a self-describing type (a nested
//! composite) keeps its own layout and ignores any order; else the field's own
//! annotation; else the container's default; else the declaration is refused.

use vstd::prelude::*;
use crate::primitive::ByteOrder;
use crate::schema::{
    TypeDesc, EffectiveOrder, ResolvedField, Schema, FieldDecl, StructDecl, SchemaError,
    type_len, type_wf, fields_len, order_ok, check_type,
};

verus! {

broadcast use vstd::std_specs::vec::group_vec_axioms;

/// The order named by a pair of annotations, little-endian first.
pub open spec fn annotated(le: bool, be: bool) -> Option<ByteOrder> {
    if le {
        Some(ByteOrder::Little)
    } else if be {
        Some(ByteOrder::Big)
    } else {
        None
    }
}

/// The container's default order: its own annotation, else `fallback`.
pub open spec fn container_default(d: StructDecl, fallback: Option<ByteOrder>) -> Option<ByteOrder> {
    match annotated(d.le, d.be) {
        Some(o) => Some(o),
        None => fallback,
    }
}

/// The effective order of a field under a container default, if any applies.
pub open spec fn resolve_order(f: FieldDecl, default: Option<ByteOrder>) -> Option<EffectiveOrder> {
    if f.ty is Composite {
        Some(EffectiveOrder::OwnLayout)
    } else {
        match annotated(f.le, f.be) {
            Some(o) => Some(EffectiveOrder::Fixed(o)),
            None => match default {
                Some(o) => Some(EffectiveOrder::Fixed(o)),
                None => None,
            },
        }
    }
}

/// What is wrong with field `i`, checked in this order: conflicting
/// annotations, an invalid type, no applicable order.
pub open spec fn field_error(f: FieldDecl, i: int, default: Option<ByteOrder>) -> Option<
    SchemaError,
> {
    if f.le && f.be {
        Some(SchemaError::ConflictingFieldOrder(i as usize))
    } else if !type_wf(f.ty) {
        Some(SchemaError::InvalidType(i as usize))
    } else if resolve_order(f, default) is None {
        Some(SchemaError::MissingOrder(i as usize))
    } else {
        None
    }
}

/// The error of the first faulty field at index `i` or later.
pub open spec fn first_field_error(fs: Seq<FieldDecl>, default: Option<ByteOrder>, i: int) -> Option<
    SchemaError,
>
    decreases fs.len() - i,
{
    if i < 0 || i >= fs.len() {
        None
    } else {
        match field_error(fs[i], i, default) {
            Some(e) => Some(e),
            None => first_field_error(fs, default, i + 1),
        }
    }
}

/// The sum of the declared fields' lengths.
pub open spec fn decl_len(fs: Seq<FieldDecl>) -> nat
    decreases fs.len(),
{
    if fs.len() == 0 {
        0
    } else {
        decl_len(fs.drop_last()) + type_len(fs.last().ty)
    }
}

/// Why the declaration gives no schema, if it does not.
pub open spec fn decl_error(d: StructDecl, fallback: Option<ByteOrder>) -> Option<SchemaError> {
    if d.le && d.be {
        Some(SchemaError::ConflictingOrder)
    } else {
        match first_field_error(d.fields@, container_default(d, fallback), 0) {
            Some(e) => Some(e),
            None => if decl_len(d.fields@) > usize::MAX {
                Some(SchemaError::TooLarge)
            } else {
                None
            },
        }
    }
}

/// `s` is the declaration's schema: same name and fields in the same order,
/// each with its resolved order, and the total length of the fields.
pub open spec fn resolved_from(s: Schema, d: StructDecl, fallback: Option<ByteOrder>) -> bool {
    &&& s.name == d.name
    &&& s.fields@.len() == d.fields@.len()
    &&& forall|i: int|
        0 <= i < d.fields@.len() ==> {
            &&& (#[trigger] s.fields@[i]).name == d.fields@[i].name
            &&& s.fields@[i].ty == d.fields@[i].ty
            &&& resolve_order(d.fields@[i], container_default(d, fallback)) == Some(
                s.fields@[i].order,
            )
        }
    &&& s.byte_len == decl_len(d.fields@)
}

proof fn lemma_decl_len_prefix(fs: Seq<FieldDecl>, i: int)
    requires
        0 <= i <= fs.len(),
    ensures
        decl_len(fs.subrange(0, i)) <= decl_len(fs),
        i < fs.len() ==> decl_len(fs.subrange(0, i + 1)) == decl_len(fs.subrange(0, i))
            + type_len(fs[i].ty),
    decreases fs.len(),
{
    if i < fs.len() {
        assert(fs.subrange(0, i + 1).drop_last() =~= fs.subrange(0, i));
    }
    if i == fs.len() {
        assert(fs.subrange(0, i) =~= fs);
    } else {
        let d = fs.drop_last();
        lemma_decl_len_prefix(d, i);
        assert(d.subrange(0, i) =~= fs.subrange(0, i));
    }
}

/// Builds the schema of a declaration, with `fallback` as the default order
/// when the struct carries no annotation of its own.
fn derive_schema(decl: StructDecl, fallback: Option<ByteOrder>) -> (r: Result<Schema, SchemaError>)
    ensures
        r is Ok <==> decl_error(decl, fallback) is None,
        r is Ok ==> resolved_from(r->Ok_0, decl, fallback) && r->Ok_0.wf(),
        r is Err ==> decl_error(decl, fallback) == Some(r->Err_0),
{
    if decl.le && decl.be {
        return Err(SchemaError::ConflictingOrder);
    }
    let default = if decl.le {
        Some(ByteOrder::Little)
    } else if decl.be {
        Some(ByteOrder::Big)
    } else {
        fallback
    };
    let ghost dfs = decl.fields@;
    let ghost d0 = decl;
    let n = decl.fields.len();
    let name = decl.name;
    let mut rest = decl.fields;
    let mut out: Vec<ResolvedField> = Vec::new();
    let mut total: usize = 0;
    let mut overflow = false;
    let mut i: usize = 0;
    assert(dfs.subrange(0, 0) =~= Seq::<FieldDecl>::empty());
    assert(dfs.subrange(0, n as int) =~= dfs);
    while i < n
        invariant
            i <= n,
            n == dfs.len(),
            dfs == d0.fields@,
            d0 == decl,
            !(d0.le && d0.be),
            default == container_default(d0, fallback),
            rest@ == dfs.subrange(i as int, n as int),
            out@.len() == i,
            first_field_error(dfs, default, 0) == first_field_error(dfs, default, i as int),
            forall|j: int|
                0 <= j < i ==> {
                    &&& (#[trigger] out@[j]).name == dfs[j].name
                    &&& out@[j].ty == dfs[j].ty
                    &&& resolve_order(dfs[j], default) == Some(out@[j].order)
                    &&& type_wf(out@[j].ty)
                    &&& order_ok(out@[j].ty, out@[j].order)
                },
            fields_len(out@) == decl_len(dfs.subrange(0, i as int)),
            overflow ==> decl_len(dfs.subrange(0, i as int)) > usize::MAX,
            !overflow ==> total == decl_len(dfs.subrange(0, i as int)),
        decreases n - i,
    {
        let f = rest.remove(0);
        assert(f == dfs[i as int]);
        proof {
            lemma_decl_len_prefix(dfs, i as int);
        }
        if f.le && f.be {
            return Err(SchemaError::ConflictingFieldOrder(i));
        }
        let l = match check_type(&f.ty) {
            Some(l) => l,
            None => return Err(SchemaError::InvalidType(i)),
        };
        let order = if matches!(f.ty, TypeDesc::Composite(_)) {
            EffectiveOrder::OwnLayout
        } else if f.le {
            EffectiveOrder::Fixed(ByteOrder::Little)
        } else if f.be {
            EffectiveOrder::Fixed(ByteOrder::Big)
        } else {
            match default {
                Some(o) => EffectiveOrder::Fixed(o),
                None => return Err(SchemaError::MissingOrder(i)),
            }
        };
        if !overflow {
            match total.checked_add(l) {
                Some(x) => total = x,
                None => overflow = true,
            }
        }
        let ghost prev = out@;
        out.push(ResolvedField { name: f.name, ty: f.ty, order });
        assert(out@.drop_last() =~= prev);
        i = i + 1;
    }
    assert(dfs.subrange(0, n as int) =~= dfs);
    if overflow {
        return Err(SchemaError::TooLarge);
    }
    proof {
        assert(first_field_error(dfs, default, n as int) is None);
    }
    Ok(Schema { name, fields: out, byte_len: total })
}

/// Builds the schema of a struct declaration. Fields that carry no
/// annotation take the struct's own default; without one, only
/// self-describing fields can go without an annotation.
pub fn byte_struct_macro_derive(decl: StructDecl) -> (r: Result<Schema, SchemaError>)
    ensures
        r is Ok <==> decl_error(decl, None) is None,
        r is Ok ==> resolved_from(r->Ok_0, decl, None) && r->Ok_0.wf(),
        r is Err ==> decl_error(decl, None) == Some(r->Err_0),
{
    derive_schema(decl, None)
}

/// Builds the schema of a struct declaration that is little-endian by
/// default.
pub fn byte_struct_le_macro_derive(decl: StructDecl) -> (r: Result<Schema, SchemaError>)
    ensures
        r is Ok <==> decl_error(decl, Some(ByteOrder::Little)) is None,
        r is Ok ==> resolved_from(r->Ok_0, decl, Some(ByteOrder::Little)) && r->Ok_0.wf(),
        r is Err ==> decl_error(decl, Some(ByteOrder::Little)) == Some(r->Err_0),
{
    derive_schema(decl, Some(ByteOrder::Little))
}

/// Builds the schema of a struct declaration that is big-endian by default.
pub fn byte_struct_be_macro_derive(decl: StructDecl) -> (r: Result<Schema, SchemaError>)
    ensures
        r is Ok <==> decl_error(decl, Some(ByteOrder::Big)) is None,
        r is Ok ==> resolved_from(r->Ok_0, decl, Some(ByteOrder::Big)) && r->Ok_0.wf(),
        r is Err ==> decl_error(decl, Some(ByteOrder::Big)) == Some(r->Err_0),
{
    derive_schema(decl, Some(ByteOrder::Big))
}

} // verus!
