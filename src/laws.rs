//! Properties that hold of every well-formed schema.

use vstd::prelude::*;
use vstd::arithmetic::power2::pow2;
use crate::primitive::ByteOrder;
use crate::value::Datum;
use crate::bitfield::{total_bits, fits_widths, pack_bits, unpack_bits, lemma_pack_unpack, lemma_unpack_pack};
use crate::schema::{
    TypeDesc, EffectiveOrder, ResolvedField, Schema, StructDecl, type_len, type_wf, fields_len,
    field_offset, order_ok, lemma_fields_len_prefix,
};
use crate::resolve::resolved_from;
use crate::codec::{fits, enc, enc_fields, items, lemma_enc_dec, lemma_fields_round_trip};
use crate::traits::{ByteStruct, ByteStructLen};

verus! {

/// Round trip: decoding what a well-formed schema encodes gives the value back.
pub proof fn law_round_trip(s: Schema, v: Datum)
    requires
        s.wf(),
        s.spec_accepts(v),
    ensures
        s.spec_decode(s.spec_encode(v)) == v,
{
    lemma_enc_dec(TypeDesc::Composite(s), EffectiveOrder::OwnLayout, v);
}

/// Length: the encoding of every value is exactly `byte_len` bytes, and
/// `byte_len` is the sum of the fields' lengths.
pub proof fn law_length(s: Schema, v: Datum)
    requires
        s.wf(),
        s.spec_accepts(v),
    ensures
        s.spec_encode(v).len() == s.byte_len,
        s.byte_len == fields_len(s.fields@),
{
    lemma_enc_dec(TypeDesc::Composite(s), EffectiveOrder::OwnLayout, v);
}

/// Fields with the same types, and the same orders, encode alike.
proof fn lemma_fields_same(fs1: Seq<ResolvedField>, fs2: Seq<ResolvedField>, ds: Seq<Datum>)
    requires
        fs1.len() == fs2.len(),
        forall|i: int|
            0 <= i < fs1.len() ==> (#[trigger] fs1[i]).ty == fs2[i].ty && fs1[i].order
                == fs2[i].order,
    ensures
        enc_fields(fs1, ds) == enc_fields(fs2, ds),
        fields_len(fs1) == fields_len(fs2),
    decreases fs1.len(),
{
    if fs1.len() > 0 {
        let (f1, f2) = (fs1.drop_last(), fs2.drop_last());
        assert forall|i: int| 0 <= i < f1.len() implies (#[trigger] f1[i]).ty == f2[i].ty
            && f1[i].order == f2[i].order by {
            assert(f1[i] == fs1[i] && f2[i] == fs2[i]);
        }
        lemma_fields_same(f1, f2, ds.subrange(0, fs1.len() - 1));
        assert(fs1.last() == fs1[fs1.len() - 1]);
        assert(fs2.last() == fs2[fs2.len() - 1]);
    }
}

/// Fields with the same types, and the same orders but at `k`, encode alike
/// outside field `k`'s bytes.
proof fn lemma_fields_local(fs1: Seq<ResolvedField>, fs2: Seq<ResolvedField>, ds: Seq<Datum>, k: int)
    requires
        fs1.len() == fs2.len(),
        ds.len() == fs1.len(),
        0 <= k < fs1.len(),
        forall|i: int| 0 <= i < fs1.len() ==> (#[trigger] fs1[i]).ty == fs2[i].ty,
        forall|i: int| 0 <= i < fs1.len() && i != k ==> (#[trigger] fs1[i]).order == fs2[i].order,
        forall|i: int|
            0 <= i < fs1.len() ==> type_wf(#[trigger] fs1[i].ty) && order_ok(fs1[i].ty, fs1[i].order)
                && order_ok(fs2[i].ty, fs2[i].order),
        forall|i: int| 0 <= i < fs1.len() ==> fits(fs1[i].ty, #[trigger] ds[i]),
    ensures
        enc_fields(fs1, ds).len() == fields_len(fs1),
        enc_fields(fs2, ds).len() == fields_len(fs1),
        fields_len(fs1) == fields_len(fs2),
        forall|j: int|
            0 <= j < fields_len(fs1) && !(field_offset(fs1, k) <= j < field_offset(fs1, k) + type_len(
                fs1[k].ty,
            )) ==> #[trigger] enc_fields(fs1, ds)[j] == enc_fields(fs2, ds)[j],
    decreases fs1.len(),
{
    let n = fs1.len() as int;
    let (f1, f2, dsf) = (fs1.drop_last(), fs2.drop_last(), ds.subrange(0, n - 1));
    assert forall|i: int| 0 <= i < fs2.len() implies type_wf(#[trigger] fs2[i].ty) && order_ok(
        fs2[i].ty,
        fs2[i].order,
    ) && fits(fs2[i].ty, ds[i]) by {
        assert(fs1[i].ty == fs2[i].ty);
    }
    lemma_fields_round_trip(fs1, ds);
    lemma_fields_round_trip(fs2, ds);
    lemma_fields_same_len(fs1, fs2);
    assert(f1.len() == f2.len());
    assert forall|i: int| 0 <= i < f1.len() implies (#[trigger] f1[i]).ty == f2[i].ty by {
        assert(f1[i] == fs1[i] && f2[i] == fs2[i]);
    }
    lemma_fields_same_len(f1, f2);
    let last = n - 1;
    assert(fs1.last() == fs1[last] && fs2.last() == fs2[last]);
    lemma_enc_dec(fs1[last].ty, fs1[last].order, ds[last]);
    lemma_enc_dec(fs2[last].ty, fs2[last].order, ds[last]);
    assert(fs1.subrange(0, k) =~= f1.subrange(0, k));
    if k == last {
        assert forall|i: int| 0 <= i < f1.len() implies (#[trigger] f1[i]).ty == f2[i].ty
            && f1[i].order == f2[i].order by {
            assert(f1[i] == fs1[i] && f2[i] == fs2[i]);
        }
        lemma_fields_same(f1, f2, dsf);
        assert(f1 =~= fs1.subrange(0, k));
    } else {
        assert forall|i: int| 0 <= i < f1.len() && i != k implies (#[trigger] f1[i]).order
            == f2[i].order by {
            assert(f1[i] == fs1[i] && f2[i] == fs2[i]);
        }
        assert forall|i: int| 0 <= i < f1.len() implies type_wf(#[trigger] f1[i].ty) && order_ok(
            f1[i].ty,
            f1[i].order,
        ) && order_ok(f2[i].ty, f2[i].order) && fits(f1[i].ty, dsf[i]) by {
            assert(f1[i] == fs1[i] && f2[i] == fs2[i] && dsf[i] == ds[i]);
        }
        lemma_fields_local(f1, f2, dsf, k);
        assert(f1[k] == fs1[k]);
        lemma_fields_len_prefix(f1, k);
        lemma_fields_len_prefix(f1, k + 1);
    }
}

proof fn lemma_fields_same_len(fs1: Seq<ResolvedField>, fs2: Seq<ResolvedField>)
    requires
        fs1.len() == fs2.len(),
        forall|i: int| 0 <= i < fs1.len() ==> (#[trigger] fs1[i]).ty == fs2[i].ty,
    ensures
        fields_len(fs1) == fields_len(fs2),
        forall|i: int| 0 <= i <= fs1.len() ==> field_offset(fs1, i) == field_offset(fs2, i),
    decreases fs1.len(),
{
    if fs1.len() > 0 {
        let (f1, f2) = (fs1.drop_last(), fs2.drop_last());
        assert forall|i: int| 0 <= i < f1.len() implies (#[trigger] f1[i]).ty == f2[i].ty by {
            assert(f1[i] == fs1[i] && f2[i] == fs2[i]);
        }
        lemma_fields_same_len(f1, f2);
        assert(fs1.last() == fs1[fs1.len() - 1]);
        assert(fs2.last() == fs2[fs2.len() - 1]);
        assert forall|i: int| 0 <= i <= fs1.len() implies field_offset(fs1, i) == field_offset(
            fs2,
            i,
        ) by {
            if i == fs1.len() {
                assert(fs1.subrange(0, i) =~= fs1);
                assert(fs2.subrange(0, i) =~= fs2);
            } else {
                assert(fs1.subrange(0, i) =~= f1.subrange(0, i));
                assert(fs2.subrange(0, i) =~= f2.subrange(0, i));
                assert(field_offset(f1, i) == field_offset(f2, i));
            }
        }
    } else {
        assert forall|i: int| 0 <= i <= fs1.len() implies field_offset(fs1, i) == field_offset(
            fs2,
            i,
        ) by {
            assert(fs1.subrange(0, i) =~= Seq::<ResolvedField>::empty());
            assert(fs2.subrange(0, i) =~= Seq::<ResolvedField>::empty());
        }
    }
}

/// Two declarations that differ at most in the byte-order annotations of
/// field `k`.
pub open spec fn differ_in_annotation(d1: StructDecl, d2: StructDecl, k: int) -> bool {
    &&& d1.name == d2.name
    &&& d1.le == d2.le
    &&& d1.be == d2.be
    &&& d1.fields@.len() == d2.fields@.len()
    &&& 0 <= k < d1.fields@.len()
    &&& forall|i: int| 0 <= i < d1.fields@.len() && i != k ==> d1.fields@[i] == d2.fields@[i]
    &&& d1.fields@[k].name == d2.fields@[k].name
    &&& d1.fields@[k].ty == d2.fields@[k].ty
}

/// Order locality: changing the byte-order annotation of one field changes
/// only that field's bytes. The length and every field's offset stay the
/// same, and every byte outside field `k` is the same.
pub proof fn law_order_locality(
    d1: StructDecl,
    d2: StructDecl,
    k: int,
    fallback: Option<ByteOrder>,
    s1: Schema,
    s2: Schema,
    v: Datum,
)
    requires
        differ_in_annotation(d1, d2, k),
        resolved_from(s1, d1, fallback),
        resolved_from(s2, d2, fallback),
        s1.wf(),
        s2.wf(),
        s1.spec_accepts(v),
    ensures
        s2.spec_accepts(v),
        s1.byte_len == s2.byte_len,
        forall|i: int|
            0 <= i <= s1.fields@.len() ==> field_offset(s1.fields@, i) == field_offset(
                s2.fields@,
                i,
            ),
        forall|j: int|
            0 <= j < s1.byte_len && !(field_offset(s1.fields@, k) <= j < field_offset(s1.fields@, k)
                + type_len(s1.fields@[k].ty)) ==> #[trigger] s1.spec_encode(v)[j]
                == s2.spec_encode(v)[j],
{
    let (fs1, fs2) = (s1.fields@, s2.fields@);
    let ds = items(v);
    assert forall|i: int| 0 <= i < fs1.len() implies (#[trigger] fs1[i]).ty == fs2[i].ty by {
        if i != k {
            assert(d1.fields@[i] == d2.fields@[i]);
        }
    }
    assert forall|i: int| 0 <= i < fs1.len() && i != k implies (#[trigger] fs1[i]).order
        == fs2[i].order by {
        assert(d1.fields@[i] == d2.fields@[i]);
    }
    assert forall|i: int| 0 <= i < fs1.len() implies fits(fs2[i].ty, #[trigger] ds[i]) by {
        assert(fs1[i].ty == fs2[i].ty);
    }
    lemma_fields_same_len(fs1, fs2);
    lemma_fields_local(fs1, fs2, ds, k);
}

/// Self-describing immunity: annotating a field whose type is a nested
/// composite has no effect on the schema's encodings.
pub proof fn law_self_describing_immunity(
    d1: StructDecl,
    d2: StructDecl,
    k: int,
    fallback: Option<ByteOrder>,
    s1: Schema,
    s2: Schema,
    v: Datum,
)
    requires
        differ_in_annotation(d1, d2, k),
        d1.fields@[k].ty is Composite,
        resolved_from(s1, d1, fallback),
        resolved_from(s2, d2, fallback),
        s1.wf(),
        s2.wf(),
    ensures
        s1.byte_len == s2.byte_len,
        s1.spec_encode(v) == s2.spec_encode(v),
{
    let (fs1, fs2) = (s1.fields@, s2.fields@);
    assert forall|i: int| 0 <= i < fs1.len() implies (#[trigger] fs1[i]).ty == fs2[i].ty
        && fs1[i].order == fs2[i].order by {
        if i != k {
            assert(d1.fields@[i] == d2.fields@[i]);
        }
    }
    lemma_fields_same(fs1, fs2, items(v));
}

/// A nested composite ignores any order supplied from outside: its bytes
/// are the same under every order.
pub proof fn law_composite_ignores_order(s: Schema, o1: EffectiveOrder, o2: EffectiveOrder, v: Datum)
    ensures
        enc(TypeDesc::Composite(s), o1, v) == enc(TypeDesc::Composite(s), o2, v),
        enc(TypeDesc::Composite(s), o1, v) == s.spec_encode(v),
{
}

/// Bitfield round trip: for sub-fields that fill at most 128 bits, packing
/// the unpacked sub-fields of a base value gives it back, and unpacking
/// packed values that fit their widths gives them back.
pub proof fn law_bitfield_round_trip(ws: Seq<nat>, x: nat, vs: Seq<u128>)
    requires
        total_bits(ws) <= 128,
    ensures
        x < pow2(total_bits(ws)) ==> pack_bits(ws, unpack_bits(ws, x)) == x,
        fits_widths(ws, vs) ==> unpack_bits(ws, pack_bits(ws, vs)) == vs,
{
    if x < pow2(total_bits(ws)) {
        lemma_pack_unpack(ws, x);
    }
    if fits_widths(ws, vs) {
        lemma_unpack_pack(ws, vs);
    }
}

} // verus!
