//! Encoding and decoding of values by type, and the round-trip property.
//!
//! A composite is the concatenation of its fields in declaration order, each
//! encoded with its effective order; an array is the concatenation of its
//! elements in index order; a primitive or bitfield is its (packed) number in
//! the order the container supplies.

use vstd::prelude::*;
use vstd::arithmetic::power2::pow2;
use crate::primitive::{
    PrimKind, ordered_bytes, ordered_value, twos_complement, from_twos_complement,
    signed_fits, lemma_ordered_round_trip, lemma_twos_round_trip, encode_uint, decode_uint,
    to_twos_complement, from_twos_complement_bits, fits_unsigned, fits_signed,
};
use crate::bitfield::{
    widths_of, fits_widths, pack_bits, unpack_bits, lemma_pack_bound, lemma_unpack_pack, pack,
    unpack, values_fit,
};
use crate::value::{Value, Datum, datum_of, data_of, lemma_data_of};
use crate::schema::{
    TypeDesc, EffectiveOrder, ResolvedField, Schema, type_len, fields_len, type_wf, order_ok,
    type_byte_len, lemma_fields_len_prefix,
};

verus! {

broadcast use vstd::std_specs::vec::group_vec_axioms;

/// The elements of an array value or the fields of a composite value.
pub open spec fn items(d: Datum) -> Seq<Datum> {
    match d {
        Datum::Struct(ds) => ds,
        Datum::Array(ds) => ds,
        _ => Seq::empty(),
    }
}

/// The bit pattern a primitive value stands for.
pub open spec fn prim_bits(k: PrimKind, d: Datum) -> nat {
    match d {
        Datum::Unsigned(x) => x as nat,
        Datum::Signed(x) => twos_complement(x as int, k.spec_bit_width()),
        _ => 0,
    }
}

/// The primitive value a bit pattern stands for.
pub open spec fn prim_datum(k: PrimKind, b: nat) -> Datum {
    if k.spec_is_signed() {
        Datum::Signed(from_twos_complement(b, k.spec_bit_width()) as i128)
    } else {
        Datum::Unsigned(b as u128)
    }
}

/// `d` is a value of type `t`: the right shape, every number within its
/// kind's range, every bitfield sub-value within its width.
pub open spec fn fits(t: TypeDesc, d: Datum) -> bool
    decreases t,
{
    match t {
        TypeDesc::Primitive(k) => if k.spec_is_signed() {
            d is Signed && signed_fits(d->Signed_0 as int, k.spec_bit_width())
        } else {
            d is Unsigned && d->Unsigned_0 < pow2(k.spec_bit_width())
        },
        TypeDesc::Bitfield(_, fs) => d is Bitfield && fits_widths(widths_of(fs@), d->Bitfield_0),
        TypeDesc::Array(e, n) => {
            &&& d is Array
            &&& items(d).len() == n
            &&& forall|i: int| 0 <= i < n ==> fits(*e, #[trigger] items(d)[i])
        },
        TypeDesc::Composite(s) => {
            &&& d is Struct
            &&& items(d).len() == s.fields@.len()
            &&& forall|i: int|
                0 <= i < s.fields@.len() ==> fits(s.fields@[i].ty, #[trigger] items(d)[i])
        },
    }
}

/// The bytes of `d` as a value of type `t` under order `o`.
pub open spec fn enc(t: TypeDesc, o: EffectiveOrder, d: Datum) -> Seq<u8>
    decreases t, 0nat,
{
    match t {
        TypeDesc::Primitive(k) => match o {
            EffectiveOrder::Fixed(bo) => ordered_bytes(prim_bits(k, d), k.spec_byte_len(), bo),
            EffectiveOrder::OwnLayout => Seq::empty(),
        },
        TypeDesc::Bitfield(k, fs) => match o {
            EffectiveOrder::Fixed(bo) => match d {
                Datum::Bitfield(vs) => ordered_bytes(
                    pack_bits(widths_of(fs@), vs),
                    k.spec_byte_len(),
                    bo,
                ),
                _ => Seq::empty(),
            },
            EffectiveOrder::OwnLayout => Seq::empty(),
        },
        TypeDesc::Array(e, _) => enc_items(*e, o, items(d)),
        TypeDesc::Composite(s) => enc_fields(s.fields@, items(d)),
    }
}

/// The elements' bytes, back to back in index order.
pub open spec fn enc_items(e: TypeDesc, o: EffectiveOrder, ds: Seq<Datum>) -> Seq<u8>
    decreases e, ds.len() + 1,
{
    if ds.len() == 0 {
        Seq::empty()
    } else {
        enc_items(e, o, ds.drop_last()) + enc(e, o, ds.last())
    }
}

/// The fields' bytes, back to back in declaration order, each under its
/// effective order.
pub open spec fn enc_fields(fs: Seq<ResolvedField>, ds: Seq<Datum>) -> Seq<u8>
    decreases fs, 0nat,
{
    if fs.len() == 0 {
        Seq::empty()
    } else {
        let k = fs.len() - 1;
        enc_fields(fs.drop_last(), ds.subrange(0, k)) + enc(fs.last().ty, fs.last().order, ds[k])
    }
}

/// The value of type `t` that the bytes `b` hold under order `o`.
pub open spec fn dec(t: TypeDesc, o: EffectiveOrder, b: Seq<u8>) -> Datum
    decreases t, 0nat,
{
    match t {
        TypeDesc::Primitive(k) => match o {
            EffectiveOrder::Fixed(bo) => prim_datum(k, ordered_value(b, bo)),
            EffectiveOrder::OwnLayout => Datum::Unsigned(0),
        },
        TypeDesc::Bitfield(_, fs) => match o {
            EffectiveOrder::Fixed(bo) => Datum::Bitfield(
                unpack_bits(widths_of(fs@), ordered_value(b, bo)),
            ),
            EffectiveOrder::OwnLayout => Datum::Bitfield(Seq::empty()),
        },
        TypeDesc::Array(e, n) => Datum::Array(dec_items(*e, o, b, n as nat)),
        TypeDesc::Composite(s) => Datum::Struct(dec_fields(s.fields@, b)),
    }
}

/// `n` elements read back to back: element `i` from bytes `i * len` to
/// `(i + 1) * len`.
pub open spec fn dec_items(e: TypeDesc, o: EffectiveOrder, b: Seq<u8>, n: nat) -> Seq<Datum>
    decreases e, n + 1,
{
    if n == 0 {
        Seq::empty()
    } else {
        let l = type_len(e);
        let at = (n - 1) * l;
        dec_items(e, o, b.subrange(0, at), (n - 1) as nat).push(dec(e, o, b.subrange(at, at + l)))
    }
}

/// The fields read back to back: field `i` from its offset, the sum of the
/// lengths before it.
pub open spec fn dec_fields(fs: Seq<ResolvedField>, b: Seq<u8>) -> Seq<Datum>
    decreases fs, 0nat,
{
    if fs.len() == 0 {
        Seq::empty()
    } else {
        let at = fields_len(fs.drop_last()) as int;
        dec_fields(fs.drop_last(), b.subrange(0, at)).push(
            dec(fs.last().ty, fs.last().order, b.subrange(at, at + type_len(fs.last().ty))),
        )
    }
}

/// Decoding the encoding of a value of a well-formed type gives the value
/// back, and the encoding is exactly as long as the type.
pub proof fn lemma_enc_dec(t: TypeDesc, o: EffectiveOrder, d: Datum)
    requires
        type_wf(t),
        order_ok(t, o),
        fits(t, d),
    ensures
        enc(t, o, d).len() == type_len(t),
        dec(t, o, enc(t, o, d)) == d,
    decreases t, 0nat,
{
    match t {
        TypeDesc::Primitive(k) => {
            let bo = o->Fixed_0;
            if k.spec_is_signed() {
                lemma_twos_round_trip(d->Signed_0 as int, k.spec_bit_width());
            }
            lemma_ordered_round_trip(prim_bits(k, d), k.spec_byte_len(), bo);
        },
        TypeDesc::Bitfield(k, fs) => {
            let bo = o->Fixed_0;
            let ws = widths_of(fs@);
            let vs = d->Bitfield_0;
            lemma_pack_bound(ws, vs);
            lemma_ordered_round_trip(pack_bits(ws, vs), k.spec_byte_len(), bo);
            lemma_unpack_pack(ws, vs);
        },
        TypeDesc::Array(e, n) => {
            lemma_items_round_trip(*e, o, items(d));
            assert(d == Datum::Array(items(d)));
        },
        TypeDesc::Composite(s) => {
            lemma_fields_round_trip(s.fields@, items(d));
            assert(d == Datum::Struct(items(d)));
        },
    }
}

pub proof fn lemma_items_round_trip(e: TypeDesc, o: EffectiveOrder, ds: Seq<Datum>)
    requires
        type_wf(e),
        order_ok(e, o),
        forall|i: int| 0 <= i < ds.len() ==> fits(e, #[trigger] ds[i]),
    ensures
        enc_items(e, o, ds).len() == ds.len() * type_len(e),
        dec_items(e, o, enc_items(e, o, ds), ds.len()) == ds,
    decreases e, ds.len() + 1,
{
    if ds.len() > 0 {
        let l = type_len(e);
        let n = ds.len();
        let front = ds.drop_last();
        lemma_items_round_trip(e, o, front);
        lemma_enc_dec(e, o, ds.last());
        let b = enc_items(e, o, ds);
        let at = (n - 1) * l;
        assert(n * l == (n - 1) * l + l) by (nonlinear_arith);
        assert(b.subrange(0, at) =~= enc_items(e, o, front));
        assert(b.subrange(at, at + l) =~= enc(e, o, ds.last()));
        assert(dec_items(e, o, b, n) =~= ds);
    }
}

pub proof fn lemma_fields_round_trip(fs: Seq<ResolvedField>, ds: Seq<Datum>)
    requires
        ds.len() == fs.len(),
        forall|i: int|
            0 <= i < fs.len() ==> type_wf(#[trigger] fs[i].ty) && order_ok(fs[i].ty, fs[i].order),
        forall|i: int| 0 <= i < fs.len() ==> fits(fs[i].ty, #[trigger] ds[i]),
    ensures
        enc_fields(fs, ds).len() == fields_len(fs),
        dec_fields(fs, enc_fields(fs, ds)) == ds,
    decreases fs, 0nat,
{
    if fs.len() > 0 {
        let k = fs.len() - 1;
        let (front, dfront) = (fs.drop_last(), ds.subrange(0, k));
        assert forall|i: int| 0 <= i < front.len() implies type_wf(#[trigger] front[i].ty) && order_ok(
            front[i].ty,
            front[i].order,
        ) by {
            assert(front[i] == fs[i]);
        }
        assert forall|i: int| 0 <= i < front.len() implies fits(front[i].ty, #[trigger] dfront[i]) by {
            assert(front[i] == fs[i]);
            assert(dfront[i] == ds[i]);
        }
        lemma_fields_round_trip(front, dfront);
        assert(fs.last() == fs[k]);
        lemma_enc_dec(fs[k].ty, fs[k].order, ds[k]);
        let b = enc_fields(fs, ds);
        let at = fields_len(front) as int;
        assert(b.subrange(0, at) =~= enc_fields(front, dfront));
        assert(b.subrange(at, at + type_len(fs.last().ty)) =~= enc(fs[k].ty, fs[k].order, ds[k]));
        assert(dec_fields(fs, b) =~= ds);
    }
}

/// Whether `v` is a value of type `t`.
pub fn value_fits(t: &TypeDesc, v: &Value) -> (r: bool)
    requires
        type_wf(*t),
    ensures
        r == fits(*t, v@),
    decreases t,
{
    match t {
        TypeDesc::Primitive(k) => {
            let n = k.byte_len();
            if k.is_signed() {
                match v {
                    Value::Signed(x) => fits_signed(*x, n),
                    _ => false,
                }
            } else {
                match v {
                    Value::Unsigned(x) => fits_unsigned(*x, n),
                    _ => false,
                }
            }
        },
        TypeDesc::Bitfield(_, fields) => match v {
            Value::Bitfield(vals) => values_fit(fields, vals),
            _ => false,
        },
        TypeDesc::Array(e, n) => match v {
            Value::Array(vs) => {
                proof {
                    lemma_data_of(vs@);
                }
                if vs.len() != *n {
                    return false;
                }
                let mut i: usize = 0;
                while i < *n
                    invariant
                        i <= *n,
                        vs@.len() == *n,
                        *t == TypeDesc::Array(*e, *n),
                        *v == Value::Array(*vs),
                        type_wf(**e),
                        data_of(vs@).len() == vs@.len(),
                        forall|j: int| 0 <= j < vs@.len() ==> #[trigger] data_of(vs@)[j] == datum_of(vs@[j]),
                        forall|j: int| 0 <= j < i ==> fits(**e, #[trigger] data_of(vs@)[j]),
                    decreases *n - i,
                {
                    proof {
                        assert(decreases_to!(*t => (*t)->Array_0));
                    }
                    if !value_fits(e, &vs[i]) {
                        assert(v@ == Datum::Array(data_of(vs@)));
                        assert(items(v@)[i as int] == vs@[i as int]@);
                        return false;
                    }
                    i = i + 1;
                }
                true
            },
            _ => false,
        },
        TypeDesc::Composite(s) => {
            proof {
                assert(decreases_to!(*t => (*t)->Composite_0));
            }
            fits_struct(s, v)
        },
    }
}

/// Whether `v` is a value of the composite `s`.
pub fn fits_struct(s: &Schema, v: &Value) -> (r: bool)
    requires
        s.wf(),
    ensures
        r == fits(TypeDesc::Composite(*s), v@),
    decreases s,
{
    match v {
        Value::Struct(vs) => {
            let ghost fs = s.fields@;
            proof {
                lemma_data_of(vs@);
            }
            let n = s.fields.len();
            if vs.len() != n {
                return false;
            }
            let mut i: usize = 0;
            while i < n
                invariant
                    i <= n,
                    n == fs.len(),
                    fs == s.fields@,
                    vs@.len() == n,
                    *v == Value::Struct(*vs),
                    s.wf(),
                    data_of(vs@).len() == vs@.len(),
                    forall|j: int| 0 <= j < vs@.len() ==> #[trigger] data_of(vs@)[j] == datum_of(vs@[j]),
                    forall|j: int| 0 <= j < i ==> fits(fs[j].ty, #[trigger] data_of(vs@)[j]),
                decreases n - i,
            {
                proof {
                    assert(decreases_to!(*s => s.fields));
                    assert(decreases_to!(s.fields => s.fields@));
                    assert(decreases_to!(s.fields@ => s.fields@[i as int]));
                    assert(decreases_to!(s.fields@[i as int] => s.fields@[i as int].ty));
                    assert(type_wf(fs[i as int].ty));
                }
                if !value_fits(&s.fields[i].ty, &vs[i]) {
                    assert(v@ == Datum::Struct(data_of(vs@)));
                    assert(items(v@)[i as int] == vs@[i as int]@);
                    return false;
                }
                i = i + 1;
            }
            true
        },
        _ => false,
    }
}

/// Appends the bytes of `v`, a value of type `t`, under order `o`.
pub fn encode_value(t: &TypeDesc, o: EffectiveOrder, v: &Value, out: &mut Vec<u8>)
    requires
        type_wf(*t),
        order_ok(*t, o),
        fits(*t, v@),
    ensures
        final(out)@ == old(out)@ + enc(*t, o, v@),
    decreases t,
{
    match t {
        TypeDesc::Primitive(k) => match o {
            EffectiveOrder::Fixed(bo) => {
                let n = k.byte_len();
                let bits: u128 = match v {
                    Value::Signed(x) => to_twos_complement(*x, n),
                    Value::Unsigned(x) => *x,
                    _ => 0,
                };
                proof {
                    if k.spec_is_signed() {
                        lemma_twos_round_trip(v@->Signed_0 as int, k.spec_bit_width());
                    }
                }
                encode_uint(bits, n, bo, out);
            },
            EffectiveOrder::OwnLayout => {
                assert(old(out)@ + enc(*t, o, v@) =~= old(out)@);
            },
        },
        TypeDesc::Bitfield(k, fields) => match o {
            EffectiveOrder::Fixed(bo) => match v {
                Value::Bitfield(vals) => {
                    let raw = pack(fields, vals);
                    proof {
                        lemma_pack_bound(widths_of(fields@), vals@);
                    }
                    encode_uint(raw, k.byte_len(), bo, out);
                },
                _ => {},
            },
            EffectiveOrder::OwnLayout => {
                assert(old(out)@ + enc(*t, o, v@) =~= old(out)@);
            },
        },
        TypeDesc::Array(e, n) => match v {
            Value::Array(vs) => {
                let ghost ds = data_of(vs@);
                let ghost start = out@;
                proof {
                    lemma_data_of(vs@);
                }
                let len = vs.len();
                let mut i: usize = 0;
                assert(ds.subrange(0, 0) =~= Seq::<Datum>::empty());
                assert(out@ =~= start + enc_items(**e, o, ds.subrange(0, 0)));
                while i < len
                    invariant
                        i <= len,
                        len == vs@.len(),
                        ds == data_of(vs@),
                        ds.len() == len,
                        forall|j: int| 0 <= j < vs@.len() ==> #[trigger] ds[j] == datum_of(vs@[j]),
                        *t == TypeDesc::Array(*e, *n),
                        type_wf(*t),
                        order_ok(*t, o),
                        fits(*t, v@),
                        v@ == Datum::Array(ds),
                        out@ == start + enc_items(**e, o, ds.subrange(0, i as int)),
                    decreases len - i,
                {
                    assert(fits(**e, ds[i as int]));
                    encode_value(e, o, &vs[i], out);
                    assert(ds.subrange(0, i + 1).drop_last() =~= ds.subrange(0, i as int));
                    i = i + 1;
                    assert(out@ =~= start + enc_items(**e, o, ds.subrange(0, i as int)));
                }
                assert(ds.subrange(0, len as int) =~= ds);
            },
            _ => {},
        },
        TypeDesc::Composite(s) => {
            proof {
                assert(decreases_to!(*t => (*t)->Composite_0));
            }
            encode_struct(s, v, out)
        },
    }
}

/// Appends the bytes of `v`, a value of the composite `s`: its fields in
/// declaration order, each under its effective order.
pub fn encode_struct(s: &Schema, v: &Value, out: &mut Vec<u8>)
    requires
        s.wf(),
        fits(TypeDesc::Composite(*s), v@),
    ensures
        final(out)@ == old(out)@ + enc(TypeDesc::Composite(*s), EffectiveOrder::OwnLayout, v@),
    decreases s,
{
    match v {
        Value::Struct(vs) => {
            let ghost fs = s.fields@;
            let ghost ds = data_of(vs@);
            let ghost start = out@;
            proof {
                lemma_data_of(vs@);
            }
            let n = s.fields.len();
            let mut i: usize = 0;
            assert(out@ =~= start + enc_fields(fs.subrange(0, 0), ds.subrange(0, 0)));
            while i < n
                invariant
                    i <= n,
                    n == fs.len(),
                    fs == s.fields@,
                    ds == data_of(vs@),
                    ds.len() == n,
                    vs@.len() == n,
                    forall|j: int| 0 <= j < vs@.len() ==> #[trigger] ds[j] == datum_of(vs@[j]),
                    s.wf(),
                    fits(TypeDesc::Composite(*s), v@),
                    v@ == Datum::Struct(ds),
                    out@ == start + enc_fields(fs.subrange(0, i as int), ds.subrange(0, i as int)),
                decreases n - i,
            {
                proof {
                    assert(decreases_to!(*s => s.fields));
                    assert(decreases_to!(s.fields => s.fields@));
                    assert(decreases_to!(s.fields@ => s.fields@[i as int]));
                    assert(decreases_to!(s.fields@[i as int] => s.fields@[i as int].ty));
                    assert(type_wf(fs[i as int].ty));
                    assert(fits(fs[i as int].ty, ds[i as int]));
                }
                let f = &s.fields[i];
                encode_value(&f.ty, f.order, &vs[i], out);
                let ghost (fi, di) = (fs.subrange(0, i + 1), ds.subrange(0, i + 1));
                assert(fi.drop_last() =~= fs.subrange(0, i as int));
                assert(di.subrange(0, i as int) =~= ds.subrange(0, i as int));
                i = i + 1;
                assert(out@ =~= start + enc_fields(fs.subrange(0, i as int), ds.subrange(0, i as int)));
            }
            assert(fs.subrange(0, n as int) =~= fs);
            assert(ds.subrange(0, n as int) =~= ds);
        },
        _ => {},
    }
}

/// Reads a value of type `t` under order `o` from the bytes at `start`.
pub fn decode_value(t: &TypeDesc, o: EffectiveOrder, bytes: &[u8], start: usize) -> (r: Value)
    requires
        type_wf(*t),
        start + type_len(*t) <= bytes@.len(),
    ensures
        r@ == dec(*t, o, bytes@.subrange(start as int, start + type_len(*t))),
    decreases t,
{
    let total: usize = bytes.len();
    match t {
        TypeDesc::Primitive(k) => match o {
            EffectiveOrder::Fixed(bo) => {
                let n = k.byte_len();
                let b = decode_uint(bytes, start, n, bo);
                if k.is_signed() {
                    Value::Signed(from_twos_complement_bits(b, n))
                } else {
                    Value::Unsigned(b)
                }
            },
            EffectiveOrder::OwnLayout => Value::Unsigned(0),
        },
        TypeDesc::Bitfield(k, fields) => match o {
            EffectiveOrder::Fixed(bo) => {
                let raw = decode_uint(bytes, start, k.byte_len(), bo);
                Value::Bitfield(unpack(fields, raw))
            },
            EffectiveOrder::OwnLayout => Value::Bitfield(Vec::new()),
        },
        TypeDesc::Array(e, n) => {
            let l = type_byte_len(e);
            let ghost bb = bytes@.subrange(start as int, start + type_len(*t));
            let mut out: Vec<Value> = Vec::new();
            let mut i: usize = 0;
            assert(bb.subrange(0, 0) =~= Seq::<u8>::empty());
            while i < *n
                invariant
                    i <= *n,
                    *t == TypeDesc::Array(*e, *n),
                    type_wf(*t),
                    l == type_len(**e),
                    total == bytes@.len(),
                    start + *n * l <= total,
                    bb == bytes@.subrange(start as int, start + *n * l),
                    data_of(out@) == dec_items(**e, o, bb.subrange(0, i * l), i as nat),
                decreases *n - i,
            {
                proof {
                    assert(i * l + l <= *n * l) by (nonlinear_arith)
                        requires i < *n;
                }
                let x = decode_value(e, o, bytes, start + i * l);
                let ghost prev = out@;
                out.push(x);
                proof {
                    let c = bb.subrange(0, (i + 1) * l);
                    assert((i + 1) * l == i * l + l) by (nonlinear_arith);
                    assert(c.subrange(0, i * l) =~= bb.subrange(0, i * l));
                    assert(c.subrange(i * l, i * l + l) =~= bytes@.subrange(
                        start + i * l,
                        start + i * l + l,
                    ));
                    assert(out@.drop_last() =~= prev);
                }
                i = i + 1;
            }
            assert(bb.subrange(0, *n * l) =~= bb);
            Value::Array(out)
        },
        TypeDesc::Composite(s) => {
            proof {
                assert(decreases_to!(*t => (*t)->Composite_0));
            }
            decode_struct(s, bytes, start)
        },
    }
}

/// Reads a value of the composite `s` from the bytes at `start`: each field
/// at its offset, under its effective order.
pub fn decode_struct(s: &Schema, bytes: &[u8], start: usize) -> (r: Value)
    requires
        s.wf(),
        start + s.byte_len <= bytes@.len(),
    ensures
        r@ == dec(
            TypeDesc::Composite(*s),
            EffectiveOrder::OwnLayout,
            bytes@.subrange(start as int, start + s.byte_len),
        ),
    decreases s,
{
    let total: usize = bytes.len();
    let ghost fs = s.fields@;
    let ghost bb = bytes@.subrange(start as int, start + s.byte_len);
    let n = s.fields.len();
    let mut out: Vec<Value> = Vec::new();
    let mut cur: usize = start;
    let mut i: usize = 0;
    assert(fs.subrange(0, 0) =~= Seq::<ResolvedField>::empty());
    while i < n
        invariant
            i <= n,
            n == fs.len(),
            fs == s.fields@,
            s.wf(),
            total == bytes@.len(),
            start + fields_len(fs) <= total,
            bb == bytes@.subrange(start as int, start + fields_len(fs)),
            cur == start + fields_len(fs.subrange(0, i as int)),
            data_of(out@) == dec_fields(
                fs.subrange(0, i as int),
                bb.subrange(0, fields_len(fs.subrange(0, i as int)) as int),
            ),
        decreases n - i,
    {
        proof {
            assert(decreases_to!(*s => s.fields));
            assert(decreases_to!(s.fields => s.fields@));
            assert(decreases_to!(s.fields@ => s.fields@[i as int]));
            assert(decreases_to!(s.fields@[i as int] => s.fields@[i as int].ty));
            assert(type_wf(fs[i as int].ty));
            lemma_fields_len_prefix(fs, i as int);
            lemma_fields_len_prefix(fs, i + 1);
        }
        let f = &s.fields[i];
        let l = type_byte_len(&f.ty);
        let x = decode_value(&f.ty, f.order, bytes, cur);
        let ghost prev = out@;
        out.push(x);
        proof {
            let a = fields_len(fs.subrange(0, i as int)) as int;
            let fi = fs.subrange(0, i + 1);
            assert(fi.drop_last() =~= fs.subrange(0, i as int));
            assert(fi.last() == fs[i as int]);
            let c = bb.subrange(0, a + l);
            assert(c.subrange(0, a) =~= bb.subrange(0, a));
            assert(c.subrange(a, a + l) =~= bytes@.subrange(cur as int, cur + l));
            assert(out@.drop_last() =~= prev);
        }
        cur = cur + l;
        i = i + 1;
    }
    assert(fs.subrange(0, n as int) =~= fs);
    assert(bb.subrange(0, fields_len(fs) as int) =~= bb);
    Value::Struct(out)
}

} // verus!
