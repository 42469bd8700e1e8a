//! Runtime values carried through a schema, and their mathematical model.

use vstd::prelude::*;

verus! {

/// A value laid out by a schema.
///
/// Unsigned integers and floats (as their IEEE-754 bit pattern) are
/// `Unsigned`; signed integers are `Signed`; a nested composite holds its
/// field values in declaration order; an array holds its elements in index
/// order; a bitfield holds its sub-field values in declaration order.
#[derive(Debug, PartialEq, Eq)]
pub enum Value {
    Unsigned(u128),
    Signed(i128),
    Struct(Vec<Value>),
    Array(Vec<Value>),
    Bitfield(Vec<u128>),
}

/// The model of a `Value`: the same tree, with sequences in place of vectors.
pub enum Datum {
    Unsigned(u128),
    Signed(i128),
    Struct(Seq<Datum>),
    Array(Seq<Datum>),
    Bitfield(Seq<u128>),
}

pub open spec fn datum_of(v: Value) -> Datum
    decreases v,
{
    match v {
        Value::Unsigned(x) => Datum::Unsigned(x),
        Value::Signed(x) => Datum::Signed(x),
        Value::Struct(vs) => Datum::Struct(data_of(vs@)),
        Value::Array(vs) => Datum::Array(data_of(vs@)),
        Value::Bitfield(bs) => Datum::Bitfield(bs@),
    }
}

/// The models of a sequence of values, element by element.
pub open spec fn data_of(vs: Seq<Value>) -> Seq<Datum>
    decreases vs,
{
    if vs.len() == 0 {
        Seq::empty()
    } else {
        data_of(vs.drop_last()).push(datum_of(vs.last()))
    }
}

pub proof fn lemma_data_of(vs: Seq<Value>)
    ensures
        data_of(vs).len() == vs.len(),
        forall|i: int| 0 <= i < vs.len() ==> #[trigger] data_of(vs)[i] == datum_of(vs[i]),
    decreases vs.len(),
{
    if vs.len() > 0 {
        lemma_data_of(vs.drop_last());
    }
}

impl View for Value {
    type V = Datum;

    open spec fn view(&self) -> Datum {
        datum_of(*self)
    }
}

} // verus!
