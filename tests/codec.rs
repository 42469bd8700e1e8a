use byte_struct::{
    byte_struct_be_macro_derive, byte_struct_le_macro_derive, byte_struct_macro_derive, pack,
    unpack, ByteStruct, ByteStructLen, ByteStructUnspecifiedByteOrder, CodecError,
    EffectiveOrder, FieldDecl, PrimKind, Schema, SchemaError, StructDecl, SubField, TypeDesc,
    Value,
};

fn field(name: &str, ty: TypeDesc, le: bool, be: bool) -> FieldDecl {
    FieldDecl { name: String::from(name), ty, le, be }
}

fn plain(name: &str, ty: TypeDesc) -> FieldDecl {
    field(name, ty, false, false)
}

fn decl(name: &str, le: bool, be: bool, fields: Vec<FieldDecl>) -> StructDecl {
    StructDecl { name: String::from(name), le, be, fields }
}

fn prim(k: PrimKind) -> TypeDesc {
    TypeDesc::Primitive(k)
}

fn array(e: TypeDesc, n: usize) -> TypeDesc {
    TypeDesc::Array(Box::new(e), n)
}

fn sub(name: &str, bits: u32) -> SubField {
    SubField { name: String::from(name), bits }
}

fn test_bitfield() -> TypeDesc {
    TypeDesc::Bitfield(PrimKind::U16, vec![sub("x", 4), sub("y", 8), sub("z", 4)])
}

fn u(x: u128) -> Value {
    Value::Unsigned(x)
}

fn bits(x: u128, y: u128, z: u128) -> Value {
    Value::Bitfield(vec![x, y, z])
}

fn sub_struct1() -> Schema {
    byte_struct_macro_derive(decl(
        "TestSubStruct1",
        false,
        true,
        vec![plain("b", prim(PrimKind::U16)), plain("c", array(test_bitfield(), 2))],
    ))
    .unwrap()
}

fn sub_struct2() -> Schema {
    byte_struct_macro_derive(decl(
        "TestSubStruct2",
        false,
        false,
        vec![
            field("u", prim(PrimKind::U32), true, false),
            field("v", prim(PrimKind::U16), false, true),
        ],
    ))
    .unwrap()
}

fn sub_struct3() -> Schema {
    byte_struct_macro_derive(decl(
        "TestSubStruct3",
        false,
        false,
        vec![
            plain("s1", TypeDesc::Composite(sub_struct1())),
            plain("s2", TypeDesc::Composite(sub_struct2())),
        ],
    ))
    .unwrap()
}

fn test_struct() -> Schema {
    byte_struct_macro_derive(decl(
        "TestStruct",
        true,
        false,
        vec![
            plain("a", prim(PrimKind::U8)),
            plain("s", TypeDesc::Composite(sub_struct3())),
            plain("d", array(prim(PrimKind::U16), 3)),
            plain("e", prim(PrimKind::U32)),
            plain("f", prim(PrimKind::U64)),
            field("g", prim(PrimKind::U128), false, true),
            plain("h", prim(PrimKind::F32)),
            plain("i", prim(PrimKind::F64)),
        ],
    ))
    .unwrap()
}

fn f32_value(x: f32) -> Value {
    u(x.to_bits() as u128)
}

fn f64_value(x: f64) -> Value {
    u(x.to_bits() as u128)
}

#[test]
fn main() {
    let schema = test_struct();
    assert_eq!(schema.byte_len(), 59);
    let mut data = [0u8; 59];
    let s = Value::Struct(vec![
        u(0x12),
        Value::Struct(vec![
            Value::Struct(vec![
                u(0x3456),
                Value::Array(vec![bits(0xf, 0x8f, 0x7), bits(0x1, 0x23, 0x4)]),
            ]),
            Value::Struct(vec![u(0x90807060), u(0x5040)]),
        ]),
        Value::Array(vec![u(0x1020), u(0x3040), u(0x5060)]),
        u(0x9abcdef0),
        u(0x0123456789ABCDEF),
        u(0xffeeddccbbaa99887766554433221100),
        f32_value(1.2345),
        f64_value(3.14159),
    ]);
    assert_eq!(schema.write_bytes(&s, &mut data[..]), Ok(()));
    assert_eq!(
        &data[..],
        &[
            0x12, 0x34, 0x56, 0x78, 0xff, 0x42, 0x31, 0x60, 0x70, 0x80, 0x90, 0x50, 0x40, 0x20,
            0x10, 0x40, 0x30, 0x60, 0x50, 0xf0, 0xde, 0xbc, 0x9a, 0xef, 0xcd, 0xab, 0x89, 0x67,
            0x45, 0x23, 0x01, 0xff, 0xee, 0xdd, 0xcc, 0xbb, 0xaa, 0x99, 0x88, 0x77, 0x66, 0x55,
            0x44, 0x33, 0x22, 0x11, 0x00, 0x19, 0x04, 0x9e, 0x3f, 0x6e, 0x86, 0x1b, 0xf0, 0xf9,
            0x21, 0x09, 0x40,
        ][..]
    );

    let data = [
        0x00, 0x11, 0x22, 0x33, 0x44, 0x17, 0x28, 0x76, 0x54, 0x32, 0x10, 0xfe, 0xdc, 0x44, 0x55,
        0x66, 0x77, 0x88, 0x99, 0xaa, 0xbb, 0xcc, 0xdd, 0x10, 0x20, 0x30, 0x40, 0x51, 0x61, 0x71,
        0x81, 0x11, 0x12, 0x13, 0x14, 0x25, 0x26, 0x27, 0x28, 0x31, 0x32, 0x33, 0x34, 0x45, 0x46,
        0x47, 0x48, 0xcd, 0xcc, 0xf6, 0x42, 0x58, 0x39, 0xb4, 0xc8, 0x76, 0xbe, 0x05, 0x40,
    ];
    let s = schema.read_bytes(&data[..]).unwrap();
    assert_eq!(
        s,
        Value::Struct(vec![
            u(0x00),
            Value::Struct(vec![
                Value::Struct(vec![
                    u(0x1122),
                    Value::Array(vec![bits(0x4, 0x34, 0x3), bits(0x8, 0x72, 0x1)]),
                ]),
                Value::Struct(vec![u(0x10325476), u(0xfedc)]),
            ]),
            Value::Array(vec![u(0x5544), u(0x7766), u(0x9988)]),
            u(0xddccbbaa),
            u(0x8171615140302010),
            u(0x11121314252627283132333445464748),
            f32_value(123.4),
            f64_value(2.718),
        ])
    );
}

fn scenario_decl(v_be: bool) -> StructDecl {
    decl(
        "Scenario",
        true,
        false,
        vec![
            plain("a", prim(PrimKind::U8)),
            field("b", prim(PrimKind::U16), false, v_be),
            plain("c", array(prim(PrimKind::U16), 3)),
            plain("d", prim(PrimKind::U32)),
        ],
    )
}

fn scenario_value() -> Value {
    Value::Struct(vec![
        u(0x12),
        u(0x3456),
        Value::Array(vec![u(0x1020), u(0x3040), u(0x5060)]),
        u(0x9abcdef0),
    ])
}

#[test]
fn mixed_order_composite_layout() {
    let schema = byte_struct_macro_derive(scenario_decl(true)).unwrap();
    assert_eq!(schema.byte_len(), 13);
    let bytes = schema.encode(&scenario_value()).unwrap();
    assert_eq!(
        bytes,
        vec![0x12, 0x34, 0x56, 0x20, 0x10, 0x40, 0x30, 0x60, 0x50, 0xf0, 0xde, 0xbc, 0x9a]
    );
}

#[test]
fn resolved_orders_follow_precedence() {
    let inner = byte_struct_macro_derive(decl(
        "Inner",
        false,
        false,
        vec![field("x", prim(PrimKind::U16), true, false)],
    ))
    .unwrap();
    let schema = byte_struct_be_macro_derive(decl(
        "Outer",
        false,
        false,
        vec![
            plain("a", prim(PrimKind::U16)),
            field("b", prim(PrimKind::U16), true, false),
            field("c", TypeDesc::Composite(inner), true, false),
        ],
    ))
    .unwrap();
    assert_eq!(schema.fields[0].order, EffectiveOrder::Fixed(byte_struct::ByteOrder::Big));
    assert_eq!(schema.fields[1].order, EffectiveOrder::Fixed(byte_struct::ByteOrder::Little));
    assert_eq!(schema.fields[2].order, EffectiveOrder::OwnLayout);
    assert_eq!(schema.byte_len, 6);
}

#[test]
fn bitfield_packs_lsb_first() {
    let fields = vec![sub("x", 4), sub("y", 8), sub("z", 4)];
    assert_eq!(pack(&fields, &vec![0xf, 0x8f, 0x7]), 0x78ff);
    assert_eq!(unpack(&fields, 0x78ff), vec![0xf, 0x8f, 0x7]);
    assert_eq!(unpack(&fields, pack(&fields, &vec![0xf, 0x8f, 0x7])), vec![0xf, 0x8f, 0x7]);
}

#[test]
fn bitfield_round_trip_every_16_bit_value() {
    let fields = vec![sub("x", 4), sub("y", 8), sub("z", 4)];
    for x in 0u128..=0xffff {
        let parts = unpack(&fields, x);
        assert!(parts[0] < 16 && parts[1] < 256 && parts[2] < 16);
        assert_eq!(pack(&fields, &parts), x);
    }
}

#[test]
fn bitfield_full_width_field() {
    let fields = vec![sub("all", 128)];
    assert_eq!(unpack(&fields, u128::MAX), vec![u128::MAX]);
    assert_eq!(pack(&fields, &vec![u128::MAX]), u128::MAX);
}

#[test]
fn round_trip_of_nested_struct() {
    let schema = test_struct();
    let v = Value::Struct(vec![
        u(0xab),
        Value::Struct(vec![
            Value::Struct(vec![
                u(0xbeef),
                Value::Array(vec![bits(0x1, 0x2, 0x3), bits(0xe, 0xdc, 0xb)]),
            ]),
            Value::Struct(vec![u(0xdeadbeef), u(0x1234)]),
        ]),
        Value::Array(vec![u(1), u(2), u(0xffff)]),
        u(7),
        u(u64::MAX as u128),
        u(1),
        f32_value(-0.5),
        f64_value(1e300),
    ]);
    let bytes = schema.encode(&v).unwrap();
    assert_eq!(bytes.len(), schema.byte_len());
    assert_eq!(schema.read_bytes(&bytes).unwrap(), v);
}

#[test]
fn length_is_sum_of_fields() {
    let schema = test_struct();
    assert_eq!(schema.byte_len(), 1 + (2 + 2 * 2 + 4 + 2) + 3 * 2 + 4 + 8 + 16 + 4 + 8);
    assert_eq!(sub_struct3().byte_len(), 12);
    let arr = array(array(prim(PrimKind::U32), 3), 2);
    assert_eq!(arr.byte_len(), 24);
}

#[test]
fn changing_one_annotation_touches_only_that_field() {
    let little = byte_struct_macro_derive(scenario_decl(false)).unwrap();
    let big = byte_struct_macro_derive(scenario_decl(true)).unwrap();
    let a = little.encode(&scenario_value()).unwrap();
    let b = big.encode(&scenario_value()).unwrap();
    assert_eq!(a.len(), b.len());
    assert_eq!(&a[1..3], &[0x56, 0x34]);
    assert_eq!(&b[1..3], &[0x34, 0x56]);
    assert_eq!(a[0], b[0]);
    assert_eq!(&a[3..], &b[3..]);
}

#[test]
fn annotation_on_nested_composite_has_no_effect() {
    let with_le = byte_struct_macro_derive(decl(
        "Outer",
        false,
        false,
        vec![field("s", TypeDesc::Composite(sub_struct2()), true, false)],
    ))
    .unwrap();
    let with_be = byte_struct_macro_derive(decl(
        "Outer",
        false,
        false,
        vec![field("s", TypeDesc::Composite(sub_struct2()), false, true)],
    ))
    .unwrap();
    let without = byte_struct_macro_derive(decl(
        "Outer",
        false,
        false,
        vec![plain("s", TypeDesc::Composite(sub_struct2()))],
    ))
    .unwrap();
    let v = Value::Struct(vec![Value::Struct(vec![u(0x90807060), u(0x5040)])]);
    let expected = vec![0x60, 0x70, 0x80, 0x90, 0x50, 0x40];
    assert_eq!(with_le.encode(&v).unwrap(), expected);
    assert_eq!(with_be.encode(&v).unwrap(), expected);
    assert_eq!(without.encode(&v).unwrap(), expected);
}

#[test]
fn signed_values_use_twos_complement() {
    let schema = byte_struct_le_macro_derive(decl(
        "Signed",
        false,
        false,
        vec![
            plain("a", prim(PrimKind::I8)),
            plain("b", prim(PrimKind::I16)),
            field("c", prim(PrimKind::I32), false, true),
            plain("d", prim(PrimKind::I128)),
        ],
    ))
    .unwrap();
    let v = Value::Struct(vec![
        Value::Signed(-1),
        Value::Signed(-2),
        Value::Signed(i32::MIN as i128),
        Value::Signed(i128::MIN),
    ]);
    let bytes = schema.encode(&v).unwrap();
    let mut expected = vec![0xff, 0xfe, 0xff, 0x80, 0x00, 0x00, 0x00];
    expected.extend_from_slice(&[0u8; 15]);
    expected.push(0x80);
    assert_eq!(bytes, expected);
    assert_eq!(schema.read_bytes(&bytes).unwrap(), v);
}

#[test]
fn big_endian_float_decodes_with_big_endian_bits() {
    let schema = byte_struct_be_macro_derive(decl(
        "Floats",
        false,
        false,
        vec![plain("h", prim(PrimKind::F32)), plain("i", prim(PrimKind::F64))],
    ))
    .unwrap();
    let v = Value::Struct(vec![f32_value(1.2345), f64_value(3.14159)]);
    let bytes = schema.encode(&v).unwrap();
    assert_eq!(&bytes[0..4], &[0x3f, 0x9e, 0x04, 0x19]);
    assert_eq!(&bytes[4..12], &[0x40, 0x09, 0x21, 0xf9, 0xf0, 0x1b, 0x86, 0x6e]);
    assert_eq!(schema.read_bytes(&bytes).unwrap(), v);
}

#[test]
fn default_order_applies_to_arrays_not_composites() {
    let arr = array(prim(PrimKind::U16), 2);
    let v = Value::Array(vec![u(0x0102), u(0x0304)]);
    let mut le = [0u8; 4];
    let mut be = [0u8; 4];
    assert_eq!(arr.write_bytes_default_le(&v, &mut le[..]), Ok(()));
    assert_eq!(arr.write_bytes_default_be(&v, &mut be[..]), Ok(()));
    assert_eq!(le, [0x02, 0x01, 0x04, 0x03]);
    assert_eq!(be, [0x01, 0x02, 0x03, 0x04]);
    assert_eq!(arr.read_bytes_default_le(&le[..]).unwrap(), v);
    assert_eq!(arr.read_bytes_default_be(&be[..]).unwrap(), v);

    let s = sub_struct2();
    let w = Value::Struct(vec![u(0x90807060), u(0x5040)]);
    let mut a = [0u8; 6];
    let mut b = [0u8; 6];
    assert_eq!(s.write_bytes_default_le(&w, &mut a[..]), Ok(()));
    assert_eq!(s.write_bytes_default_be(&w, &mut b[..]), Ok(()));
    assert_eq!(a, b);
    assert_eq!(s.read_bytes_default_be(&a[..]).unwrap(), w);
    assert_eq!(s.read_bytes_default_le(&a[..]).unwrap(), w);
}

#[test]
fn conflicting_container_annotations_are_refused() {
    let r = byte_struct_macro_derive(decl("X", true, true, vec![plain("a", prim(PrimKind::U8))]));
    assert_eq!(r.err(), Some(SchemaError::ConflictingOrder));
}

#[test]
fn conflicting_field_annotations_are_refused() {
    let r = byte_struct_le_macro_derive(decl(
        "X",
        false,
        false,
        vec![plain("a", prim(PrimKind::U8)), field("b", prim(PrimKind::U16), true, true)],
    ));
    assert_eq!(r.err(), Some(SchemaError::ConflictingFieldOrder(1)));
}

#[test]
fn field_without_order_is_refused() {
    let r = byte_struct_macro_derive(decl(
        "X",
        false,
        false,
        vec![field("a", prim(PrimKind::U8), true, false), plain("b", prim(PrimKind::U16))],
    ));
    assert_eq!(r.err(), Some(SchemaError::MissingOrder(1)));
    let r = byte_struct_macro_derive(decl(
        "X",
        false,
        false,
        vec![plain("a", array(TypeDesc::Composite(sub_struct2()), 2))],
    ));
    assert_eq!(r.err(), Some(SchemaError::MissingOrder(0)));
}

#[test]
fn bitfield_width_mismatch_is_refused() {
    let short = TypeDesc::Bitfield(PrimKind::U16, vec![sub("x", 4), sub("y", 8)]);
    let r = byte_struct_le_macro_derive(decl("X", false, false, vec![plain("a", short)]));
    assert_eq!(r.err(), Some(SchemaError::InvalidType(0)));
    let signed = TypeDesc::Bitfield(PrimKind::I8, vec![sub("x", 8)]);
    let r = byte_struct_le_macro_derive(decl("X", false, false, vec![plain("a", signed)]));
    assert_eq!(r.err(), Some(SchemaError::InvalidType(0)));
}

#[test]
fn oversized_layout_is_refused() {
    let huge = array(prim(PrimKind::U64), usize::MAX / 4);
    let r = byte_struct_le_macro_derive(decl("X", false, false, vec![plain("a", huge)]));
    assert_eq!(r.err(), Some(SchemaError::InvalidType(0)));
    let half = usize::MAX / 2 + 1;
    let r = byte_struct_le_macro_derive(decl(
        "X",
        false,
        false,
        vec![plain("a", array(prim(PrimKind::U8), half)), plain("b", array(prim(PrimKind::U8), half))],
    ));
    assert_eq!(r.err(), Some(SchemaError::TooLarge));
}

#[test]
fn wrong_buffer_length_is_refused_untouched() {
    let schema = byte_struct_macro_derive(scenario_decl(true)).unwrap();
    let mut short = [0xaau8; 12];
    assert_eq!(
        schema.write_bytes(&scenario_value(), &mut short[..]),
        Err(CodecError::BufferLength { expected: 13, actual: 12 })
    );
    assert_eq!(short, [0xaau8; 12]);
    let mut long = [0xaau8; 14];
    assert_eq!(
        schema.write_bytes(&scenario_value(), &mut long[..]),
        Err(CodecError::BufferLength { expected: 13, actual: 14 })
    );
    assert_eq!(long, [0xaau8; 14]);
    assert_eq!(
        schema.read_bytes(&short[..]),
        Err(CodecError::BufferLength { expected: 13, actual: 12 })
    );
}

#[test]
fn value_out_of_range_is_refused_untouched() {
    let schema = byte_struct_macro_derive(scenario_decl(true)).unwrap();
    let mut buf = [0x55u8; 13];
    let too_big = Value::Struct(vec![
        u(0x100),
        u(0x3456),
        Value::Array(vec![u(0x1020), u(0x3040), u(0x5060)]),
        u(0x9abcdef0),
    ]);
    assert_eq!(schema.write_bytes(&too_big, &mut buf[..]), Err(CodecError::ValueMismatch));
    assert_eq!(buf, [0x55u8; 13]);
    let wrong_shape = Value::Struct(vec![u(1), u(2)]);
    assert_eq!(schema.write_bytes(&wrong_shape, &mut buf[..]), Err(CodecError::ValueMismatch));
    assert_eq!(schema.encode(&wrong_shape), Err(CodecError::ValueMismatch));

    let bf = byte_struct_le_macro_derive(decl("B", false, false, vec![plain("f", test_bitfield())]))
        .unwrap();
    let wide = Value::Struct(vec![bits(0x10, 0, 0)]);
    assert_eq!(bf.encode(&wide), Err(CodecError::ValueMismatch));
    let ok = Value::Struct(vec![bits(0xf, 0x8f, 0x7)]);
    assert_eq!(bf.encode(&ok).unwrap(), vec![0xff, 0x78]);
}

#[test]
fn empty_struct_has_no_bytes() {
    let schema = byte_struct_macro_derive(decl("Empty", false, false, vec![])).unwrap();
    assert_eq!(schema.byte_len(), 0);
    assert_eq!(schema.encode(&Value::Struct(vec![])).unwrap(), Vec::<u8>::new());
    assert_eq!(schema.read_bytes(&[]).unwrap(), Value::Struct(vec![]));
}
