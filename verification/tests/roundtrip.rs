//! Round trips for every composite shape: decoding an encoding yields the
//! original value.

use io_self::codec::{from_bytes, to_bytes};
use io_self::hooks::{NoHooks, RawU64Hooks};
use io_self::schema::{Endian, Field, FieldOpts, Opts, PrimKind, TypeDescriptor, Variant,
    VariantOpts};
use io_self::value::{value_eq, Value};

fn plain() -> FieldOpts {
    FieldOpts { length_prefix: None, endian: None, custom_codec: None }
}

fn field(ty: TypeDescriptor) -> Field {
    Field { ty, opts: plain() }
}

fn round_trips(desc: &TypeDescriptor, value: &Value) {
    let bytes = to_bytes(&NoHooks {}, desc, value).unwrap();
    let back = from_bytes(&NoHooks {}, desc, bytes).unwrap();
    assert!(value_eq(value, &back));
}

#[test]
fn primitives_round_trip_both_orders() {
    for endian in [Endian::Little, Endian::Big] {
        let cases: Vec<(PrimKind, Value)> = vec![
            (PrimKind::U8, Value::U8(0xAB)),
            (PrimKind::I8, Value::I8(-5)),
            (PrimKind::U16, Value::U16(0xBEEF)),
            (PrimKind::I16, Value::I16(-2)),
            (PrimKind::U32, Value::U32(0xDEAD_BEEF)),
            (PrimKind::I32, Value::I32(i32::MIN)),
            (PrimKind::U64, Value::U64(u64::MAX - 1)),
            (PrimKind::I64, Value::I64(i64::MIN)),
            (PrimKind::U128, Value::U128(u128::MAX - 7)),
            (PrimKind::I128, Value::I128(i128::MIN)),
            (PrimKind::I128, Value::I128(i128::MAX)),
            (PrimKind::I64, Value::I64(7)),
        ];
        for (kind, value) in cases {
            let desc = TypeDescriptor::Struct(
                Opts { endian: Some(endian), tag: None, length_prefix: None },
                vec![field(TypeDescriptor::Primitive(kind))],
            );
            round_trips(&desc, &Value::List(vec![value]));
        }
    }
}

#[test]
fn nested_struct_round_trip() {
    let inner = TypeDescriptor::Struct(
        Opts { endian: Some(Endian::Little), tag: None, length_prefix: None },
        vec![field(TypeDescriptor::Primitive(PrimKind::U16))],
    );
    let outer = TypeDescriptor::Struct(
        Opts { endian: Some(Endian::Big), tag: None, length_prefix: None },
        vec![field(TypeDescriptor::Primitive(PrimKind::U8)), field(inner)],
    );
    let value = Value::List(vec![
        Value::U8(1),
        Value::List(vec![Value::U16(0x0203)]),
    ]);
    round_trips(&outer, &value);
    // the nested struct keeps its own little-endian order
    let bytes = to_bytes(&NoHooks {}, &outer, &value).unwrap();
    assert_eq!(bytes, vec![0x01, 0x03, 0x02]);
}

#[test]
fn tuple_round_trip() {
    let desc = TypeDescriptor::Struct(
        Opts { endian: Some(Endian::Big), tag: None, length_prefix: None },
        vec![field(TypeDescriptor::Tuple(vec![
            TypeDescriptor::Primitive(PrimKind::U8),
            TypeDescriptor::Primitive(PrimKind::U32),
        ]))],
    );
    let value = Value::List(vec![Value::List(vec![Value::U8(7), Value::U32(44)])]);
    round_trips(&desc, &value);
}

#[test]
fn fixed_array_of_structs_round_trip() {
    let elem = TypeDescriptor::Struct(
        Opts { endian: Some(Endian::Big), tag: None, length_prefix: None },
        vec![field(TypeDescriptor::Primitive(PrimKind::U16))],
    );
    let desc = TypeDescriptor::FixedArray(Box::new(elem), 2);
    let value = Value::List(vec![
        Value::List(vec![Value::U16(1)]),
        Value::List(vec![Value::U16(2)]),
    ]);
    round_trips(&desc, &value);
}

#[test]
fn enum_without_framing_round_trip() {
    let desc = TypeDescriptor::Enum(
        Opts { endian: Some(Endian::Big), tag: Some(PrimKind::U8), length_prefix: None },
        vec![
            Variant {
                opts: VariantOpts { tag: 0x01 },
                fields: vec![
                    field(TypeDescriptor::Primitive(PrimKind::U16)),
                    field(TypeDescriptor::Primitive(PrimKind::I64)),
                ],
            },
            Variant {
                opts: VariantOpts { tag: 0x3F },
                fields: vec![
                    field(TypeDescriptor::Primitive(PrimKind::U8)),
                    field(TypeDescriptor::Primitive(PrimKind::U64)),
                    field(TypeDescriptor::Primitive(PrimKind::I64)),
                ],
            },
        ],
    );
    round_trips(&desc, &Value::Variant(0, vec![Value::U16(7), Value::I64(-1)]));
    round_trips(
        &desc,
        &Value::Variant(1, vec![Value::U8(3), Value::U64(9), Value::I64(-9)]),
    );
}

#[test]
fn enum_with_framing_round_trip() {
    let desc = TypeDescriptor::Enum(
        Opts {
            endian: Some(Endian::Little),
            tag: Some(PrimKind::U8),
            length_prefix: Some(PrimKind::U32),
        },
        vec![
            Variant {
                opts: VariantOpts { tag: 0x01 },
                fields: vec![
                    field(TypeDescriptor::Primitive(PrimKind::U16)),
                    field(TypeDescriptor::Primitive(PrimKind::I64)),
                ],
            },
            Variant {
                opts: VariantOpts { tag: 0x3F },
                fields: vec![field(TypeDescriptor::Primitive(PrimKind::U8))],
            },
        ],
    );
    round_trips(&desc, &Value::Variant(0, vec![Value::U16(7), Value::I64(-1)]));
    round_trips(&desc, &Value::Variant(1, vec![Value::U8(0xEE)]));
}

#[test]
fn prefixed_collection_in_enum_round_trip() {
    let desc = TypeDescriptor::Enum(
        Opts { endian: Some(Endian::Big), tag: Some(PrimKind::U8), length_prefix: None },
        vec![Variant {
            opts: VariantOpts { tag: 0x23 },
            fields: vec![
                field(TypeDescriptor::Primitive(PrimKind::U32)),
                Field {
                    ty: TypeDescriptor::Primitive(PrimKind::U64),
                    opts: FieldOpts {
                        length_prefix: Some(PrimKind::U16),
                        endian: None,
                        custom_codec: None,
                    },
                },
            ],
        }],
    );
    let value = Value::Variant(
        0,
        vec![
            Value::U32(5),
            Value::List(vec![Value::U64(10), Value::U64(11), Value::U64(12)]),
        ],
    );
    round_trips(&desc, &value);
}

#[test]
fn empty_prefixed_collection_round_trip() {
    let desc = TypeDescriptor::Struct(
        Opts { endian: Some(Endian::Big), tag: None, length_prefix: None },
        vec![Field {
            ty: TypeDescriptor::Primitive(PrimKind::U8),
            opts: FieldOpts {
                length_prefix: Some(PrimKind::U16),
                endian: None,
                custom_codec: None,
            },
        }],
    );
    let value = Value::List(vec![Value::List(vec![])]);
    let bytes = to_bytes(&NoHooks {}, &desc, &value).unwrap();
    assert_eq!(bytes, vec![0x00, 0x00]);
    let back = from_bytes(&NoHooks {}, &desc, bytes).unwrap();
    assert!(value_eq(&value, &back));
}

#[test]
fn custom_hook_field_round_trip() {
    // a field carried by the raw big-endian u64 hook pair, whatever the
    // container's declared order says
    let desc = TypeDescriptor::Struct(
        Opts { endian: Some(Endian::Little), tag: None, length_prefix: None },
        vec![
            field(TypeDescriptor::Primitive(PrimKind::U32)),
            Field {
                ty: TypeDescriptor::Primitive(PrimKind::U64),
                opts: FieldOpts { length_prefix: None, endian: None, custom_codec: Some(0) },
            },
        ],
    );
    let value = Value::List(vec![Value::U32(1), Value::U64(0x0102_0304_0506_0708)]);
    let bytes = to_bytes(&RawU64Hooks {}, &desc, &value).unwrap();
    assert_eq!(
        bytes,
        vec![0x01, 0x00, 0x00, 0x00, 0x01, 0x02, 0x03, 0x04, 0x05, 0x06, 0x07, 0x08]
    );
    let back = from_bytes(&RawU64Hooks {}, &desc, bytes).unwrap();
    assert!(value_eq(&value, &back));
}
