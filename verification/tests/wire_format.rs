//! Concrete wire-format scenarios: exact bytes for known schemas.

use io_self::codec::{from_bytes, to_bytes};
use io_self::hooks::NoHooks;
use io_self::schema::{Endian, Field, FieldOpts, Opts, PrimKind, TypeDescriptor, Variant,
    VariantOpts};
use io_self::value::{value_eq, Value};

fn plain() -> FieldOpts {
    FieldOpts { length_prefix: None, endian: None, custom_codec: None }
}

fn field(ty: TypeDescriptor) -> Field {
    Field { ty, opts: plain() }
}

fn no_container_opts(endian: Option<Endian>) -> Opts {
    Opts { endian, tag: None, length_prefix: None }
}

#[test]
fn struct_with_prefixed_vec_bytes() {
    // Struct { a: u32 (big-endian), b: Vec<u8> length_prefix = u16 }
    let desc = TypeDescriptor::Struct(
        no_container_opts(Some(Endian::Big)),
        vec![
            field(TypeDescriptor::Primitive(PrimKind::U32)),
            Field {
                ty: TypeDescriptor::Primitive(PrimKind::U8),
                opts: FieldOpts {
                    length_prefix: Some(PrimKind::U16),
                    endian: None,
                    custom_codec: None,
                },
            },
        ],
    );
    let value = Value::List(vec![
        Value::U32(1),
        Value::List(vec![Value::U8(9), Value::U8(9)]),
    ]);
    let bytes = to_bytes(&NoHooks {}, &desc, &value).unwrap();
    assert_eq!(bytes, vec![0x00, 0x00, 0x00, 0x01, 0x00, 0x02, 0x09, 0x09]);

    let back = from_bytes(&NoHooks {}, &desc, bytes).unwrap();
    assert!(value_eq(&value, &back));
}

#[test]
fn tagged_enum_bytes() {
    // tag_type = u8, variant Bar tag 0x01 with fields (u16, i64), big-endian
    let desc = TypeDescriptor::Enum(
        Opts { endian: Some(Endian::Big), tag: Some(PrimKind::U8), length_prefix: None },
        vec![Variant {
            opts: VariantOpts { tag: 0x01 },
            fields: vec![
                field(TypeDescriptor::Primitive(PrimKind::U16)),
                field(TypeDescriptor::Primitive(PrimKind::I64)),
            ],
        }],
    );
    let value = Value::Variant(0, vec![Value::U16(7), Value::I64(-1)]);
    let bytes = to_bytes(&NoHooks {}, &desc, &value).unwrap();
    assert_eq!(
        bytes,
        vec![0x01, 0x00, 0x07, 0xFF, 0xFF, 0xFF, 0xFF, 0xFF, 0xFF, 0xFF, 0xFF]
    );
}

#[test]
fn framed_enum_bytes() {
    // little-endian enum with a u32 byte-length envelope around tag + body
    let desc = TypeDescriptor::Enum(
        Opts {
            endian: Some(Endian::Little),
            tag: Some(PrimKind::U8),
            length_prefix: Some(PrimKind::U32),
        },
        vec![Variant {
            opts: VariantOpts { tag: 0x01 },
            fields: vec![
                field(TypeDescriptor::Primitive(PrimKind::U16)),
                field(TypeDescriptor::Primitive(PrimKind::I64)),
            ],
        }],
    );
    let value = Value::Variant(0, vec![Value::U16(0x0102), Value::I64(-1)]);
    let bytes = to_bytes(&NoHooks {}, &desc, &value).unwrap();
    assert_eq!(
        bytes,
        vec![
            0x0B, 0x00, 0x00, 0x00, // 11 body bytes, little-endian u32
            0x01, // tag
            0x02, 0x01, // u16 little-endian
            0xFF, 0xFF, 0xFF, 0xFF, 0xFF, 0xFF, 0xFF, 0xFF, // i64 -1
        ]
    );

    let back = from_bytes(&NoHooks {}, &desc, bytes).unwrap();
    assert!(value_eq(&value, &back));
}

#[test]
fn endianness_reverses_fields_not_structure() {
    let little = TypeDescriptor::Struct(
        no_container_opts(Some(Endian::Little)),
        vec![field(TypeDescriptor::Primitive(PrimKind::U32)),
             field(TypeDescriptor::Primitive(PrimKind::U16))],
    );
    let big = TypeDescriptor::Struct(
        no_container_opts(Some(Endian::Big)),
        vec![field(TypeDescriptor::Primitive(PrimKind::U32)),
             field(TypeDescriptor::Primitive(PrimKind::U16))],
    );
    let value = Value::List(vec![Value::U32(0x0A0B0C0D), Value::U16(0x0102)]);
    let lb = to_bytes(&NoHooks {}, &little, &value).unwrap();
    let bb = to_bytes(&NoHooks {}, &big, &value).unwrap();
    assert_eq!(lb.len(), bb.len());
    assert_eq!(lb, vec![0x0D, 0x0C, 0x0B, 0x0A, 0x02, 0x01]);
    assert_eq!(bb, vec![0x0A, 0x0B, 0x0C, 0x0D, 0x01, 0x02]);
    // each multi-byte field is the reverse of its little-endian form
    let rev_u32: Vec<u8> = lb[0..4].iter().rev().cloned().collect();
    assert_eq!(rev_u32, bb[0..4].to_vec());
}

#[test]
fn field_endian_overrides_container() {
    let desc = TypeDescriptor::Struct(
        no_container_opts(Some(Endian::Big)),
        vec![
            field(TypeDescriptor::Primitive(PrimKind::U16)),
            Field {
                ty: TypeDescriptor::Primitive(PrimKind::U16),
                opts: FieldOpts {
                    length_prefix: None,
                    endian: Some(Endian::Little),
                    custom_codec: None,
                },
            },
        ],
    );
    let value = Value::List(vec![Value::U16(0x1234), Value::U16(0x1234)]);
    let bytes = to_bytes(&NoHooks {}, &desc, &value).unwrap();
    assert_eq!(bytes, vec![0x12, 0x34, 0x34, 0x12]);
}

#[test]
fn unspecified_endian_defaults_to_big() {
    let desc = TypeDescriptor::Struct(
        no_container_opts(None),
        vec![field(TypeDescriptor::Primitive(PrimKind::U32))],
    );
    let value = Value::List(vec![Value::U32(0x01020304)]);
    let bytes = to_bytes(&NoHooks {}, &desc, &value).unwrap();
    assert_eq!(bytes, vec![0x01, 0x02, 0x03, 0x04]);
}

#[test]
fn fixed_array_has_no_count_prefix() {
    let desc = TypeDescriptor::FixedArray(
        Box::new(TypeDescriptor::Primitive(PrimKind::U8)),
        3,
    );
    let value = Value::List(vec![Value::U8(4), Value::U8(5), Value::U8(6)]);
    let bytes = to_bytes(&NoHooks {}, &desc, &value).unwrap();
    assert_eq!(bytes, vec![4, 5, 6]);
    let back = from_bytes(&NoHooks {}, &desc, bytes).unwrap();
    assert!(value_eq(&value, &back));
}
