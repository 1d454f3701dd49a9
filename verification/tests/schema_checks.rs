//! The runtime schema and value checkers, and a few schema shapes lifted
//! from typical uses: empty structs, byte pairs, nested arrays.

use io_self::codec::{from_bytes, to_bytes};
use io_self::hooks::NoHooks;
use io_self::schema::{descriptor_wf, Endian, Field, FieldOpts, Opts, PrimKind, TypeDescriptor,
    Variant, VariantOpts};
use io_self::value::{value_conforms, value_eq, Value};

fn plain() -> FieldOpts {
    FieldOpts { length_prefix: None, endian: None, custom_codec: None }
}

fn field(ty: TypeDescriptor) -> Field {
    Field { ty, opts: plain() }
}

fn bare(endian: Option<Endian>) -> Opts {
    Opts { endian, tag: None, length_prefix: None }
}

#[test]
fn empty_struct_encodes_to_nothing() {
    let desc = TypeDescriptor::Struct(bare(None), vec![]);
    let value = Value::List(vec![]);
    let bytes = to_bytes(&NoHooks {}, &desc, &value).unwrap();
    assert_eq!(bytes, Vec::<u8>::new());
    let back = from_bytes(&NoHooks {}, &desc, bytes).unwrap();
    assert!(value_eq(&value, &back));
}

#[test]
fn byte_pair_struct() {
    let desc = TypeDescriptor::Struct(
        bare(None),
        vec![field(TypeDescriptor::Primitive(PrimKind::U8)),
             field(TypeDescriptor::Primitive(PrimKind::U8))],
    );
    let value = Value::List(vec![Value::U8(0x0A), Value::U8(0x0B)]);
    assert_eq!(to_bytes(&NoHooks {}, &desc, &value).unwrap(), vec![0x0A, 0x0B]);
}

#[test]
fn nested_arrays_round_trip() {
    // an array of structs, each holding an array of bytes
    let inner = TypeDescriptor::Struct(
        bare(None),
        vec![field(TypeDescriptor::FixedArray(
            Box::new(TypeDescriptor::Primitive(PrimKind::U8)),
            3,
        ))],
    );
    let desc = TypeDescriptor::FixedArray(Box::new(inner), 2);
    let value = Value::List(vec![
        Value::List(vec![Value::List(vec![Value::U8(1), Value::U8(2), Value::U8(3)])]),
        Value::List(vec![Value::List(vec![Value::U8(4), Value::U8(5), Value::U8(6)])]),
    ]);
    let bytes = to_bytes(&NoHooks {}, &desc, &value).unwrap();
    assert_eq!(bytes, vec![1, 2, 3, 4, 5, 6]);
    let back = from_bytes(&NoHooks {}, &desc, bytes).unwrap();
    assert!(value_eq(&value, &back));
}

#[test]
fn wf_accepts_ordinary_schemas() {
    let desc = TypeDescriptor::Enum(
        Opts { endian: Some(Endian::Big), tag: Some(PrimKind::U8), length_prefix: None },
        vec![
            Variant { opts: VariantOpts { tag: 1 }, fields: vec![field(
                TypeDescriptor::Primitive(PrimKind::U16),
            )] },
            Variant { opts: VariantOpts { tag: 2 }, fields: vec![] },
        ],
    );
    assert!(descriptor_wf(&desc));
}

#[test]
fn wf_rejects_enum_without_tag_kind() {
    let desc = TypeDescriptor::Enum(
        Opts { endian: None, tag: None, length_prefix: None },
        vec![Variant { opts: VariantOpts { tag: 1 }, fields: vec![] }],
    );
    assert!(!descriptor_wf(&desc));
}

#[test]
fn wf_rejects_clashing_tags() {
    let desc = TypeDescriptor::Enum(
        Opts { endian: None, tag: Some(PrimKind::U8), length_prefix: None },
        vec![
            Variant { opts: VariantOpts { tag: 7 }, fields: vec![] },
            Variant { opts: VariantOpts { tag: 7 }, fields: vec![] },
        ],
    );
    assert!(!descriptor_wf(&desc));
}

#[test]
fn wf_rejects_oversized_tag() {
    // 0x1FF does not fit the declared u8 tag kind
    let desc = TypeDescriptor::Enum(
        Opts { endian: None, tag: Some(PrimKind::U8), length_prefix: None },
        vec![Variant { opts: VariantOpts { tag: 0x1FF }, fields: vec![] }],
    );
    assert!(!descriptor_wf(&desc));
}

#[test]
fn conformance_follows_the_shape() {
    let desc = TypeDescriptor::Struct(
        bare(None),
        vec![field(TypeDescriptor::Primitive(PrimKind::U32)),
             field(TypeDescriptor::Padding(2))],
    );
    assert!(value_conforms(&desc, &Value::List(vec![Value::U32(5), Value::Unit])));
    // wrong primitive kind
    assert!(!value_conforms(&desc, &Value::List(vec![Value::U16(5), Value::Unit])));
    // wrong arity
    assert!(!value_conforms(&desc, &Value::List(vec![Value::U32(5)])));
    // wrong head
    assert!(!value_conforms(&desc, &Value::U32(5)));
}

#[test]
fn conformance_of_variants_checks_the_index() {
    let desc = TypeDescriptor::Enum(
        Opts { endian: None, tag: Some(PrimKind::U8), length_prefix: None },
        vec![Variant { opts: VariantOpts { tag: 1 }, fields: vec![field(
            TypeDescriptor::Primitive(PrimKind::U8),
        )] }],
    );
    assert!(value_conforms(&desc, &Value::Variant(0, vec![Value::U8(1)])));
    assert!(!value_conforms(&desc, &Value::Variant(1, vec![Value::U8(1)])));
    assert!(!value_conforms(&desc, &Value::Variant(0, vec![])));
}

#[test]
fn custom_codec_fields_accept_any_value_shape() {
    let desc = TypeDescriptor::Struct(
        bare(None),
        vec![Field {
            ty: TypeDescriptor::Primitive(PrimKind::U64),
            opts: FieldOpts { length_prefix: None, endian: None, custom_codec: Some(0) },
        }],
    );
    assert!(value_conforms(&desc, &Value::List(vec![Value::I8(-1)])));
}
