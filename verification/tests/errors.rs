//! Each error kind, with an input that produces it, and how far a failed
//! decode consumes the stream.

use io_self::codec::{decode_value, from_bytes, to_bytes};
use io_self::hooks::NoHooks;
use io_self::positional::{PositionAware, ReadCounter};
use io_self::schema::{Endian, Field, FieldOpts, Opts, PrimKind, TypeDescriptor, Variant,
    VariantOpts};
use io_self::value::Value;
use io_self::CodecError;

fn plain() -> FieldOpts {
    FieldOpts { length_prefix: None, endian: None, custom_codec: None }
}

fn field(ty: TypeDescriptor) -> Field {
    Field { ty, opts: plain() }
}

fn two_variant_enum(length_prefix: Option<PrimKind>) -> TypeDescriptor {
    TypeDescriptor::Enum(
        Opts { endian: Some(Endian::Big), tag: Some(PrimKind::U8), length_prefix },
        vec![
            Variant { opts: VariantOpts { tag: 0x01 }, fields: vec![field(
                TypeDescriptor::Primitive(PrimKind::U16),
            )] },
            Variant { opts: VariantOpts { tag: 0x3F }, fields: vec![] },
        ],
    )
}

#[test]
fn short_stream_is_unexpected_eof() {
    let desc = TypeDescriptor::Primitive(PrimKind::U32);
    let r = from_bytes(&NoHooks {}, &desc, vec![0x01, 0x02]);
    assert_eq!(r.unwrap_err(), CodecError::UnexpectedEof);
}

#[test]
fn eof_consumes_nothing() {
    let desc = TypeDescriptor::Primitive(PrimKind::U64);
    let mut buffer = ReadCounter::new(vec![0x01, 0x02, 0x03]);
    let r = decode_value(&NoHooks {}, &desc, None, &mut buffer);
    assert_eq!(r.unwrap_err(), CodecError::UnexpectedEof);
    assert_eq!(buffer.position(), 0);
}

#[test]
fn unknown_tag_is_invalid_data() {
    let desc = two_variant_enum(None);
    let r = from_bytes(&NoHooks {}, &desc, vec![0x77, 0x00, 0x01]);
    assert_eq!(r.unwrap_err(), CodecError::InvalidData(0x77));
}

#[test]
fn unknown_tag_consumes_only_the_tag() {
    let desc = two_variant_enum(None);
    let mut buffer = ReadCounter::new(vec![0x77, 0x00, 0x01]);
    let r = decode_value(&NoHooks {}, &desc, None, &mut buffer);
    assert_eq!(r.unwrap_err(), CodecError::InvalidData(0x77));
    assert_eq!(buffer.position(), 1);
}

#[test]
fn unknown_tag_in_framed_enum_consumes_the_envelope() {
    let desc = two_variant_enum(Some(PrimKind::U16));
    // envelope of 3 bytes: bad tag + two body bytes, then trailing data
    let mut buffer = ReadCounter::new(vec![0x00, 0x03, 0x77, 0x00, 0x01, 0xAA]);
    let r = decode_value(&NoHooks {}, &desc, None, &mut buffer);
    assert_eq!(r.unwrap_err(), CodecError::InvalidData(0x77));
    assert_eq!(buffer.position(), 5);
}

#[test]
fn framed_enum_ignores_trailing_envelope_bytes() {
    let desc = two_variant_enum(Some(PrimKind::U16));
    // envelope declares 5 bytes; the variant needs only 3; the rest is
    // skipped without validation
    let mut buffer = ReadCounter::new(vec![0x00, 0x05, 0x01, 0x00, 0x07, 0xEE, 0xEE, 0x42]);
    let r = decode_value(&NoHooks {}, &desc, None, &mut buffer).unwrap();
    assert!(matches!(r, Value::Variant(0, _)));
    assert_eq!(buffer.position(), 7);
}

#[test]
fn encode_count_beyond_prefix_is_overflow() {
    // 256 elements cannot be counted by a u8 prefix
    let desc = TypeDescriptor::Struct(
        Opts { endian: Some(Endian::Big), tag: None, length_prefix: None },
        vec![Field {
            ty: TypeDescriptor::Primitive(PrimKind::U8),
            opts: FieldOpts {
                length_prefix: Some(PrimKind::U8),
                endian: None,
                custom_codec: None,
            },
        }],
    );
    let mut items: Vec<Value> = Vec::new();
    for _ in 0..256 {
        items.push(Value::U8(0));
    }
    let value = Value::List(vec![Value::List(items)]);
    let r = to_bytes(&NoHooks {}, &desc, &value);
    assert_eq!(r.unwrap_err(), CodecError::Overflow);
}

#[test]
fn signed_prefix_max_is_its_positive_range() {
    // 128 elements do not fit an i8 prefix, though 127 do
    let desc = TypeDescriptor::Struct(
        Opts { endian: Some(Endian::Big), tag: None, length_prefix: None },
        vec![Field {
            ty: TypeDescriptor::Primitive(PrimKind::U8),
            opts: FieldOpts {
                length_prefix: Some(PrimKind::I8),
                endian: None,
                custom_codec: None,
            },
        }],
    );
    let mut items: Vec<Value> = Vec::new();
    for _ in 0..128 {
        items.push(Value::U8(1));
    }
    let value = Value::List(vec![Value::List(items)]);
    assert_eq!(to_bytes(&NoHooks {}, &desc, &value).unwrap_err(), CodecError::Overflow);

    let mut smaller: Vec<Value> = Vec::new();
    for _ in 0..127 {
        smaller.push(Value::U8(1));
    }
    let ok = Value::List(vec![Value::List(smaller)]);
    assert!(to_bytes(&NoHooks {}, &desc, &ok).is_ok());
}

#[test]
fn negative_prefix_on_decode_is_overflow() {
    let desc = TypeDescriptor::Struct(
        Opts { endian: Some(Endian::Big), tag: None, length_prefix: None },
        vec![Field {
            ty: TypeDescriptor::Primitive(PrimKind::U8),
            opts: FieldOpts {
                length_prefix: Some(PrimKind::I16),
                endian: None,
                custom_codec: None,
            },
        }],
    );
    // i16 prefix 0xFFFF is -1: a count that cannot be converted
    let r = from_bytes(&NoHooks {}, &desc, vec![0xFF, 0xFF]);
    assert_eq!(r.unwrap_err(), CodecError::Overflow);
}

#[test]
fn missing_hook_is_custom_hook_failure() {
    let desc = TypeDescriptor::Struct(
        Opts { endian: None, tag: None, length_prefix: None },
        vec![Field {
            ty: TypeDescriptor::Primitive(PrimKind::U64),
            opts: FieldOpts { length_prefix: None, endian: None, custom_codec: Some(3) },
        }],
    );
    let r = from_bytes(&NoHooks {}, &desc, vec![0; 8]);
    assert_eq!(r.unwrap_err(), CodecError::CustomHookFailure);
    let value = Value::List(vec![Value::U64(5)]);
    assert_eq!(
        to_bytes(&NoHooks {}, &desc, &value).unwrap_err(),
        CodecError::CustomHookFailure
    );
}

#[test]
fn element_failure_aborts_collection() {
    // prefix says three u16 elements but only two and a half are there
    let desc = TypeDescriptor::Struct(
        Opts { endian: Some(Endian::Big), tag: None, length_prefix: None },
        vec![Field {
            ty: TypeDescriptor::Primitive(PrimKind::U16),
            opts: FieldOpts {
                length_prefix: Some(PrimKind::U8),
                endian: None,
                custom_codec: None,
            },
        }],
    );
    let r = from_bytes(&NoHooks {}, &desc, vec![0x03, 0x00, 0x01, 0x00, 0x02, 0x00]);
    assert_eq!(r.unwrap_err(), CodecError::UnexpectedEof);
}
