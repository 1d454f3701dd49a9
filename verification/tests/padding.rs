//! Padding and alignment behaviour, both through the engine and through
//! the marker types.

use io_self::codec::{decode_value, from_bytes, to_bytes};
use io_self::grammar::{align_padding, consume_bytes, write_padding, PadToAlign, Padding};
use io_self::hooks::NoHooks;
use io_self::positional::{PositionAware, ReadCounter, WriteCounter};
use io_self::schema::{Endian, Field, FieldOpts, Opts, PrimKind, TypeDescriptor};
use io_self::self_codec::{ReadSelf, WriteSelf};
use io_self::value::{value_eq, Value};

fn plain() -> FieldOpts {
    FieldOpts { length_prefix: None, endian: None, custom_codec: None }
}

fn field(ty: TypeDescriptor) -> Field {
    Field { ty, opts: plain() }
}

#[test]
fn fixed_padding_skips_and_fills() {
    let desc = TypeDescriptor::Struct(
        Opts { endian: Some(Endian::Big), tag: None, length_prefix: None },
        vec![
            field(TypeDescriptor::Primitive(PrimKind::U8)),
            field(TypeDescriptor::Padding(3)),
            field(TypeDescriptor::Primitive(PrimKind::U8)),
        ],
    );
    let value = Value::List(vec![Value::U8(0xAA), Value::Unit, Value::U8(0xBB)]);
    let bytes = to_bytes(&NoHooks {}, &desc, &value).unwrap();
    assert_eq!(bytes, vec![0xAA, 0x00, 0x00, 0x00, 0xBB]);
    // padding content is ignored on decode
    let back = from_bytes(&NoHooks {}, &desc, vec![0xAA, 0x11, 0x22, 0x33, 0xBB]).unwrap();
    assert!(value_eq(&value, &back));
}

#[test]
fn align_pads_to_boundary() {
    let desc = TypeDescriptor::Struct(
        Opts { endian: Some(Endian::Big), tag: None, length_prefix: None },
        vec![
            field(TypeDescriptor::Primitive(PrimKind::U8)),
            field(TypeDescriptor::PadToAlign(4, 0xAA)),
            field(TypeDescriptor::Primitive(PrimKind::U32)),
        ],
    );
    let value = Value::List(vec![Value::U8(1), Value::Unit, Value::U32(5)]);
    let bytes = to_bytes(&NoHooks {}, &desc, &value).unwrap();
    assert_eq!(bytes, vec![0x01, 0xAA, 0xAA, 0xAA, 0x00, 0x00, 0x00, 0x05]);
    let back = from_bytes(&NoHooks {}, &desc, bytes).unwrap();
    assert!(value_eq(&value, &back));
}

#[test]
fn aligned_position_gets_no_padding() {
    let desc = TypeDescriptor::Struct(
        Opts { endian: Some(Endian::Big), tag: None, length_prefix: None },
        vec![
            field(TypeDescriptor::Primitive(PrimKind::U32)),
            field(TypeDescriptor::PadToAlign(4, 0xAA)),
            field(TypeDescriptor::Primitive(PrimKind::U8)),
        ],
    );
    let value = Value::List(vec![Value::U32(9), Value::Unit, Value::U8(7)]);
    let bytes = to_bytes(&NoHooks {}, &desc, &value).unwrap();
    assert_eq!(bytes, vec![0x00, 0x00, 0x00, 0x09, 0x07]);
}

#[test]
fn alignment_below_two_is_ignored() {
    for align in [0u64, 1] {
        let desc = TypeDescriptor::Struct(
            Opts { endian: Some(Endian::Big), tag: None, length_prefix: None },
            vec![
                field(TypeDescriptor::Primitive(PrimKind::U8)),
                field(TypeDescriptor::PadToAlign(align, 0xAA)),
            ],
        );
        let value = Value::List(vec![Value::U8(3), Value::Unit]);
        let bytes = to_bytes(&NoHooks {}, &desc, &value).unwrap();
        assert_eq!(bytes, vec![0x03]);
    }
}

#[test]
fn align_padding_lands_on_multiples() {
    for pos in 0u64..20 {
        let pad = align_padding(7, pos);
        assert_eq!((pos + pad) % 7, 0);
        if pos % 7 == 0 {
            assert_eq!(pad, 0);
        }
    }
    // non-power-of-two alignment is fine
    assert_eq!(align_padding(6, 4), 2);
    assert_eq!(align_padding(2, 5), 1);
}

#[test]
fn padding_markers_read_and_write() {
    let mut writer = WriteCounter::new();
    let marker: Padding<4> = Padding {};
    marker.write_to(&mut writer).unwrap();
    assert_eq!(writer.position(), 4);
    assert_eq!(writer.into_bytes(), vec![0, 0, 0, 0]);

    let mut reader = ReadCounter::new(vec![9, 9, 9, 9, 5]);
    let _skipped: Padding<4> = Padding::read_from(&mut reader).unwrap();
    assert_eq!(reader.position(), 4);
}

#[test]
fn align_marker_uses_stream_position() {
    let mut writer = WriteCounter::new();
    writer.write_byte(0x77);
    let marker: PadToAlign<8, 0xEE> = PadToAlign {};
    marker.write_to(&mut writer).unwrap();
    assert_eq!(writer.position(), 8);
    assert_eq!(
        writer.into_bytes(),
        vec![0x77, 0xEE, 0xEE, 0xEE, 0xEE, 0xEE, 0xEE, 0xEE]
    );

    assert_eq!(PadToAlign::<8, 0xEE>::padding_for(3), 5);
    assert_eq!(PadToAlign::<8, 0xEE>::padding_for(8), 0);

    let mut reader = ReadCounter::new(vec![1, 2, 3, 4, 5]);
    consume_bytes(&mut reader, 2).unwrap();
    let _marker: PadToAlign<4, 0> = PadToAlign::read_from(&mut reader).unwrap();
    assert_eq!(reader.position(), 4);
}

#[test]
fn write_padding_fills_with_byte() {
    let mut writer = WriteCounter::new();
    write_padding(&mut writer, 0x5A, 3).unwrap();
    assert_eq!(writer.into_bytes(), vec![0x5A, 0x5A, 0x5A]);
}

#[test]
fn consume_bytes_stops_at_end() {
    let mut reader = ReadCounter::new(vec![1, 2]);
    assert!(consume_bytes(&mut reader, 3).is_err());
    assert_eq!(reader.position(), 0);
    assert!(consume_bytes(&mut reader, 2).is_ok());
    assert_eq!(reader.position(), 2);
}

#[test]
fn alignment_is_envelope_relative_in_framed_enums() {
    // inside a framed enum the scratch stream starts at 0, so alignment is
    // relative to the envelope, not the outer stream
    let desc = TypeDescriptor::Enum(
        Opts {
            endian: Some(Endian::Big),
            tag: Some(PrimKind::U8),
            length_prefix: Some(PrimKind::U8),
        },
        vec![io_self::schema::Variant {
            opts: io_self::schema::VariantOpts { tag: 0x02 },
            fields: vec![
                field(TypeDescriptor::PadToAlign(4, 0xCC)),
                field(TypeDescriptor::Primitive(PrimKind::U8)),
            ],
        }],
    );
    let value = Value::Variant(0, vec![Value::Unit, Value::U8(9)]);
    let encoded = to_bytes(&NoHooks {}, &desc, &value).unwrap();
    // envelope length, then the tag at offset 0 of the envelope, then three
    // fill bytes up to the envelope-relative boundary, then the payload
    assert_eq!(encoded, vec![0x05, 0x02, 0xCC, 0xCC, 0xCC, 0x09]);
    let mut buffer = ReadCounter::new(encoded);
    let back = decode_value(&NoHooks {}, &desc, None, &mut buffer).unwrap();
    assert!(value_eq(&value, &back));
}
