//! The stream types, the options model, and the self-codec traits.

use io_self::codec::{read_with_length, write_with_prefix};
use io_self::hooks::{CodecHooks, NoHooks, RawU64Hooks};
use io_self::positional::{PositionAware, ReadCounter, WriteCounter};
use io_self::schema::{Endian, FieldOpts, Opts, PrimKind, TypeDescriptor, VariantOpts};
use io_self::self_codec::{ReadIntoSelf, ReadSelf, ReadSelfEndian, WriteSelf, WriteSelfEndian};
use io_self::value::{value_eq, values_eq, Value};

#[test]
fn read_counter_tracks_position() {
    let mut reader = ReadCounter::new(vec![1, 2, 3, 4]);
    assert_eq!(reader.position(), 0);
    assert_eq!(reader.remaining(), 4);
    let chunk = reader.read_exact(3).unwrap();
    assert_eq!(chunk, vec![1, 2, 3]);
    assert_eq!(reader.position(), 3);
    assert_eq!(reader.remaining(), 1);
    assert!(reader.read_exact(2).is_err());
    assert_eq!(reader.position(), 3);
}

#[test]
fn write_counter_tracks_position() {
    let mut writer = WriteCounter::new();
    assert_eq!(writer.position(), 0);
    writer.write_byte(7);
    writer.write_all(&[8, 9]);
    assert_eq!(writer.position(), 3);
    assert_eq!(writer.into_bytes(), vec![7, 8, 9]);
}

#[test]
fn container_options_resolve() {
    let opts = Opts { endian: Some(Endian::Little), tag: None, length_prefix: None };
    assert_eq!(opts.endianness(), Some(Endian::Little));
    let bare = Opts { endian: None, tag: None, length_prefix: None };
    assert_eq!(bare.endianness(), None);
}

#[test]
fn field_options_inherit_endian() {
    let container = Opts { endian: Some(Endian::Little), tag: None, length_prefix: None };
    let mut opts = FieldOpts { length_prefix: None, endian: None, custom_codec: None };
    opts.with_endian(&container);
    assert_eq!(opts.endianness(), Some(Endian::Little));

    let mut overridden = FieldOpts {
        length_prefix: None,
        endian: Some(Endian::Big),
        custom_codec: None,
    };
    overridden.with_endian(&container);
    assert_eq!(overridden.endianness(), Some(Endian::Big));
}

#[test]
fn variant_options_carry_the_tag() {
    let opts = VariantOpts { tag: 0x3F };
    assert_eq!(opts.tag(), 0x3F);
}

#[test]
fn bytes_read_and_write_themselves() {
    let mut writer = WriteCounter::new();
    0xABu8.write_to(&mut writer).unwrap();
    (-2i8).write_to(&mut writer).unwrap();
    let bytes = writer.into_bytes();
    assert_eq!(bytes, vec![0xAB, 0xFE]);

    let mut reader = ReadCounter::new(bytes);
    assert_eq!(u8::read_from(&mut reader).unwrap(), 0xAB);
    assert_eq!(i8::read_from(&mut reader).unwrap(), -2);
}

#[test]
fn read_into_overwrites_in_place() {
    let mut reader = ReadCounter::new(vec![0x44]);
    let mut slot: u8 = 0;
    slot.read_into(&mut reader).unwrap();
    assert_eq!(slot, 0x44);
}

#[test]
fn endian_integers_read_and_write_themselves() {
    let mut writer = WriteCounter::new();
    0x0102u16.write_to(&mut writer, Endian::Big).unwrap();
    0x0102u16.write_to(&mut writer, Endian::Little).unwrap();
    (-2i32).write_to(&mut writer, Endian::Big).unwrap();
    0x0102030405060708u64.write_to(&mut writer, Endian::Little).unwrap();
    (-1i128).write_to(&mut writer, Endian::Big).unwrap();
    let bytes = writer.into_bytes();
    assert_eq!(bytes[0..2], [0x01, 0x02]);
    assert_eq!(bytes[2..4], [0x02, 0x01]);
    assert_eq!(bytes[4..8], [0xFF, 0xFF, 0xFF, 0xFE]);
    assert_eq!(bytes[8..16], [0x08, 0x07, 0x06, 0x05, 0x04, 0x03, 0x02, 0x01]);
    assert_eq!(bytes[16..32], [0xFF; 16]);

    let mut reader = ReadCounter::new(bytes);
    assert_eq!(u16::read_from(&mut reader, Endian::Big).unwrap(), 0x0102);
    assert_eq!(u16::read_from(&mut reader, Endian::Little).unwrap(), 0x0102);
    assert_eq!(i32::read_from(&mut reader, Endian::Big).unwrap(), -2);
    assert_eq!(
        u64::read_from(&mut reader, Endian::Little).unwrap(),
        0x0102030405060708
    );
    assert_eq!(i128::read_from(&mut reader, Endian::Big).unwrap(), -1);
}

#[test]
fn signed_extremes_keep_their_bit_patterns() {
    let mut writer = WriteCounter::new();
    i16::MIN.write_to(&mut writer, Endian::Big).unwrap();
    i64::MIN.write_to(&mut writer, Endian::Little).unwrap();
    let bytes = writer.into_bytes();
    assert_eq!(bytes[0..2], [0x80, 0x00]);
    assert_eq!(bytes[2..10], [0x00, 0x00, 0x00, 0x00, 0x00, 0x00, 0x00, 0x80]);
    let mut reader = ReadCounter::new(bytes);
    assert_eq!(i16::read_from(&mut reader, Endian::Big).unwrap(), i16::MIN);
    assert_eq!(i64::read_from(&mut reader, Endian::Little).unwrap(), i64::MIN);
}

#[test]
fn collector_reads_exactly_the_count() {
    let mut reader = ReadCounter::new(vec![0x00, 0x01, 0x00, 0x02, 0x00, 0x03, 0x99]);
    let elem = TypeDescriptor::Primitive(PrimKind::U16);
    let vals = read_with_length(&NoHooks {}, &mut reader, 3, &elem, Some(Endian::Big)).unwrap();
    assert_eq!(vals.len(), 3);
    assert!(value_eq(&vals[1], &Value::U16(2)));
    assert_eq!(reader.position(), 6);
}

#[test]
fn collector_aborts_on_first_failure() {
    let mut reader = ReadCounter::new(vec![0x00, 0x01, 0x00]);
    let elem = TypeDescriptor::Primitive(PrimKind::U16);
    let r = read_with_length(&NoHooks {}, &mut reader, 3, &elem, Some(Endian::Big));
    assert!(r.is_err());
}

#[test]
fn prefix_writer_counts_then_writes() {
    let mut writer = WriteCounter::new();
    let elem = TypeDescriptor::Primitive(PrimKind::U16);
    let items = vec![Value::U16(5), Value::U16(6)];
    write_with_prefix(&NoHooks {}, &items, &mut writer, &elem, PrimKind::U32, Some(Endian::Big))
        .unwrap();
    assert_eq!(writer.into_bytes(), vec![0, 0, 0, 2, 0, 5, 0, 6]);
}

#[test]
fn values_compare_structurally() {
    let a = Value::List(vec![Value::U8(1), Value::Variant(0, vec![Value::I64(-4)])]);
    let b = Value::List(vec![Value::U8(1), Value::Variant(0, vec![Value::I64(-4)])]);
    let c = Value::List(vec![Value::U8(1), Value::Variant(1, vec![Value::I64(-4)])]);
    assert!(value_eq(&a, &b));
    assert!(!value_eq(&a, &c));
    assert!(!value_eq(&a, &Value::U8(1)));
    assert!(values_eq(&vec![], &vec![]));
    assert!(!values_eq(&vec![Value::U8(1)], &vec![]));
}

#[test]
fn hooks_run_standalone() {
    let mut writer = WriteCounter::new();
    RawU64Hooks {}.write_hook(0, &Value::U64(0x1122334455667788), &mut writer).unwrap();
    let bytes = writer.into_bytes();
    assert_eq!(bytes, vec![0x11, 0x22, 0x33, 0x44, 0x55, 0x66, 0x77, 0x88]);
    let mut reader = ReadCounter::new(bytes);
    let v = RawU64Hooks {}.read_hook(0, &mut reader).unwrap();
    assert!(value_eq(&v, &Value::U64(0x1122334455667788)));

    // the raw-u64 pair rejects other shapes
    let mut other = WriteCounter::new();
    assert!(RawU64Hooks {}.write_hook(0, &Value::U8(1), &mut other).is_err());
}
