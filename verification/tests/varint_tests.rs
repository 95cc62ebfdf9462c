use lexord::stdlib::varint::VarInt;
use lexord::util::test::encode;
use lexord::{LexOrd, LexOrdSer, PrefixRead};
use std::fmt::Debug;

fn test_format<T: LexOrd + PartialEq + Debug>(value: &T, buf: &[u8]) {
    let mut buf_from_value: Vec<u8> = vec![];
    value.to_write(&mut buf_from_value);
    assert!(buf == buf_from_value, "{value:#?} -> {buf_from_value:x?} != {buf:x?}");
    let mut reader = PrefixRead::new(buf_from_value);
    let value_from_buf = T::from_read(&mut reader).unwrap();
    assert!(reader.is_empty(), "({buf:?})");
    assert!(value == &value_from_buf, "{buf:?} -> {value:?} != {value_from_buf:?}");
}

/// Encode `v` at every integer width that holds it; all widths must agree.
fn encode_varint(v: i128) -> String {
    let mut outs: Vec<String> = vec![];
    if v >= 0 {
        let u = v as u128;
        if u <= u16::MAX as u128 {
            outs.push(encode(u as u16));
        }
        if u <= u32::MAX as u128 {
            outs.push(encode(u as u32));
        }
        if u <= u64::MAX as u128 {
            outs.push(encode(u as u64));
        }
        outs.push(encode(u));
        if u <= usize::MAX as u128 {
            outs.push(encode(u as usize));
        }
    }
    if v >= i16::MIN as i128 && v <= i16::MAX as i128 {
        outs.push(encode(v as i16));
    }
    if v >= i32::MIN as i128 && v <= i32::MAX as i128 {
        outs.push(encode(v as i32));
    }
    if v >= i64::MIN as i128 && v <= i64::MAX as i128 {
        outs.push(encode(v as i64));
    }
    outs.push(encode(v));
    if v >= isize::MIN as i128 && v <= isize::MAX as i128 {
        outs.push(encode(v as isize));
    }
    outs.dedup();
    assert_eq!(outs.len(), 1, "{outs:?}");
    outs.pop().unwrap()
}

#[test]
fn test_varint() {
    assert_eq!(encode_varint(0), "80");
    assert_eq!(encode_varint(1), "81");
    assert_eq!(encode_varint(-1), "7F");
    assert_eq!(encode_varint(u8::MAX as i128), "C0 FF");
    assert_eq!(encode_varint(u16::MAX as i128), "E0 00 FF FF");
    assert_eq!(encode_varint(u32::MAX as i128), "F0 00 00 00 FF FF FF FF");
    assert_eq!(
        encode_varint(u64::MAX as i128),
        "F8 00 00 00 00 00 00 00 00 FF FF FF FF FF FF FF FF"
    );
    assert_eq!(encode(u128::MAX), "F8 FF FF FF FF FF FF FF FF FF FF FF FF FF FF FF FF");
    assert_eq!(encode_varint(i8::MAX as i128), "C0 7F");
    assert_eq!(encode_varint(i16::MAX as i128), "E0 00 7F FF");
    assert_eq!(encode_varint(i32::MAX as i128), "F0 00 00 00 7F FF FF FF");
    assert_eq!(
        encode_varint(i64::MAX as i128),
        "F8 00 00 00 00 00 00 00 00 7F FF FF FF FF FF FF FF"
    );
    assert_eq!(
        encode_varint(i128::MAX),
        "F8 7F FF FF FF FF FF FF FF FF FF FF FF FF FF FF FF"
    );
    assert_eq!(encode_varint(i8::MIN as i128), "3F 80");
    assert_eq!(encode_varint(i16::MIN as i128), "1F FF 80 00");
    assert_eq!(encode_varint(i32::MIN as i128), "0F FF FF FF 80 00 00 00");
    assert_eq!(
        encode_varint(i64::MIN as i128),
        "04 FF FF FF FF FF FF FF FF 80 00 00 00 00 00 00 00"
    );
    assert_eq!(
        encode_varint(i128::MIN),
        "04 80 00 00 00 00 00 00 00 00 00 00 00 00 00 00 00"
    );
}

#[test]
fn test_varint_uint_format() {
    test_format(&VarInt(1u8), &[0x81]);
    test_format(&VarInt(1u16), &[0x81]);
    test_format(&VarInt(128u8), &[0xc0, 0x80]);
    test_format(&VarInt(128u16), &[0xc0, 0x80]);
    test_format(&VarInt(u32::MAX), &[0xf0, 0x00, 0x00, 0x00, 0xFF, 0xFF, 0xFF, 0xFF]);
    test_format(
        &VarInt(u128::MAX),
        &[
            0xf8, 0xFF, 0xFF, 0xFF, 0xFF, 0xFF, 0xFF, 0xFF, 0xFF, 0xFF, 0xFF, 0xFF, 0xFF, 0xFF,
            0xFF, 0xFF, 0xFF,
        ],
    );
}

#[test]
fn test_varint_u16_all() {
    let mut last: Option<u16> = None;
    let mut last_buf: Vec<u8> = vec![];
    for next in u16::MIN..=u16::MAX {
        assert!(last.is_none() || last.unwrap() < next, "{last:?} >= {next:?}");
        let mut buf: Vec<u8> = vec![];
        next.to_write(&mut buf);
        assert!(last_buf < buf, "{last:?} >= {next:?} ({last_buf:#?} >= {buf:#?})");
        let mut reader = PrefixRead::new(buf.clone());
        let next_reser = u16::from_read(&mut reader).unwrap();
        assert!(reader.is_empty(), "({buf:?})");
        assert_eq!(next, next_reser, "({buf:?})");
        last = Some(next);
        last_buf = buf;
    }
}

#[test]
fn test_varint_i16_all() {
    let mut last_buf: Vec<u8> = vec![];
    for next in i16::MIN..=i16::MAX {
        let mut buf: Vec<u8> = vec![];
        next.to_write(&mut buf);
        assert!(next == i16::MIN || last_buf < buf, "{next} ({last_buf:?} >= {buf:?})");
        let mut reader = PrefixRead::new(buf.clone());
        let next_reser = i16::from_read(&mut reader).unwrap();
        assert!(reader.is_empty(), "({buf:?})");
        assert_eq!(next, next_reser, "({buf:?})");
        last_buf = buf;
    }
}
