use lexord::stdlib::varint::VarInt;
use lexord::util::iterator::{write_iterator, write_seq_iterator, ReadIter};
use lexord::util::test::encode;
use lexord::{Error, LexOrd, LexOrdSer, PrefixRead};

fn raw<T: LexOrdSer>(value: &T) -> Vec<u8> {
    let mut buf: Vec<u8> = vec![];
    value.to_write(&mut buf);
    buf
}

fn round_trip<T: LexOrd + PartialEq + std::fmt::Debug>(value: T) {
    let buf = raw(&value);
    let mut reader = PrefixRead::new(buf.clone());
    let back = T::from_read(&mut reader).unwrap();
    assert!(reader.is_empty(), "({buf:?})");
    assert_eq!(value, back, "({buf:?})");
}

fn seq_head_round_trip<T: LexOrd + PartialEq + std::fmt::Debug>(value: T) {
    let mut buf: Vec<u8> = vec![];
    value.to_write_seq(&mut buf);
    assert!(!buf.is_empty());
    let first = buf[0];
    let mut reader = PrefixRead::new(buf[1..].to_vec());
    let back = T::from_read_seq(first, &mut reader).unwrap();
    assert!(reader.is_empty(), "({buf:?})");
    assert_eq!(value, back, "({buf:?})");
}

#[test]
fn test_round_trip() {
    round_trip(false);
    round_trip(true);
    round_trip(0u8);
    round_trip(0x42u8);
    round_trip(-5i8);
    round_trip(0u16);
    round_trip(0x1FFFu16);
    round_trip(0x2000u16);
    round_trip(u32::MAX);
    round_trip(u64::MAX);
    round_trip(u128::MAX);
    round_trip(usize::MAX);
    round_trip(i16::MIN);
    round_trip(i32::MIN);
    round_trip(i64::MIN);
    round_trip(i128::MIN);
    round_trip(isize::MIN);
    round_trip(String::from("hello"));
    round_trip(String::from("a\0b\u{1}c\u{10348}"));
    round_trip(vec![0u8, 1, 2, 3]);
    round_trip(vec![String::from(""), String::from("\0")]);
    round_trip(vec![vec![1u16], vec![], vec![2u16, 3u16]]);
    round_trip((1u8, (), String::from("x")));
    round_trip(((), ((), 64u16), 3u8, -9i64, VarInt(700u32)));
    round_trip(VarInt(0usize));
}

#[test]
fn test_seq_head_round_trip() {
    seq_head_round_trip(());
    seq_head_round_trip(0u8);
    seq_head_round_trip(1u8);
    seq_head_round_trip(2u8);
    seq_head_round_trip(0xFFu8);
    seq_head_round_trip(-128i8);
    seq_head_round_trip(0u16);
    seq_head_round_trip(String::from(""));
    seq_head_round_trip(String::from("\0\u{1}"));
    seq_head_round_trip(vec![0u8, 1]);
    seq_head_round_trip(<Vec<u16>>::new());
    seq_head_round_trip(((), 0u8));
}

#[test]
fn test_order_preservation() {
    // numeric order must be byte order, across width classes too
    assert!(raw(&0x3Fu16) < raw(&0x40u16));
    assert!(raw(&0x1FFFu32) < raw(&0x2000u32));
    assert!(raw(&0x0FFFFFFFu64) < raw(&0x10000000u64));
    assert!(raw(&0x07FFFFFFFFFFFFFFu128) < raw(&0x0800000000000000u128));
    assert!(raw(&-1i16) < raw(&0i16));
    assert!(raw(&-0x41i32) < raw(&-0x40i32));
    assert!(raw(&i64::MIN) < raw(&(i64::MIN + 1)));
    assert!(raw(&i128::MIN) < raw(&0i128));
    assert!(raw(&false) < raw(&true));
    assert!(raw(&String::from("a")) < raw(&String::from("ab")));
    assert!(raw(&String::from("ab")) < raw(&String::from("b")));
    assert!(raw(&String::from("\0")) < raw(&String::from("\u{1}")));
    assert!(raw(&String::from("")) < raw(&String::from("\0")));
    assert!(raw(&vec![0u8]) < raw(&vec![1u8]));
    assert!(raw(&vec![1u16, 2u16]) < raw(&vec![2u16]));
    assert!(raw(&(1u8, 2u8)) < raw(&(1u8, 3u8)));
    assert!(raw(&(1u8, 255u8)) < raw(&(2u8, 0u8)));
}

#[test]
fn test_sequence_prefix_law() {
    assert!(raw(&<Vec<u16>>::new()) < raw(&vec![0u16]));
    assert!(raw(&vec![5u16]) < raw(&vec![5u16, 0u16]));
    assert!(raw(&vec![0u8]) < raw(&vec![0u8, 0u8]));
    assert!(raw(&vec![()]) < raw(&vec![(), ()]));
    assert!(raw(&String::from("ab")) < raw(&String::from("abc")));
}

#[test]
fn test_errors() {
    // a first byte no class claims
    let mut r = PrefixRead::new(vec![0x00]);
    assert_eq!(u16::from_read(&mut r), Err(Error::Parse));
    let mut r = PrefixRead::new(vec![0x7F]);
    assert_eq!(u32::from_read(&mut r), Err(Error::Parse));
    let mut r = PrefixRead::new(vec![0x03]);
    assert_eq!(i64::from_read(&mut r), Err(Error::Parse));
    // truncated input
    let mut r = PrefixRead::new(vec![]);
    assert_eq!(u64::from_read(&mut r), Err(Error::Eof));
    let mut r = PrefixRead::new(vec![0xC0]);
    assert_eq!(u16::from_read(&mut r), Err(Error::Eof));
    let mut r = PrefixRead::new(vec![0x61, 0x62]);
    assert_eq!(String::from_read(&mut r), Err(Error::Eof));
    // a value wider than the requested width
    let mut r = PrefixRead::new(vec![0xE0, 0x01, 0x00, 0x00]);
    assert_eq!(u16::from_read(&mut r), Err(Error::FromInt));
    let mut r = PrefixRead::new(vec![0xC0, 0xFF]);
    assert_eq!(VarInt::<u8>::from_read(&mut r), Ok(VarInt(255u8)));
    let mut r = PrefixRead::new(vec![0xC1, 0x00]);
    assert_eq!(VarInt::<u8>::from_read(&mut r), Err(Error::FromInt));
    // collected bytes that are not UTF-8
    let mut r = PrefixRead::new(vec![0xFF, 0x00]);
    assert_eq!(String::from_read(&mut r), Err(Error::Utf8));
}

#[test]
fn test_scenarios() {
    assert_eq!(encode(0u16), "80");
    assert_eq!(encode(64u16), "C0 40");
    assert_eq!(encode(u32::MAX), "F0 00 00 00 FF FF FF FF");
    assert_eq!(encode(false), "80");
    assert_eq!(encode(true), "81");
}

#[test]
fn test_non_canonical_accepted() {
    // a value written in a wider class than it needs still decodes
    let mut r = PrefixRead::new(vec![0xE0, 0x00, 0x00, 0x05]);
    assert_eq!(u16::from_read(&mut r), Ok(5u16));
    assert!(r.is_empty());
}

#[test]
fn test_read_iter() {
    let mut buf: Vec<u8> = vec![];
    vec![0u16, 1u16, 2u16].to_write(&mut buf);
    let mut it: ReadIter<u16> = ReadIter::new(PrefixRead::new(buf));
    assert_eq!(it.next().map(Result::unwrap), Some(0u16));
    assert_eq!(it.next().map(Result::unwrap), Some(1u16));
    assert_eq!(it.next().map(Result::unwrap), Some(2u16));
    assert!(it.next().is_none());

    let mut buf: Vec<u8> = vec![];
    write_seq_iterator(&mut buf, &[0u8, 1u8][..]);
    assert_eq!(buf, vec![0x01, 0x01, 0x00, 0x01, 0x01, 0x00]);
    let first = buf[0];
    let mut it: ReadIter<u8> = ReadIter::new_seq(first, PrefixRead::new(buf[1..].to_vec())).unwrap();
    assert_eq!(it.next().map(Result::unwrap), Some(0u8));
    assert_eq!(it.next().map(Result::unwrap), Some(1u8));
    assert!(it.next().is_none());
}

#[test]
fn test_write_iterator_matches_vec() {
    let items = vec![0u8, 1u8, 9u8];
    let mut a: Vec<u8> = vec![];
    write_iterator(&mut a, items.as_slice());
    let b = raw(&items);
    assert_eq!(a, b);
    assert_eq!(a, vec![0x01, 0x00, 0x01, 0x01, 0x09, 0x00]);
}

#[test]
fn test_discarded_framing_byte() {
    // a zero-width element consumes the framing byte that announced it,
    // whatever that byte was
    let mut r = PrefixRead::new(vec![0x05, 0x00]);
    assert_eq!(Vec::<()>::from_read(&mut r), Ok(vec![()]));
    assert!(r.is_empty());
}

#[test]
fn test_encode_hex_rendering() {
    assert_eq!(encode(()), "");
    assert_eq!(encode(0x0Fu8), "0F");
    assert_eq!(encode((0xABu8, 0xCDu8)), "AB CD");
}

#[test]
fn test_array_format() {
    assert_eq!(encode([0u16, 1u16, 2u16, 3u16]), "80 81 82 83 00");
    assert_eq!(encode([0u8, 1u8, 2u8, 3u8]), "01 00 01 01 02 03 00");
    assert_eq!(raw(&[5u16, 6u16]), raw(&vec![5u16, 6u16]));
}

#[test]
fn test_round_trip_helpers() {
    assert_eq!(lexord::codec::round_trip(&42u16), 42u16);
    assert_eq!(lexord::codec::round_trip(&String::from("hi")), "hi");
    assert_eq!(lexord::codec::round_trip(&vec![1u8, 0u8]), vec![1u8, 0u8]);
    assert_eq!(lexord::codec::round_trip_seq_head(&0u8), 0u8);
    assert_eq!(lexord::codec::round_trip_seq_head(&()), ());
    assert_eq!(lexord::codec::round_trip_seq_head(&vec![0u16]), vec![0u16]);
}
