use lexord::util::test::encode;

fn hexify(bytes: &[u8]) -> String {
    bytes.iter().map(|b| format!("{b:02X}")).collect::<Vec<String>>().join(" ")
}

#[test]
fn test_u8() {
    assert_eq!(encode(0u8), "00");
    assert_eq!(encode(1u8), "01");
    assert_eq!(encode(10u8), "0A");
    assert_eq!(encode(254u8), "FE");
    assert_eq!(encode(255u8), "FF");
}

#[test]
fn test_i8() {
    assert_eq!(encode(0i8), "80");
    assert_eq!(encode(1i8), "81");
    assert_eq!(encode(10i8), "8A");
    assert_eq!(encode(126i8), "FE");
    assert_eq!(encode(127i8), "FF");
    assert_eq!(encode(-128i8), "00");
    assert_eq!(encode(-127i8), "01");
}

#[test]
fn test_string_format() {
    assert_eq!(encode("".to_string()), "00");
    assert_eq!(encode("abc".to_string()), "61 62 63 00");
    assert_eq!(encode("\0".to_string()), "01 00 00");
    assert_eq!(encode("\x01".to_string()), "01 01 00");
}

#[test]
fn test_tuple() {
    assert_eq!(encode(()), "");
    assert_eq!(encode((1u8, 2u8, 3u8)), "01 02 03");
    assert_eq!(encode(((), ((), 1u8, ()), ((), (), ()), 2u8, 3u8)), "01 02 03");
    assert_eq!(encode(("abc".to_string(), 2u8, 3u8)), "61 62 63 00 02 03");
}

#[test]
fn test_vec_format() {
    assert_eq!(encode(<Vec<()>>::new()), "00");
    assert_eq!(encode(<Vec<u8>>::new()), "00");
    assert_eq!(encode(<Vec<u16>>::new()), "00");
    assert_eq!(encode(vec![()]), "01 00");
    assert_eq!(encode(vec![0u8, 1u8, 2u8, 3u8]), "01 00 01 01 02 03 00");
    assert_eq!(encode(vec![0u16, 1u16, 2u16, 3u16]), "80 81 82 83 00");
}

fn encode_f32(v: f32) -> String {
    let mut buf: Vec<u8> = vec![];
    lexord::stdlib::float::f32_to_write(v.to_bits(), &mut buf);
    let mut r = lexord::PrefixRead::new(buf.clone());
    let bits = lexord::stdlib::float::f32_from_read(&mut r).unwrap();
    assert!(r.is_empty());
    let back = f32::from_bits(bits);
    assert!(back == v || (back.is_nan() && v.is_nan()), "{v} != {back}");
    hexify(&buf)
}

fn encode_f64(v: f64) -> String {
    let mut buf: Vec<u8> = vec![];
    lexord::stdlib::float::f64_to_write(v.to_bits(), &mut buf);
    let mut r = lexord::PrefixRead::new(buf.clone());
    let bits = lexord::stdlib::float::f64_from_read(&mut r).unwrap();
    assert!(r.is_empty());
    let back = f64::from_bits(bits);
    assert!(back == v || (back.is_nan() && v.is_nan()), "{v} != {back}");
    hexify(&buf)
}

#[test]
fn test_f32() {
    assert_eq!(encode_f32(0f32), "80 00 00 00");
    assert_eq!(encode_f32(-0f32), "80 00 00 00");
    assert_eq!(encode_f32(1f32), "BF 80 00 00");
    assert_eq!(encode_f32(-1f32), "40 7F FF FF");
    assert_eq!(encode_f32(f32::NAN), "FF C0 00 00");
    assert_eq!(encode_f32(f32::INFINITY), "FF 80 00 00");
    assert_eq!(encode_f32(f32::NEG_INFINITY), "00 7F FF FF");
    assert_eq!(encode_f32(f32::EPSILON), "B4 00 00 00");
    assert_eq!(encode_f32(f32::MAX), "FF 7F FF FF");
    assert_eq!(encode_f32(f32::MIN), "00 80 00 00");
    assert_eq!(encode_f32(f32::MIN_POSITIVE), "80 80 00 00");
}

#[test]
fn test_f64() {
    assert_eq!(encode_f64(0f64), "80 00 00 00 00 00 00 00");
    assert_eq!(encode_f64(-0f64), "80 00 00 00 00 00 00 00");
    assert_eq!(encode_f64(1f64), "BF F0 00 00 00 00 00 00");
    assert_eq!(encode_f64(-1f64), "40 0F FF FF FF FF FF FF");
    assert_eq!(encode_f64(f64::NAN), "FF F8 00 00 00 00 00 00");
    assert_eq!(encode_f64(f64::INFINITY), "FF F0 00 00 00 00 00 00");
    assert_eq!(encode_f64(f64::NEG_INFINITY), "00 0F FF FF FF FF FF FF");
    assert_eq!(encode_f64(f64::EPSILON), "BC B0 00 00 00 00 00 00");
    assert_eq!(encode_f64(f64::MAX), "FF EF FF FF FF FF FF FF");
    assert_eq!(encode_f64(f64::MIN), "00 10 00 00 00 00 00 00");
    assert_eq!(encode_f64(f64::MIN_POSITIVE), "80 10 00 00 00 00 00 00");
}

#[test]
fn test_float_order() {
    let values = [
        f32::NEG_INFINITY,
        f32::MIN,
        -1.0f32,
        -f32::MIN_POSITIVE,
        0.0f32,
        f32::MIN_POSITIVE,
        1.0f32,
        f32::MAX,
        f32::INFINITY,
    ];
    for pair in values.windows(2) {
        let mut a: Vec<u8> = vec![];
        let mut b: Vec<u8> = vec![];
        lexord::stdlib::float::f32_to_write(pair[0].to_bits(), &mut a);
        lexord::stdlib::float::f32_to_write(pair[1].to_bits(), &mut b);
        assert!(a < b, "{} !< {}", pair[0], pair[1]);
    }
    let values = [f64::NEG_INFINITY, -2.5f64, -0.0f64, f64::EPSILON, 7.25f64, f64::INFINITY];
    for pair in values.windows(2) {
        let mut a: Vec<u8> = vec![];
        let mut b: Vec<u8> = vec![];
        lexord::stdlib::float::f64_to_write(pair[0].to_bits(), &mut a);
        lexord::stdlib::float::f64_to_write(pair[1].to_bits(), &mut b);
        assert!(a < b, "{} !< {}", pair[0], pair[1]);
    }
}
