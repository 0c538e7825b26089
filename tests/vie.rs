use chii::vie::{split_high_bit, u7_to_u8, u8_to_u7, CodePoint};

#[test]
fn code_point_from_u8_no_high_bit() {
    let cp = CodePoint::encode(0x7f);
    assert_eq!(&[0x7f], cp.bytes());
}

#[test]
fn code_point_from_u8_with_high_bit() {
    let cp = CodePoint::encode(0xd9);
    assert_eq!(&[0xd9, 0x01], cp.bytes());
}

#[test]
fn code_point_from_u16() {
    let cp = CodePoint::encode(0x7081);
    assert_eq!(&[0x81, 0xe1, 0x01], cp.bytes());
}

#[test]
fn code_point_from_zero() {
    let cp = CodePoint::encode(0);
    assert_eq!(&[0u8], cp.bytes());
}

#[test]
fn code_point_from_128() {
    let cp = CodePoint::encode(128);
    assert_eq!(&[0x80, 0x01], cp.bytes());
}

#[test]
fn code_point_encode_decode_0() {
    let cp = CodePoint::encode(0);
    assert_eq!(Some(0), cp.decode(8));
}

#[test]
fn code_point_encode_decode_1() {
    let cp = CodePoint::encode(1);
    assert_eq!(Some(1), cp.decode(4));
}

#[test]
fn code_point_encode_decode_128() {
    let cp = CodePoint::encode(128);
    assert_eq!(Some(128), cp.decode(1));
}

#[test]
fn code_point_encode_decode_32768() {
    let cp = CodePoint::encode(32768);
    assert_eq!(Some(32768), cp.decode(2));
}

#[test]
fn code_point_encode_decode_0x2_0000_0000_0000() {
    let value = 0x2_0000_0000_0000u64;
    let cp = CodePoint::encode(value);
    assert_eq!(Some(value), cp.decode(8));
}

#[test]
fn code_point_count_for_u64_max_is_9() {
    let value = i64::MAX as u64;
    let cp = CodePoint::encode(value);
    assert_eq!(9, cp.count());
}

#[test]
fn split_high_bit_with_no_high_bit() {
    assert_eq!((0x7f, 0x00), split_high_bit(0x7f));
}

#[test]
fn split_high_bit_with_high_bit() {
    assert_eq!((0x5f, 0x01), split_high_bit(0xdf));
}

#[test]
fn code_point_131() {
    let cp = CodePoint::encode(131);
    assert_eq!(&[0x83, 0x01], cp.bytes());
    assert_eq!(Some(131), cp.decode(2));
}

#[test]
fn code_point_decode_overflow() {
    let cp = CodePoint::encode(300);
    assert_eq!(None, cp.decode(1));
    assert_eq!(Some(300), cp.decode(2));
    let cp = CodePoint::encode(u64::MAX);
    assert_eq!(10, cp.count());
    assert_eq!(Some(u64::MAX), cp.decode(8));
    assert_eq!(None, cp.decode(7));
}

#[test]
fn code_point_round_trips_and_is_canonical() {
    for x in [0u64, 1, 127, 128, 255, 256, 16383, 16384, 1 << 35, u64::MAX - 1] {
        let cp = CodePoint::encode(x);
        assert_eq!(Some(x), cp.decode(8));
        let last = *cp.bytes().last().unwrap();
        assert!(last & 0x80 == 0);
        assert!(x == 0 || last != 0);
        for b in &cp.bytes()[..cp.count() - 1] {
            assert!(b & 0x80 != 0);
        }
    }
}

#[test]
fn u8_to_u7_single_byte_no_high_bit() {
    let bytes = [0x7f];
    assert_eq!(&[0x7f], &u8_to_u7(&bytes)[..]);
}

#[test]
fn u8_to_u7_single_byte_with_high_bit() {
    let bytes = [0xd9];
    assert_eq!(&[0x59, 0x01], &u8_to_u7(&bytes)[..])
}

#[test]
fn u8_to_u7_two_bytes_with_no_final_carry_out() {
    let bytes = [0x01, 0x3f];
    assert_eq!(&[0x01, 0x7e], &u8_to_u7(&bytes)[..])
}

#[test]
fn u8_to_u7_two_bytes_with_final_carry_out() {
    let bytes = [0x81, 0x70];
    assert_eq!(&[0x01, 0x61, 0x01], &u8_to_u7(&bytes)[..])
}

#[test]
fn u7_to_u8_inverts_u8_to_u7() {
    let bytes = [0x81, 0x70, 0xff, 0x00, 0x12];
    let groups = u8_to_u7(&bytes);
    assert!(groups.iter().all(|g| *g < 128));
    let back = u7_to_u8(&groups);
    assert_eq!(&bytes[..], &back[..5]);
    assert!(back[5..].iter().all(|b| *b == 0));
    assert_eq!(vec![0x59u8], u7_to_u8(&[0x59]));
}
