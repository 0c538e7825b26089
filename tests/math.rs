use chii::math::{div_ceil, le_bytes, low_mask, required_bit_width, shl_with_carry, vec_shl};

#[test]
fn div_ceil_1_2() {
    assert_eq!(1, div_ceil(1, 2));
}

#[test]
fn div_ceil_2_2() {
    assert_eq!(1, div_ceil(2, 2));
}

#[test]
fn div_ceil_3_2() {
    assert_eq!(2, div_ceil(3, 2));
}

#[test]
fn shl_with_carry_0xd0() {
    assert_eq!((0x80, 0x06), shl_with_carry(0xd0, 3));
}

#[test]
fn shl_with_carry_edges() {
    assert_eq!((0xd0, 0x00), shl_with_carry(0xd0, 0));
    assert_eq!((0x00, 0xd0), shl_with_carry(0xd0, 8));
}

#[test]
fn required_bit_width_6() {
    assert_eq!(3, required_bit_width(6));
}

#[test]
fn required_bit_width_8() {
    assert_eq!(3, required_bit_width(8));
}

#[test]
fn required_bit_width_97() {
    assert_eq!(7, required_bit_width(97))
}

#[test]
fn required_bit_width_small_values() {
    assert_eq!(0, required_bit_width(0));
    assert_eq!(0, required_bit_width(1));
    assert_eq!(1, required_bit_width(2));
    assert_eq!(2, required_bit_width(3));
    assert_eq!(2, required_bit_width(4));
    assert_eq!(3, required_bit_width(5));
    assert_eq!(64, required_bit_width(usize::MAX));
}

#[test]
fn vec_shl_out_zero() {
    let bytes = vec![0x80, 0x01];
    let shifted = vec_shl(bytes, 1);
    assert_eq!(vec![0, 3, 0], shifted);
}

#[test]
fn vec_shl_with_extend_vec() {
    let bytes = vec![0x80];
    let shifted = vec_shl(bytes, 1);
    assert_eq!(vec![0, 1], shifted);
}

#[test]
fn vec_shl_by_two() {
    assert_eq!(vec![0xcc, 0x05, 0x00], vec_shl(vec![0x73, 0x01], 2));
}

#[test]
fn vec_shl_by_whole_bytes() {
    assert_eq!(vec![0, 0x73, 0x01], vec_shl(vec![0x73, 0x01], 8));
    assert_eq!(vec![0, 0xcc, 0x05, 0x00], vec_shl(vec![0x73, 0x01], 10));
}

#[test]
fn low_mask_3() {
    assert_eq!(0b0000_0111, low_mask(3));
}

#[test]
fn low_mask_edges() {
    assert_eq!(0, low_mask(0));
    assert_eq!(0xff, low_mask(8));
}

#[test]
fn le_bytes_truncates() {
    assert_eq!(vec![0x34, 0x12], le_bytes(0x5678_1234, 2));
    assert_eq!(vec![5, 0, 0, 0], le_bytes(5, 4));
}

#[test]
fn pad_and_read_little_endian() {
    let mut v = vec![1u8, 2];
    chii::math::pad_with_zero(4, &mut v);
    assert_eq!(v, vec![1, 2, 0, 0]);
    chii::math::pad_with_zero(1, &mut v);
    assert_eq!(v, vec![1, 2, 0, 0]);
    assert_eq!(chii::math::le_to_u64(&[0x34, 0x12]), 0x1234);
    assert_eq!(chii::math::le_to_u64(&[0xff; 8]), u64::MAX);
    assert_eq!(chii::math::le_to_u64(&[]), 0);
}
