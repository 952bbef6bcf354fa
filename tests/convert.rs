use ibig::ubig::Buffer;
use ibig::UBig;
use std::convert::TryFrom;

#[test]
fn test_from_unsigned() {
    assert_eq!(UBig::from(0xf1u8), UBig::from_word(0xf1));
    assert_eq!(UBig::from(0xf123u16), UBig::from_word(0xf123));
    assert_eq!(UBig::from(0xf1234567u32), UBig::from_word(0xf1234567));
    assert_eq!(
        UBig::from(0xf123456701234567u64),
        UBig::from_word(0xf123456701234567)
    );
    let mut buf = Buffer::allocate(2);
    buf.push(0x0123456701234567);
    buf.push(0xf123456701234567);
    let num: UBig = buf.into();
    assert_eq!(UBig::from(0xf1234567012345670123456701234567u128), num);
    assert_eq!(UBig::from(5u128), UBig::from_word(5));
    assert_eq!(UBig::from(5usize), UBig::from_word(5));
}

#[test]
fn test_from_bool() {
    assert_eq!(UBig::from(false), UBig::from(0u8));
    assert_eq!(UBig::from(true), UBig::from(1u8));
}

#[test]
fn test_from_char() {
    assert_eq!(UBig::from('a'), UBig::from(0x61u8));
    assert_eq!(UBig::from('Ł'), UBig::from(0x141u16));
}

#[test]
fn test_from_signed() {
    assert!(UBig::try_from(-5i32).is_err());
    assert_eq!(UBig::try_from(5i32), Ok(UBig::from(5u32)));
    assert_eq!(UBig::try_from(5i128 << 120), Ok(UBig::from(5u128 << 120)));
}

#[test]
fn buffer_drops_top_zero_words() {
    let mut buf = Buffer::allocate(3);
    buf.push(7);
    buf.push(0);
    buf.push(0);
    let num: UBig = buf.into();
    assert_eq!(num, UBig::from_word(7));
    assert_eq!(num.words().len(), 1);
}

#[test]
fn empty_buffer_is_zero() {
    let buf = Buffer::allocate(0);
    let num: UBig = buf.into();
    assert_eq!(num, UBig::from_word(0));
}

#[test]
fn u128_splits_into_two_words() {
    let num = UBig::from(0x0000_0000_0000_0003_0000_0000_0000_0009u128);
    assert_eq!(num.words(), &vec![9, 3]);
}

#[test]
fn division_in_place_keeps_quotient_and_remainder() {
    let mut buf = Buffer::allocate(2);
    buf.extend(&[5, 1]);
    let rem = ibig::ubig::div_rem_by_word_in_place(&mut buf, 10);
    // 2^64 + 5 = 18446744073709551621 = 10 * 1844674407370955162 + 1
    assert_eq!(rem, 1);
    assert_eq!(buf.get(0), 1844674407370955162);
    assert_eq!(buf.get(1), 0);
    buf.pop_leading_zeros();
    assert_eq!(buf.len(), 1);
}
