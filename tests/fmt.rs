use ibig::radix::{digit_from_utf8_byte, radix_info};
use ibig::{Alignment, FormatOptions, IBig, RadixStyle, Sign, UBig};

fn options() -> FormatOptions {
    FormatOptions::plain()
}

fn ibig(sign: Sign, magnitude: u128) -> IBig {
    IBig::from_sign_magnitude(sign, UBig::from(magnitude))
}

/// Digits of `n` in `radix` by repeated division, for comparison.
fn reference(mut n: u128, radix: u32, upper: bool) -> String {
    let alphabet: &[u8] = if upper {
        b"0123456789ABCDEFGHIJKLMNOPQRSTUVWXYZ"
    } else {
        b"0123456789abcdefghijklmnopqrstuvwxyz"
    };
    let mut digits = Vec::new();
    loop {
        digits.push(alphabet[(n % radix as u128) as usize]);
        n /= radix as u128;
        if n == 0 {
            break;
        }
    }
    digits.reverse();
    String::from_utf8(digits).unwrap()
}

const SAMPLES: [u128; 10] = [
    0,
    1,
    35,
    83,
    3000,
    u64::MAX as u128,
    1 << 64,
    (1 << 64) + 5,
    100000000000000000007,
    u128::MAX,
];

#[test]
fn in_radix_three() {
    assert_eq!(UBig::from(83u8).in_radix(3).to_string(), "10002");
    assert_eq!(UBig::from(83u8).to_str_radix(3), "10002");
    assert_eq!(ibig(Sign::Negative, 83).in_radix(3).to_string(), "-10002");
}

#[test]
fn zero_padding_with_plus_sign() {
    let mut o = options();
    o.width = Some(10);
    o.zero_pad = true;
    o.sign_plus = true;
    assert_eq!(UBig::from(35u8).in_radix(36).to_string_with(&o), "+00000000z");
    assert_eq!(UBig::from(35u8).in_radix(36).to_string(), "z");
    let mut o = options();
    o.width = Some(10);
    o.zero_pad = true;
    assert_eq!(ibig(Sign::Negative, 35).in_radix(36).to_string_with(&o), "-00000000z");
}

#[test]
fn hex_of_3000() {
    assert_eq!(ibig(Sign::Negative, 3000).to_str_radix(16), "-bb8");
    assert_eq!(UBig::from(3000u32).format_style(RadixStyle::LowerHex, &options()), "bb8");
    assert_eq!(ibig(Sign::Negative, 3000).format_style(RadixStyle::LowerHex, &options()), "-bb8");
    let mut o = options();
    o.alternate = true;
    assert_eq!(UBig::from(3000u32).format_style(RadixStyle::LowerHex, &o), "0xbb8");
    assert_eq!(UBig::from(3000u32).format_style(RadixStyle::UpperHex, &o), "0xBB8");
    assert_eq!(UBig::from(5u32).format_style(RadixStyle::Binary, &o), "0b101");
    assert_eq!(UBig::from(8u32).format_style(RadixStyle::Octal, &o), "0o10");
    assert_eq!(UBig::from(3000u32).format_style(RadixStyle::Decimal, &o), "3000");
}

#[test]
fn hex_and_uppercase() {
    assert_eq!(UBig::from(0x123fu32).to_str_radix(16), "123f");
    assert_eq!(UBig::from(0x123fu32).to_str_radix_uppercase(16), "123F");
    assert_eq!(ibig(Sign::Negative, 0x123f).to_str_radix(16), "-123f");
    assert_eq!(ibig(Sign::Negative, 0x123f).to_str_radix_uppercase(16), "-123F");
    let mut o = options();
    o.alternate = true;
    assert_eq!(UBig::from(0x123fu32).in_radix(16).to_string_with(&o), "123F");
}

#[test]
fn zero_is_one_digit_in_every_radix() {
    let zero = UBig::from(0u8);
    for radix in 2..=36 {
        assert_eq!(zero.to_str_radix(radix), "0");
        assert_eq!(zero.in_radix(radix).format().width(), 1);
    }
    assert_eq!(ibig(Sign::Negative, 0).to_str_radix(10), "0");
}

#[test]
fn all_paths_match_reference() {
    for &n in SAMPLES.iter() {
        let u = UBig::from(n);
        for radix in 2..=36 {
            assert_eq!(u.to_str_radix(radix), reference(n, radix, false));
            assert_eq!(u.to_str_radix_uppercase(radix), reference(n, radix, true));
        }
    }
}

#[test]
fn power_of_two_paths_match_std() {
    for &n in SAMPLES.iter() {
        let u = UBig::from(n);
        assert_eq!(u.to_str_radix(16), format!("{:x}", n));
        assert_eq!(u.to_str_radix(8), format!("{:o}", n));
        assert_eq!(u.to_str_radix(2), format!("{:b}", n));
        assert_eq!(u.to_str_radix(10), format!("{}", n));
    }
}

#[test]
fn width_equals_characters_written() {
    for &n in SAMPLES.iter() {
        let u = UBig::from(n);
        for radix in 2..=36 {
            let width = u.in_radix(radix).format().width();
            assert_eq!(width, u.to_str_radix(radix).len());
        }
    }
}

#[test]
fn decoding_digits_rebuilds_the_number() {
    for &n in SAMPLES.iter() {
        let u = UBig::from(n);
        for radix in 2..=36 {
            let s = u.to_str_radix(radix);
            let mut value: u128 = 0;
            for b in s.bytes() {
                let d = digit_from_utf8_byte(b, radix).unwrap();
                value = value * radix as u128 + d as u128;
            }
            assert_eq!(value, n);
        }
    }
}

#[test]
fn low_group_is_zero_padded() {
    // 10^20 + 7: the top group is "10", the low group 7 is padded to 19 digits.
    let n = UBig::from(100000000000000000007u128);
    assert_eq!(n.words().len(), 2);
    assert_eq!(radix_info(10).digits_per_word, 19);
    assert_eq!(n.to_str_radix(10), "100000000000000000007");
    // 3^40 + 1 in radix 3: the low group of 40 digits is 1, padded.
    let n = UBig::from(12157665459056928801u128 * 3 + 1);
    let s = n.to_str_radix(3);
    assert_eq!(s.len(), 42);
    assert_eq!(&s[..2], "10");
    assert_eq!(&s[2..], "0000000000000000000000000000000000000001");
}

#[test]
fn multi_word_power_of_two_straddles_words() {
    // Radix 8 digits take bits from two words at the word boundary.
    let n: u128 = (0b101u128 << 62) | 0x1234;
    assert_eq!(UBig::from(n).to_str_radix(8), format!("{:o}", n));
    assert_eq!(UBig::from(n).to_str_radix(32), reference(n, 32, false));
}

#[test]
fn fill_and_alignment() {
    let x = UBig::from(35u8);
    let mut o = options();
    o.width = Some(4);
    o.fill = '*';
    assert_eq!(x.in_radix(36).to_string_with(&o), "***z");
    o.align = Some(Alignment::Left);
    assert_eq!(x.in_radix(36).to_string_with(&o), "z***");
    o.align = Some(Alignment::Right);
    assert_eq!(x.in_radix(36).to_string_with(&o), "***z");
    o.align = Some(Alignment::Center);
    assert_eq!(x.in_radix(36).to_string_with(&o), "*z**");
    o.width = Some(5);
    assert_eq!(ibig(Sign::Negative, 35).in_radix(36).to_string_with(&o), "*-z**");
    o.width = Some(1);
    assert_eq!(ibig(Sign::Negative, 35).in_radix(36).to_string_with(&o), "-z");
}

#[test]
fn fill_may_be_any_character() {
    let mut o = options();
    o.width = Some(6);
    o.fill = 'é';
    o.align = Some(Alignment::Center);
    assert_eq!(UBig::from(3000u32).in_radix(16).to_string_with(&o), "ébb8éé");
}

#[test]
fn plus_sign_is_never_added_to_negative() {
    let mut o = options();
    o.sign_plus = true;
    assert_eq!(ibig(Sign::Negative, 7).in_radix(10).to_string_with(&o), "-7");
    assert_eq!(ibig(Sign::Positive, 7).in_radix(10).to_string_with(&o), "+7");
}
