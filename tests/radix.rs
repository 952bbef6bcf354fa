use ibig::radix::{
    check_radix_valid, digit_from_utf8_byte, digit_to_ascii, fill_radix_info_table, radix_info,
    DigitCase, RadixInfo, Word, MAX_RADIX, WORD_BITS,
};

#[test]
fn test_radix_info_table() {
    for radix in 2..=MAX_RADIX {
        let info = radix_info(radix);
        // Check vs an approximation that happens to work for all bases.
        assert_eq!(
            info.digits_per_word,
            ((WORD_BITS as f64 + 0.01) / (radix as f64).log2()) as usize
        );
        if !radix.is_power_of_two() {
            assert_eq!(
                info.range_per_word,
                (radix as Word).pow(info.digits_per_word as u32)
            );
        }
    }
}

#[test]
fn test_digit_from_utf8_byte() {
    assert_eq!(digit_from_utf8_byte(b'7', 10), Some(7));
    assert_eq!(digit_from_utf8_byte(b'a', 16), Some(10));
    assert_eq!(digit_from_utf8_byte(b'z', 36), Some(35));
    assert_eq!(digit_from_utf8_byte(b'Z', 36), Some(35));
    assert_eq!(digit_from_utf8_byte(b'?', 10), None);
    assert_eq!(digit_from_utf8_byte(b'a', 10), None);
    assert_eq!(digit_from_utf8_byte(b'z', 35), None);
    assert_eq!(digit_from_utf8_byte(255, 35), None);
}

#[test]
fn digit_encode_decode_round_trip() {
    for radix in 2..=MAX_RADIX {
        for d in 0..radix {
            for case in [DigitCase::Lower, DigitCase::Upper] {
                let byte = digit_to_ascii(d, case);
                assert_eq!(digit_from_utf8_byte(byte, radix), Some(d));
            }
        }
    }
}

#[test]
fn digit_letters_follow_case() {
    assert_eq!(digit_to_ascii(9, DigitCase::Lower), b'9');
    assert_eq!(digit_to_ascii(10, DigitCase::Lower), b'a');
    assert_eq!(digit_to_ascii(35, DigitCase::Lower), b'z');
    assert_eq!(digit_to_ascii(10, DigitCase::Upper), b'A');
    assert_eq!(digit_to_ascii(35, DigitCase::Upper), b'Z');
}

#[test]
fn invalid_radix_is_reported() {
    assert!(check_radix_valid(0).is_err());
    assert!(check_radix_valid(1).is_err());
    assert!(check_radix_valid(37).is_err());
    assert_eq!(check_radix_valid(37).unwrap_err().radix, 37);
    assert!(check_radix_valid(2).is_ok());
    assert!(check_radix_valid(36).is_ok());
}

#[test]
fn radix_info_exact_values() {
    let info = radix_info(10);
    assert_eq!(info.digits_per_word, 19);
    assert_eq!(info.range_per_word, 10_000_000_000_000_000_000);
    let info = radix_info(3);
    assert_eq!(info.digits_per_word, 40);
    let info = radix_info(16);
    assert_eq!(info.digits_per_word, 16);
    assert_eq!(info.range_per_word, 0);
    let info = radix_info(32);
    assert_eq!(info.digits_per_word, 12);
}

#[test]
fn filled_table_matches_radix_info() {
    let mut table = Vec::new();
    for _ in 0..=MAX_RADIX {
        table.push(RadixInfo { digits_per_word: 0, range_per_word: 0 });
    }
    let table = fill_radix_info_table(table, 2);
    assert_eq!(table.len(), MAX_RADIX as usize + 1);
    for radix in 2..=MAX_RADIX {
        let info = radix_info(radix);
        assert_eq!(table[radix as usize].digits_per_word, info.digits_per_word);
        assert_eq!(table[radix as usize].range_per_word, info.range_per_word);
    }
    assert_eq!(table[0].digits_per_word, 0);
}
