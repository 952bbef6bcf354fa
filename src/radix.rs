//! Information about radixes: validity, digit characters and the number of
//! digits that fit in a word.

use vstd::arithmetic::power::*;
use vstd::arithmetic::power2::*;
use vstd::prelude::*;

verus! {

/// Digit and radix type.
pub type Digit = u32;

/// A machine word, the unit of storage of a magnitude.
pub type Word = u64;

/// Number of bits in a `Word`.
pub const WORD_BITS: u32 = 64;

/// Maximum supported radix.
pub const MAX_RADIX: Digit = 36;

/// Number of distinct values of a `Word`.
pub open spec fn word_base() -> nat {
    0x1_0000_0000_0000_0000
}

/// A radix is valid when it lies in `[2, 36]`.
pub open spec fn valid_radix(radix: int) -> bool {
    2 <= radix <= MAX_RADIX
}

/// The valid radixes that are powers of two.
pub open spec fn pow2_radix(radix: int) -> bool {
    radix == 2 || radix == 4 || radix == 8 || radix == 16 || radix == 32
}

/// Number of bits of one digit in a power-of-two radix.
pub open spec fn log2_radix(radix: int) -> nat {
    if radix == 2 {
        1
    } else if radix == 4 {
        2
    } else if radix == 8 {
        3
    } else if radix == 16 {
        4
    } else {
        5
    }
}

/// Is a radix in valid range?
pub fn is_radix_valid(radix: Digit) -> (r: bool)
    ensures
        r == valid_radix(radix as int),
{
    2 <= radix && radix <= MAX_RADIX
}

/// A radix outside `[2, 36]`.
#[derive(Clone, Copy, Debug, PartialEq, Eq, Structural)]
pub struct InvalidRadix {
    pub radix: Digit,
}

/// Checks that `radix` is in valid range.
pub fn check_radix_valid(radix: Digit) -> (r: Result<(), InvalidRadix>)
    ensures
        r is Ok <==> valid_radix(radix as int),
        r matches Err(e) ==> e.radix == radix,
{
    if is_radix_valid(radix) {
        Ok(())
    } else {
        Err(InvalidRadix { radix })
    }
}

/// Is the radix a power of two? Only meaningful for a valid radix.
pub fn is_pow2_radix(radix: Digit) -> (r: bool)
    requires
        valid_radix(radix as int),
    ensures
        r == pow2_radix(radix as int),
{
    radix == 2 || radix == 4 || radix == 8 || radix == 16 || radix == 32
}

/// Number of bits of one digit in a power-of-two radix.
pub fn log2_of_radix(radix: Digit) -> (r: u32)
    requires
        pow2_radix(radix as int),
    ensures
        r == log2_radix(radix as int),
        1 <= r <= 5,
        pow2(r as nat) == radix,
{
    proof {
        vstd::arithmetic::power2::lemma2_to64();
    }
    if radix == 2 {
        1
    } else if radix == 4 {
        2
    } else if radix == 8 {
        3
    } else if radix == 16 {
        4
    } else {
        5
    }
}

/// Letter case of digits 10 to 35.
#[derive(Clone, Copy, Debug, PartialEq, Eq, Structural)]
pub enum DigitCase {
    NoLetters,
    Lower,
    Upper,
}

/// How far digits of value 10 and above are shifted in ASCII past `'0' + value`.
pub open spec fn case_offset(digit_case: DigitCase) -> nat {
    match digit_case {
        DigitCase::NoLetters => 0,
        DigitCase::Lower => 39,
        DigitCase::Upper => 7,
    }
}

/// The ASCII byte of a digit.
pub open spec fn digit_byte(digit: nat, digit_case: DigitCase) -> u8 {
    if digit < 10 {
        (48 + digit) as u8
    } else {
        (48 + digit + case_offset(digit_case)) as u8
    }
}

/// Converts a digit to its ASCII representation.
pub fn digit_to_ascii(digit: Digit, digit_case: DigitCase) -> (r: u8)
    requires
        digit < MAX_RADIX,
    ensures
        r == digit_byte(digit as nat, digit_case),
        r < 128,
{
    if digit < 10 {
        (48 + digit) as u8
    } else {
        let offset: u32 = match digit_case {
            DigitCase::NoLetters => 0,
            DigitCase::Lower => 39,
            DigitCase::Upper => 7,
        };
        (48 + digit + offset) as u8
    }
}

/// The value of an ASCII digit in a radix, if it is one.
pub open spec fn byte_digit(byte: u8, radix: nat) -> Option<nat> {
    let value: int = if 48 <= byte <= 57 {
        byte - 48
    } else if 97 <= byte <= 122 {
        byte - 97 + 10
    } else if 65 <= byte <= 90 {
        byte - 65 + 10
    } else {
        radix as int
    };
    if value < radix {
        Some(value as nat)
    } else {
        None
    }
}

/// Converts a byte (ASCII) representation of a digit to its value.
pub fn digit_from_utf8_byte(byte: u8, radix: Digit) -> (r: Option<Digit>)
    ensures
        r matches Some(d) ==> byte_digit(byte, radix as nat) == Some(d as nat),
        r is None ==> byte_digit(byte, radix as nat) is None,
{
    let res: Digit = if 48 <= byte && byte <= 57 {
        (byte - 48) as Digit
    } else if 97 <= byte && byte <= 122 {
        (byte - 97) as Digit + 10
    } else if 65 <= byte && byte <= 90 {
        (byte - 65) as Digit + 10
    } else {
        return None;
    };
    if res < radix {
        Some(res)
    } else {
        None
    }
}

/// Decoding the character of a digit gives the digit back, in either letter
/// case and in every valid radix.
pub proof fn lemma_decode_encode_digit(radix: nat, digit: nat, digit_case: DigitCase)
    requires
        valid_radix(radix as int),
        digit < radix,
        digit_case != DigitCase::NoLetters,
    ensures
        byte_digit(digit_byte(digit, digit_case), radix) == Some(digit),
{
}

/// Properties of a given radix.
#[derive(Clone, Copy, Debug)]
pub struct RadixInfo {
    /// The number of digits that can always fit in a `Word`.
    pub digits_per_word: usize,
    /// Radix to the power of `digits_per_word`.
    /// Only for non-power-of-2 radixes; 0 otherwise.
    pub range_per_word: Word,
}

/// What `RadixInfo` holds for a valid radix.
pub open spec fn radix_info_spec(radix: nat, info: RadixInfo) -> bool {
    if pow2_radix(radix as int) {
        &&& info.digits_per_word == 64nat / log2_radix(radix as int)
        &&& info.range_per_word == 0
    } else {
        &&& info.range_per_word == pow(radix as int, info.digits_per_word as nat)
        &&& pow(radix as int, info.digits_per_word as nat) * radix > Word::MAX
    }
}

impl RadixInfo {
    /// Computes the information for a valid radix.
    pub fn for_radix(radix: Digit) -> (info: RadixInfo)
        requires
            valid_radix(radix as int),
        ensures
            radix_info_spec(radix as nat, info),
            info.digits_per_word >= 1,
    {
        if is_pow2_radix(radix) {
            let log_radix = log2_of_radix(radix);
            RadixInfo { digits_per_word: (WORD_BITS / log_radix) as usize, range_per_word: 0 }
        } else {
            proof {
                reveal(pow);
                assert(pow(radix as int, 0) == 1);
            }
            let info = RadixInfo::for_radix_recursive(
                radix,
                RadixInfo { digits_per_word: 0, range_per_word: 1 },
            );
            proof {
                reveal(pow);
                if info.digits_per_word == 0 {
                    assert(radix as int * 1 <= Word::MAX);
                }
            }
            info
        }
    }

    /// Multiplies `info.range_per_word` by `radix` while the product fits in a word.
    pub fn for_radix_recursive(radix: Digit, info: RadixInfo) -> (r: RadixInfo)
        requires
            valid_radix(radix as int),
            info.range_per_word >= 1,
            info.range_per_word == pow(radix as int, info.digits_per_word as nat),
            info.digits_per_word <= 64,
        ensures
            r.range_per_word == pow(radix as int, r.digits_per_word as nat),
            r.range_per_word * radix > Word::MAX,
            r.digits_per_word >= info.digits_per_word,
            r.digits_per_word <= 64,
        decreases Word::MAX - info.range_per_word,
    {
        match info.range_per_word.checked_mul(radix as Word) {
            None => info,
            Some(range_per_word) => {
                proof {
                    reveal(pow);
                    assert(range_per_word > info.range_per_word) by (nonlinear_arith)
                        requires
                            range_per_word == info.range_per_word * radix,
                            info.range_per_word >= 1,
                            radix >= 2,
                    ;
                    assert(pow(radix as int, (info.digits_per_word + 1) as nat) == radix
                        * pow(radix as int, info.digits_per_word as nat));
                    lemma_digits_per_word_bound(radix as nat, (info.digits_per_word + 1) as nat);
                }
                RadixInfo::for_radix_recursive(
                    radix,
                    RadixInfo { digits_per_word: info.digits_per_word + 1, range_per_word },
                )
            }
        }
    }
}

/// A power of a radix that fits in a word has at most 64 factors.
proof fn lemma_digits_per_word_bound(radix: nat, k: nat)
    requires
        radix >= 2,
        pow(radix as int, k) <= Word::MAX,
    ensures
        k <= 64,
{
    if k > 64 {
        lemma_pow_increases(radix, 65, k);
        lemma_pow_base_le(2, radix, 65);
        lemma2_to64_rest();
        reveal(pow);
        assert(pow(2, 65) == 2 * pow(2, 64));
        assert(pow2(64) == 0x10000000000000000);
        lemma_pow_positive(2, 64);
        assert(pow(2, 64) == 0x10000000000000000);
        assert(pow(radix as int, k) >= pow(2, 65));
    }
}

/// A larger base gives a larger power.
proof fn lemma_pow_base_le(a: nat, b: nat, e: nat)
    requires
        1 <= a <= b,
    ensures
        pow(a as int, e) <= pow(b as int, e),
    decreases e,
{
    reveal(pow);
    if e > 0 {
        lemma_pow_base_le(a, b, (e - 1) as nat);
        lemma_pow_positive(a as int, (e - 1) as nat);
        let pa = pow(a as int, (e - 1) as nat);
        let pb = pow(b as int, (e - 1) as nat);
        assert(a * pa <= b * pb) by (nonlinear_arith)
            requires
                a <= b,
                0 <= pa <= pb,
        ;
    }
}

/// RadixInfo for a given radix.
pub fn radix_info(radix: Digit) -> (info: RadixInfo)
    requires
        valid_radix(radix as int),
    ensures
        radix_info_spec(radix as nat, info),
        info.digits_per_word >= 1,
{
    RadixInfo::for_radix(radix)
}

/// Fills `table[next_radix..=MAX_RADIX]` with the information of each radix.
pub fn fill_radix_info_table(mut table: Vec<RadixInfo>, next_radix: Digit) -> (r: Vec<RadixInfo>)
    requires
        table@.len() == MAX_RADIX + 1,
        2 <= next_radix <= MAX_RADIX + 1,
    ensures
        r@.len() == MAX_RADIX + 1,
        forall|i: int| 0 <= i < next_radix ==> r@[i] == table@[i],
        forall|i: int| next_radix <= i <= MAX_RADIX ==> radix_info_spec(i as nat, #[trigger] r@[i]),
    decreases MAX_RADIX + 1 - next_radix,
{
    if next_radix > MAX_RADIX {
        table
    } else {
            table.set(next_radix as usize, RadixInfo::for_radix(next_radix));
        fill_radix_info_table(table, next_radix + 1)
    }
}

} // verus!
