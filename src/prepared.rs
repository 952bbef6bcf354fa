//! Digit producers: a magnitude prepared for formatting in a radix, with the
//! number of digits known before any digit is written.

use crate::bits::{bit_len, lemma_bit_len, lemma_extract_bits, lemma_pow2_width, lemma_pow_of_pow2, lemma_words_bit_len};
use crate::digits::{
    digit_bytes, digits_of, lemma_digit_bytes_concat, lemma_digits_len_bound, lemma_groups_digits,
    lemma_padded_groups_len, lemma_padded_index, lemma_padded_len, padded_digits, padded_groups,
    radix_bytes,
};
use crate::radix::{
    digit_byte, digit_to_ascii, log2_of_radix, pow2_radix, radix_info, radix_info_spec, valid_radix,
    word_base, Digit, DigitCase, RadixInfo, Word, WORD_BITS,
};
use crate::ubig::{
    div_rem_by_word_in_place, lemma_limbs_value_lower, lemma_limbs_value_push, limbs_value,
    words_value, Buffer,
};
use vstd::arithmetic::div_mod::*;
use vstd::arithmetic::power::*;
use vstd::arithmetic::power2::*;
use vstd::bits::*;
use vstd::prelude::*;

verus! {

/// A number of words whose bit count, and a little more, fits in a `usize`.
pub open spec fn countable_len(len: nat) -> bool {
    64 * len + 64 <= usize::MAX
}

/// Pushing the byte of digit `i` extends the bytes of the first `i` digits
/// to the first `i + 1`.
proof fn lemma_push_digit(start: Seq<u8>, ds: Seq<nat>, i: int, digit_case: DigitCase)
    requires
        0 <= i < ds.len(),
    ensures
        (start + digit_bytes(ds.subrange(0, i), digit_case)).push(digit_byte(ds[i], digit_case))
            == start + digit_bytes(ds.subrange(0, i + 1), digit_case),
{
    assert((start + digit_bytes(ds.subrange(0, i), digit_case)).push(digit_byte(ds[i], digit_case))
        =~= start + digit_bytes(ds.subrange(0, i + 1), digit_case));
}

/// The low bits of a double word, by masking its low word, are its
/// remainder by a power-of-two radix.
proof fn lemma_mask(x: u128, radix: u64)
    requires
        radix == 2 || radix == 4 || radix == 8 || radix == 16 || radix == 32,
    ensures
        (x as u64) & ((radix - 1) as u64) == x % (radix as u128),
{
    if radix == 2 {
        assert((x as u64) & 1u64 == x % 2) by (bit_vector);
    } else if radix == 4 {
        assert((x as u64) & 3u64 == x % 4) by (bit_vector);
    } else if radix == 8 {
        assert((x as u64) & 7u64 == x % 8) by (bit_vector);
    } else if radix == 16 {
        assert((x as u64) & 15u64 == x % 16) by (bit_vector);
    } else {
        assert((x as u64) & 31u64 == x % 32) by (bit_vector);
    }
}

/// The radix `2^log` as a word.
fn pow2_radix_word(log_radix: u32) -> (r: Word)
    requires
        1 <= log_radix <= 5,
    ensures
        r == pow2(log_radix as nat),
        r == 2 || r == 4 || r == 8 || r == 16 || r == 32,
{
    proof {
        lemma2_to64();
        lemma_u64_shl_is_mul(1, log_radix as u64);
    }
    1u64 << (log_radix as u64)
}

/// A `Word` prepared for formatting in a power-of-2 radix.
pub struct PreparedWordInPow2 {
    word: Word,
    log_radix: u32,
    width: usize,
}

impl PreparedWordInPow2 {
    /// The number to format.
    pub closed spec fn value(&self) -> nat {
        self.word as nat
    }

    /// The radix.
    pub closed spec fn radix(&self) -> nat {
        pow2(self.log_radix as nat)
    }

    /// The width is the number of digits.
    pub closed spec fn wf(&self) -> bool {
        &&& 1 <= self.log_radix <= 5
        &&& digits_of(self.word as nat, self.radix()) == padded_digits(
            self.word as nat,
            self.radix(),
            self.width as nat,
        )
        &&& self.width == digits_of(self.word as nat, self.radix()).len()
        &&& (self.width - 1) * self.log_radix < 64
    }

    /// Prepare a `Word` for formatting in a power-of-2 radix.
    pub fn new(word: Word, radix: Digit) -> (r: PreparedWordInPow2)
        requires
            pow2_radix(radix as int),
        ensures
            r.wf(),
            r.value() == word,
            r.radix() == radix,
    {
        let log_radix = log2_of_radix(radix);
        let bits: u32 = WORD_BITS - word.leading_zeros();
        proof {
            lemma_bit_len(word);
            assert(bits == bit_len(word));
            lemma_pow2_width(word as nat, bits as nat, log_radix as nat);
        }
        let width: usize = if bits == 0 {
            1
        } else {
            ((bits + log_radix - 1) / log_radix) as usize
        };
        proof {
            if width > 1 {
                assert((width - 1) * log_radix < 64) by (nonlinear_arith)
                    requires
                        width * log_radix <= bits + log_radix - 1,
                        bits <= 64,
                ;
            } else {
                assert((width - 1) * log_radix == 0) by (nonlinear_arith)
                    requires
                        width == 1,
                ;
            }
        }
        let r = PreparedWordInPow2 { word, log_radix, width };
        proof {
            assert(r.radix() == radix);
            assert(digits_of(word as nat, radix as nat) == padded_digits(
                word as nat,
                radix as nat,
                width as nat,
            ));
            assert(r.wf());
        }
        r
    }

    /// Number of characters that `write` produces.
    pub fn width(&self) -> (r: usize)
        requires
            self.wf(),
        ensures
            r == digits_of(self.value(), self.radix()).len(),
    {
        self.width
    }

    /// Appends the digits, most significant first.
    pub fn write(&self, out: &mut Vec<u8>, digit_case: DigitCase)
        requires
            self.wf(),
        ensures
            final(out)@ == old(out)@ + radix_bytes(self.value(), self.radix(), digit_case),
    {
        let radix = pow2_radix_word(self.log_radix);
        let mask: Word = radix - 1;
        let ghost start = out@;
        let ghost ds = padded_digits(self.word as nat, radix as nat, self.width as nat);
        proof {
            lemma_padded_len(self.word as nat, self.width as nat, radix as nat);
        }
        let mut i: usize = 0;
        while i < self.width
            invariant
                self.wf(),
                radix == self.radix(),
                mask == radix - 1,
                radix == 2 || radix == 4 || radix == 8 || radix == 16 || radix == 32,
                ds == padded_digits(self.word as nat, radix as nat, self.width as nat),
                ds.len() == self.width,
                i <= self.width,
                out@ == start + digit_bytes(ds.subrange(0, i as int), digit_case),
            decreases self.width - i,
        {
            assert((self.width - 1 - i) * self.log_radix < 64) by (nonlinear_arith)
                requires
                    (self.width - 1) * self.log_radix < 64,
                    i < self.width,
            ;
            let shift: u64 = ((self.width - 1 - i) as u64) * (self.log_radix as u64);
            let digit = (self.word >> shift) & mask;
            proof {
                lemma_u64_shr_is_div(self.word, shift);
                lemma_mask((self.word >> shift) as u128, radix);
                assert(((self.word >> shift) as u128) as u64 == self.word >> shift);
                lemma_padded_index(self.word as nat, self.width as nat, radix as nat, i as int);
                lemma_pow_of_pow2(self.log_radix as nat, (self.width - 1 - i) as nat);
                assert(self.log_radix * (self.width - 1 - i) == shift) by (nonlinear_arith)
                    requires
                        shift == (self.width - 1 - i) * self.log_radix,
                ;
                assert(digit == ds[i as int]);
                lemma_push_digit(start, ds, i as int, digit_case);
            }
            out.push(digit_to_ascii(digit as Digit, digit_case));
            i += 1;
        }
        proof {
            assert(ds.subrange(0, self.width as int) =~= ds);
        }
    }
}

/// A large number prepared for formatting in a power-of-2 radix.
pub struct PreparedLargeInPow2<'a> {
    words: &'a [Word],
    log_radix: u32,
    width: usize,
}

impl<'a> PreparedLargeInPow2<'a> {
    /// The number to format.
    pub closed spec fn value(&self) -> nat {
        words_value(self.words@)
    }

    /// The radix.
    pub closed spec fn radix(&self) -> nat {
        pow2(self.log_radix as nat)
    }

    /// The width is the number of digits.
    pub closed spec fn wf(&self) -> bool {
        &&& 1 <= self.log_radix <= 5
        &&& self.words@.len() >= 2
        &&& countable_len(self.words@.len())
        &&& digits_of(self.value(), self.radix()) == padded_digits(
            self.value(),
            self.radix(),
            self.width as nat,
        )
        &&& self.width == digits_of(self.value(), self.radix()).len()
        &&& self.width >= 1
        &&& (self.width - 1) * self.log_radix < 64 * self.words@.len()
    }

    /// Prepare a large number for formatting in a power-of-2 radix.
    pub fn new(words: &'a [Word], radix: Digit) -> (r: PreparedLargeInPow2<'a>)
        requires
            pow2_radix(radix as int),
            words@.len() >= 2,
            words@.last() != 0,
            countable_len(words@.len()),
        ensures
            r.wf(),
            r.value() == words_value(words@),
            r.radix() == radix,
    {
        let log_radix = log2_of_radix(radix);
        let top = words[words.len() - 1];
        proof {
            lemma_bit_len(top);
            lemma_words_bit_len(words@);
        }
        let bits: usize = words.len() * 64 - top.leading_zeros() as usize;
        proof {
            lemma_pow2_pos((bits - 1) as nat);
            assert(bits == 64 * (words@.len() - 1) + bit_len(top));
            lemma_pow2_width(words_value(words@), bits as nat, log_radix as nat);
        }
        let width: usize = (bits + (log_radix - 1) as usize) / log_radix as usize;
        proof {
            assert((width - 1) * log_radix < 64 * words@.len()) by (nonlinear_arith)
                requires
                    width * log_radix <= bits + log_radix - 1,
                    bits <= 64 * words@.len(),
                    width >= 1,
            ;
        }
        PreparedLargeInPow2 { words, log_radix, width }
    }

    /// Number of characters that `write` produces.
    pub fn width(&self) -> (r: usize)
        requires
            self.wf(),
        ensures
            r == digits_of(self.value(), self.radix()).len(),
    {
        self.width
    }

    /// Appends the digits, most significant first. A digit may take bits of
    /// two adjacent words.
    pub fn write(&self, out: &mut Vec<u8>, digit_case: DigitCase)
        requires
            self.wf(),
        ensures
            final(out)@ == old(out)@ + radix_bytes(self.value(), self.radix(), digit_case),
    {
        let radix = pow2_radix_word(self.log_radix);
        let mask: Word = radix - 1;
        let len = self.words.len();
        let ghost start = out@;
        let ghost ds = padded_digits(self.value(), radix as nat, self.width as nat);
        proof {
            lemma_padded_len(self.value(), self.width as nat, radix as nat);
        }
        let mut i: usize = 0;
        while i < self.width
            invariant
                self.wf(),
                len == self.words@.len(),
                radix == self.radix(),
                mask == radix - 1,
                radix == 2 || radix == 4 || radix == 8 || radix == 16 || radix == 32,
                ds == padded_digits(self.value(), radix as nat, self.width as nat),
                ds.len() == self.width,
                i <= self.width,
                out@ == start + digit_bytes(ds.subrange(0, i as int), digit_case),
            decreases self.width - i,
        {
            // Position of the lowest bit of the digit.
            assert((self.width - 1 - i) * self.log_radix < 64 * len) by (nonlinear_arith)
                requires
                    (self.width - 1) * self.log_radix < 64 * len,
                    i < self.width,
            ;
            let bit: usize = (self.width - 1 - i) * (self.log_radix as usize);
            let index = bit / 64;
            let shift = bit % 64;
            let low = self.words[index];
            let high: Word = if index + 1 < len {
                self.words[index + 1]
            } else {
                0
            };
            let pair: u128 = (low as u128) + (high as u128) * 0x1_0000_0000_0000_0000u128;
            let digit = ((pair >> (shift as u128)) as Word) & mask;
            proof {
                lemma_u128_shr_is_div(pair, shift as u128);
                lemma_mask(pair >> (shift as u128), radix);
                lemma_extract_bits(self.words@, index as nat, shift as nat, self.log_radix as nat);
                lemma_padded_index(self.value(), self.width as nat, radix as nat, i as int);
                lemma_pow_of_pow2(self.log_radix as nat, (self.width - 1 - i) as nat);
                assert(self.log_radix * (self.width - 1 - i) == 64 * index + shift) by (
                nonlinear_arith)
                    requires
                        bit == (self.width - 1 - i) * self.log_radix,
                        index == bit / 64,
                        shift == bit % 64,
                ;
                assert(digit == ds[i as int]);
                lemma_push_digit(start, ds, i as int, digit_case);
            }
            out.push(digit_to_ascii(digit as Digit, digit_case));
            i += 1;
        }
        proof {
            assert(ds.subrange(0, self.width as int) =~= ds);
        }
    }
}

/// The digits of `n` that are still to be produced, in front of those that
/// were: all of them before the first, none once `n` is used up.
spec fn pending_digits(n: nat, radix: nat, started: bool) -> Seq<nat> {
    if started && n == 0 {
        Seq::empty()
    } else {
        digits_of(n, radix)
    }
}

/// A `Word` prepared for formatting in a non-power-of-2 radix.
pub struct PreparedWordInNonPow2 {
    // Little-endian digits.
    digits: Vec<u8>,
    width: usize,
    word: Ghost<nat>,
    radix: Ghost<nat>,
}

impl PreparedWordInNonPow2 {
    /// The number to format.
    pub closed spec fn value(&self) -> nat {
        self.word@
    }

    /// The radix.
    pub closed spec fn radix(&self) -> nat {
        self.radix@
    }

    /// The stored digits are those of the number, least significant first.
    pub closed spec fn wf(&self) -> bool {
        let ds = digits_of(self.word@, self.radix@);
        &&& self.width == self.digits@.len()
        &&& self.width == ds.len()
        &&& self.width <= 64
        &&& forall|j: int|
            0 <= j < self.width ==> #[trigger] self.digits@[j] == ds[self.width - 1 - j]
        &&& forall|j: int| 0 <= j < self.width ==> #[trigger] ds[j] < self.radix@
        &&& valid_radix(self.radix@ as int)
    }

    /// Prepare a `Word` for formatting in a non-power-of-2 radix.
    pub fn new(word: Word, radix: Digit) -> (r: PreparedWordInNonPow2)
        requires
            valid_radix(radix as int),
        ensures
            r.wf(),
            r.value() == word,
            r.radix() == radix,
    {
        let mut digits: Vec<u8> = Vec::new();
        let mut w = word;
        let ghost r = radix as nat;
        let ghost tail: Seq<nat> = Seq::empty();
        proof {
            crate::digits::lemma_digits_of_value(word as nat, r);
            lemma2_to64();
            lemma_digits_len_bound(word as nat, r, 64);
        }
        while w != 0 || digits.len() == 0
            invariant
                valid_radix(r as int),
                r == radix,
                digits_of(word as nat, r) == pending_digits(w as nat, r, digits@.len() > 0) + tail,
                digits_of(word as nat, r).len() <= 64,
                tail.len() == digits@.len(),
                forall|j: int| 0 <= j < digits@.len() ==> digits@[j] == tail[digits@.len() - 1 - j],
                forall|j: int| 0 <= j < tail.len() ==> #[trigger] tail[j] < r,
            decreases w as int + if digits@.len() == 0 {
                1int
            } else {
                0int
            },
        {
            let d = w % (radix as Word);
            proof {
                let ghost nw = w / (radix as Word);
                lemma_fundamental_div_mod(w as int, radix as int);
                if w > 0 {
                    lemma_div_decreases(w as int, radix as int);
                }
                if w < radix {
                    lemma_basic_div(w as int, radix as int);
                    lemma_small_mod(w as nat, radix as nat);
                    assert(digits_of(w as nat, r) == seq![w as nat]);
                    assert(pending_digits(nw as nat, r, true) == Seq::<nat>::empty());
                } else {
                    assert(nw > 0) by (nonlinear_arith)
                        requires
                            w == radix * nw + d,
                            d < radix,
                            w >= radix,
                    ;
                    assert(digits_of(w as nat, r) == digits_of(nw as nat, r).push(d as nat));
                }
                assert(pending_digits(w as nat, r, digits@.len() > 0) + tail =~= pending_digits(
                    nw as nat,
                    r,
                    true,
                ) + (seq![d as nat] + tail));
                tail = seq![d as nat] + tail;
            }
            digits.push(d as u8);
            w = w / (radix as Word);
        }
        proof {
            assert(tail =~= digits_of(word as nat, r));
        }
        let width = digits.len();
        PreparedWordInNonPow2 { digits, width, word: Ghost(word as nat), radix: Ghost(radix as nat) }
    }

    /// Number of characters that `write` produces.
    pub fn width(&self) -> (r: usize)
        requires
            self.wf(),
        ensures
            r == digits_of(self.value(), self.radix()).len(),
    {
        self.width
    }

    /// Appends the digits, most significant first.
    pub fn write(&self, out: &mut Vec<u8>, digit_case: DigitCase)
        requires
            self.wf(),
        ensures
            final(out)@ == old(out)@ + radix_bytes(self.value(), self.radix(), digit_case),
    {
        let ghost start = out@;
        let ghost ds = digits_of(self.value(), self.radix());
        let mut i: usize = 0;
        while i < self.width
            invariant
                self.wf(),
                ds == digits_of(self.value(), self.radix()),
                i <= self.width,
                out@ == start + digit_bytes(ds.subrange(0, i as int), digit_case),
            decreases self.width - i,
        {
            let digit = self.digits[self.width - 1 - i];
            proof {
                assert(digit == ds[i as int]);
                lemma_push_digit(start, ds, i as int, digit_case);
            }
            out.push(digit_to_ascii(digit as Digit, digit_case));
            i += 1;
        }
        proof {
            assert(ds.subrange(0, self.width as int) =~= ds);
        }
    }
}

/// Appends the lowest `k` digits of `x`, zero-padded, most significant first.
fn write_padded(out: &mut Vec<u8>, x: Word, k: usize, radix: Digit, digit_case: DigitCase)
    requires
        valid_radix(radix as int),
    ensures
        final(out)@ == old(out)@ + digit_bytes(padded_digits(x as nat, radix as nat, k as nat), digit_case),
    decreases k,
{
    if k == 0 {
        proof {
            assert(old(out)@ + digit_bytes(Seq::<nat>::empty(), digit_case) =~= old(out)@);
        }
    } else {
        write_padded(out, x / (radix as Word), k - 1, radix, digit_case);
        let d = x % (radix as Word);
        proof {
            let ghost rest = padded_digits((x / (radix as Word)) as nat, radix as nat, (k - 1) as nat);
            assert(padded_digits(x as nat, radix as nat, k as nat) == rest.push(d as nat));
            assert(digit_bytes(rest.push(d as nat), digit_case) =~= digit_bytes(rest, digit_case).push(
                digit_byte(d as nat, digit_case),
            ));
        }
        out.push(digit_to_ascii(d as Digit, digit_case));
    }
}

/// A large number prepared for formatting in a non-power-of-2 radix.
pub struct PreparedLargeInNonPow2 {
    top_group: PreparedWordInNonPow2,
    // Little endian in groups of `digits_per_word` digits.
    low_groups: Vec<Word>,
    radix: Digit,
    info: RadixInfo,
}

impl PreparedLargeInNonPow2 {
    /// The number to format.
    pub closed spec fn value(&self) -> nat {
        (limbs_value(self.low_groups@, self.info.range_per_word as nat) + pow(
            self.info.range_per_word as int,
            self.low_groups@.len(),
        ) * self.top_group.value()) as nat
    }

    /// The radix.
    pub closed spec fn radix(&self) -> nat {
        self.radix as nat
    }

    /// The digits are those of the top group followed by each low group,
    /// padded; the count of them fits in a `usize`.
    pub closed spec fn wf(&self) -> bool {
        let k = self.info.digits_per_word as nat;
        &&& self.top_group.wf()
        &&& self.top_group.radix() == self.radix
        &&& valid_radix(self.radix as int)
        &&& self.info.range_per_word == pow(self.radix as int, k)
        &&& digits_of(self.value(), self.radix as nat) == digits_of(
            self.top_group.value(),
            self.radix as nat,
        ) + padded_groups(self.low_groups@, self.radix as nat, k)
        &&& digits_of(self.value(), self.radix as nat).len() <= usize::MAX
    }

    /// Prepare a large number for formatting in a non-power-of-2 radix.
    pub fn new(words: &[Word], radix: Digit) -> (r: PreparedLargeInNonPow2)
        requires
            valid_radix(radix as int),
            !pow2_radix(radix as int),
            words@.len() >= 2,
            words@.last() != 0,
            countable_len(words@.len()),
        ensures
            r.wf(),
            r.value() == words_value(words@),
            r.radix() == radix,
    {
        let info = radix_info(radix);
        let range = info.range_per_word;
        let ghost big = range as nat;
        let ghost b = word_base();
        let mut low_groups: Vec<Word> = Vec::with_capacity(
            words.len() + words.len() / info.digits_per_word,
        );
        let mut buffer = Buffer::allocate(words.len());
        buffer.extend(words);
        proof {
            assert(Seq::<Word>::empty() + words@ =~= words@);
            reveal(pow);
            assert(limbs_value(Seq::<Word>::empty(), big) == 0);
            assert(pow(big as int, 0) == 1);
            lemma_pow_positive(radix as int, info.digits_per_word as nat);
            lemma_pow1(radix as int);
            lemma_pow_increases(radix as nat, 1, info.digits_per_word as nat);
            lemma_limbs_value_lower(words@, b);
            lemma_pow_positive(b as int, (words@.len() - 1) as nat);
            let p0 = pow(b as int, (words@.len() - 1) as nat);
            assert(p0 * words@.last() > 0) by (nonlinear_arith)
                requires
                    p0 > 0,
                    words@.last() > 0,
            ;
            assert(buffer.view_words() == words@);
        }
        while buffer.len() > 1
            invariant
                big == range,
                b == word_base(),
                range == pow(radix as int, info.digits_per_word as nat),
                2 <= range,
                radix_info_spec(radix as nat, info),
                words_value(words@) == limbs_value(low_groups@, big) + pow(
                    big as int,
                    low_groups@.len(),
                ) * words_value(buffer.view_words()),
                buffer.view_words().len() >= 1,
                buffer.view_words().len() >= 2 ==> buffer.view_words().last() != 0,
                words_value(buffer.view_words()) > 0,
                forall|i: int| 0 <= i < low_groups@.len() ==> #[trigger] low_groups@[i] < range,
            decreases words_value(buffer.view_words()),
        {
            let ghost v = words_value(buffer.view_words());
            let ghost m = low_groups@.len();
            proof {
                lemma_limbs_value_lower(buffer.view_words(), b);
                crate::bits::lemma_word_base_pow((buffer.view_words().len() - 1) as nat);
                assert(v >= pow2(64 * (buffer.view_words().len() - 1) as nat)
                    * buffer.view_words().last());
                lemma_pow2_pos(64 * (buffer.view_words().len() - 1) as nat);
                lemma2_to64_rest();
                lemma_pow2_adds(64, (64 * (buffer.view_words().len() - 1) - 64) as nat);
                lemma_pow2_pos((64 * (buffer.view_words().len() - 1) - 64) as nat);
                assert(v >= b) by (nonlinear_arith)
                    requires
                        v >= pow2(64 * (buffer.view_words().len() - 1) as nat) * buffer.view_words().last(),
                        buffer.view_words().last() >= 1,
                        pow2(64 * (buffer.view_words().len() - 1) as nat) >= pow2(64),
                        pow2(64) == b,
                ;
            }
            let rem = div_rem_by_word_in_place(&mut buffer, range);
            let ghost v1 = words_value(buffer.view_words());
            proof {
                assert(v1 > 0 && v1 < v) by (nonlinear_arith)
                    requires
                        v == v1 * range + rem,
                        rem < range,
                        range < b,
                        v >= b,
                        range >= 2,
                ;
                lemma_limbs_value_push(low_groups@, rem, big);
                lemma_pow_positive(big as int, m);
                assert(pow(big as int, m + 1) == pow(big as int, m) * big) by {
                    reveal(pow);
                    assert(pow(big as int, m + 1) == big * pow(big as int, m));
                }
                let p = pow(big as int, m);
                assert(p * v == p * rem + (p * big) * v1) by (nonlinear_arith)
                    requires
                        v == v1 * big + rem,
                ;
            }
            low_groups.push(rem);
            buffer.pop_leading_zeros();
            proof {
                if buffer.view_words().len() == 0 {
                    assert(limbs_value(buffer.view_words(), b) == 0);
                }
            }
        }
        let top = buffer.get(0);
        let top_group = PreparedWordInNonPow2::new(top, radix);
        proof {
            assert(buffer.view_words().drop_first() =~= Seq::<Word>::empty());
            assert(limbs_value(Seq::<Word>::empty(), b) == 0);
            assert(words_value(buffer.view_words()) == top);
            lemma_groups_digits(low_groups@, top as nat, radix as nat, info.digits_per_word as nat);
            crate::ubig::lemma_limbs_value_bound(words@, b);
            crate::bits::lemma_word_base_pow(words@.len());
            lemma_digits_len_bound(words_value(words@), radix as nat, 64 * words@.len());
        }
        PreparedLargeInNonPow2 { top_group, low_groups, radix, info }
    }

    /// Number of characters that `write` produces.
    pub fn width(&self) -> (r: usize)
        requires
            self.wf(),
        ensures
            r == digits_of(self.value(), self.radix()).len(),
    {
        proof {
            self.lemma_width();
        }
        self.top_group.width() + self.low_groups.len() * self.info.digits_per_word
    }

    /// The digit count is the top group's plus a full group per low group.
    proof fn lemma_width(&self)
        requires
            self.wf(),
        ensures
            digits_of(self.value(), self.radix()).len() == self.top_group.width + self.low_groups@.len()
                * self.info.digits_per_word,
    {
        lemma_padded_groups_len(self.low_groups@, self.radix as nat, self.info.digits_per_word as nat);
    }

    /// Appends the digits, most significant first: the top group, then each
    /// low group padded to a full group.
    pub fn write(&self, out: &mut Vec<u8>, digit_case: DigitCase)
        requires
            self.wf(),
        ensures
            final(out)@ == old(out)@ + radix_bytes(self.value(), self.radix(), digit_case),
    {
        let ghost start = out@;
        let ghost r = self.radix as nat;
        let ghost k = self.info.digits_per_word as nat;
        let ghost gs = self.low_groups@;
        let ghost top_bytes = radix_bytes(self.top_group.value(), r, digit_case);
        self.top_group.write(out, digit_case);
        let n = self.info.digits_per_word;
        let mut i: usize = self.low_groups.len();
        proof {
            assert(gs.subrange(i as int, gs.len() as int) =~= Seq::<Word>::empty());
            assert(out@ =~= start + top_bytes + digit_bytes(padded_groups(gs.subrange(i as int, gs.len() as int), r, k), digit_case));
        }
        while i > 0
            invariant
                self.wf(),
                gs == self.low_groups@,
                r == self.radix,
                k == n,
                i <= gs.len(),
                out@ == start + top_bytes + digit_bytes(
                    padded_groups(gs.subrange(i as int, gs.len() as int), r, k),
                    digit_case,
                ),
            decreases i,
        {
            i -= 1;
            let ghost before = out@;
            write_padded(out, self.low_groups[i], n, self.radix, digit_case);
            proof {
                let s0 = gs.subrange(i as int, gs.len() as int);
                assert(s0.drop_first() =~= gs.subrange(i + 1, gs.len() as int));
                let a = padded_groups(gs.subrange(i + 1, gs.len() as int), r, k);
                let pd = padded_digits(gs[i as int] as nat, r, k);
                lemma_digit_bytes_concat(a, pd, digit_case);
                assert(out@ =~= start + top_bytes + digit_bytes(padded_groups(s0, r, k), digit_case));
            }
        }
        proof {
            assert(gs.subrange(0, gs.len() as int) =~= gs);
            lemma_digit_bytes_concat(digits_of(self.top_group.value(), r), padded_groups(gs, r, k), digit_case);
            assert(out@ =~= start + radix_bytes(self.value(), r, digit_case));
        }
    }
}

} // verus!
