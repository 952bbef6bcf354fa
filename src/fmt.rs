//! Printing in any radix: the choice of digit producer, sign, prefix and
//! padding to a field width.

use crate::digits::{ascii_chars, digits_of, lemma_digits_of_value, radix_bytes, radix_chars};
use crate::prepared::{
    countable_len, PreparedLargeInNonPow2, PreparedLargeInPow2, PreparedWordInNonPow2,
    PreparedWordInPow2,
};
use crate::radix::{is_pow2_radix, pow2_radix, valid_radix, Digit, DigitCase, Word};
use crate::ubig::{IBig, Sign, UBig};
use vstd::prelude::*;
use vstd::string::{StrSliceExecFns, StringExecFns};

verus! {

/// Relies on `ascii::AsciiString::from_ascii`, which accepts a buffer whose
/// bytes are all ASCII, and on `String::from(AsciiString)`, which keeps each
/// byte as one character.
#[verifier::external_body]
fn ascii_to_string(bytes: Vec<u8>) -> (r: String)
    requires
        forall|i: int| 0 <= i < bytes@.len() ==> #[trigger] bytes@[i] < 128,
    ensures
        r@ == ascii_chars(bytes@),
{
    String::from(ascii::AsciiString::from_ascii(bytes).unwrap())
}

/// Relies on `String::push`: the character is appended.
#[verifier::external_body]
fn push_char(s: &mut String, c: char)
    ensures
        final(s)@ == old(s)@.push(c),
{
    s.push(c)
}

/// Alignment of a value inside a wider field.
#[derive(Clone, Copy, Debug, PartialEq, Eq, Structural)]
pub enum Alignment {
    Left,
    Right,
    Center,
}

/// A request to format a number: minimum field width, fill character,
/// alignment, sign-aware zero padding, a forced `+` sign, and the alternate
/// style (upper-case letters where the case is not fixed).
#[derive(Clone, Copy, Debug)]
pub struct FormatOptions {
    pub width: Option<usize>,
    pub fill: char,
    pub align: Option<Alignment>,
    pub sign_plus: bool,
    pub zero_pad: bool,
    pub alternate: bool,
}

impl FormatOptions {
    /// No width, space fill, no alignment, no flags.
    pub fn plain() -> (r: FormatOptions)
        ensures
            r.width is None,
            r.fill == ' ',
            r.align is None,
            !r.sign_plus,
            !r.zero_pad,
            !r.alternate,
    {
        FormatOptions {
            width: None,
            fill: ' ',
            align: None,
            sign_plus: false,
            zero_pad: false,
            alternate: false,
        }
    }
}

/// `n` copies of `c`.
pub open spec fn repeat_char(c: char, n: nat) -> Seq<char> {
    Seq::new(n, |i: int| c)
}

/// The sign printed before a number.
pub open spec fn sign_chars(sign: Sign, sign_plus: bool) -> Seq<char> {
    if sign == Sign::Negative {
        seq!['-']
    } else if sign_plus {
        seq!['+']
    } else {
        Seq::empty()
    }
}

/// Fill characters placed before the content when `pad` are needed.
pub open spec fn left_pad(options: FormatOptions, pad: nat) -> nat {
    match options.align {
        Some(Alignment::Left) => 0,
        Some(Alignment::Center) => pad / 2,
        _ => pad,
    }
}

/// `head` (sign and prefix) and `digits` laid out in the requested field.
pub open spec fn pad_field(head: Seq<char>, digits: Seq<char>, options: FormatOptions) -> Seq<char> {
    let total = head.len() + digits.len();
    match options.width {
        None => head + digits,
        Some(min) => if total >= min {
            head + digits
        } else if options.zero_pad {
            head + repeat_char('0', (min - total) as nat) + digits
        } else {
            let pad = (min - total) as nat;
            let left = left_pad(options, pad);
            repeat_char(options.fill, left) + head + digits + repeat_char(
                options.fill,
                (pad - left) as nat,
            )
        },
    }
}

/// The case of digits: the fixed one, or upper case in the alternate style.
pub open spec fn effective_case(digit_case: Option<DigitCase>, alternate: bool) -> DigitCase {
    match digit_case {
        Some(c) => c,
        None => if alternate {
            DigitCase::Upper
        } else {
            DigitCase::Lower
        },
    }
}

/// A number of `len` words has at most `64 * len` digits.
proof fn lemma_digit_count_bound(ws: Seq<Word>, radix: nat)
    requires
        ws.len() >= 1,
        radix >= 2,
    ensures
        digits_of(crate::ubig::words_value(ws), radix).len() <= 64 * ws.len(),
{
    crate::ubig::lemma_limbs_value_bound(ws, crate::radix::word_base());
    crate::bits::lemma_word_base_pow(ws.len());
    crate::digits::lemma_digits_len_bound(crate::ubig::words_value(ws), radix, 64 * ws.len());
}

/// Appends `n` copies of `c`.
fn push_repeat(s: &mut String, c: char, n: usize)
    ensures
        final(s)@ == old(s)@ + repeat_char(c, n as nat),
{
    let ghost start = s@;
    let mut i: usize = 0;
    while i < n
        invariant
            i <= n,
            s@ == start + repeat_char(c, i as nat),
        decreases n - i,
    {
        push_char(s, c);
        i += 1;
        proof {
            assert(s@ =~= start + repeat_char(c, i as nat));
        }
    }
}

/// A magnitude prepared for formatting, by the producer that fits its size
/// and radix.
pub enum Prepared<'a> {
    WordInPow2(PreparedWordInPow2),
    LargeInPow2(PreparedLargeInPow2<'a>),
    WordInNonPow2(PreparedWordInNonPow2),
    LargeInNonPow2(PreparedLargeInNonPow2),
}

impl<'a> Prepared<'a> {
    /// The number to format.
    pub open spec fn value(&self) -> nat {
        match self {
            Prepared::WordInPow2(p) => p.value(),
            Prepared::LargeInPow2(p) => p.value(),
            Prepared::WordInNonPow2(p) => p.value(),
            Prepared::LargeInNonPow2(p) => p.value(),
        }
    }

    /// The radix.
    pub open spec fn radix(&self) -> nat {
        match self {
            Prepared::WordInPow2(p) => p.radix(),
            Prepared::LargeInPow2(p) => p.radix(),
            Prepared::WordInNonPow2(p) => p.radix(),
            Prepared::LargeInNonPow2(p) => p.radix(),
        }
    }

    /// The producer is well formed.
    pub open spec fn wf(&self) -> bool {
        match self {
            Prepared::WordInPow2(p) => p.wf(),
            Prepared::LargeInPow2(p) => p.wf(),
            Prepared::WordInNonPow2(p) => p.wf(),
            Prepared::LargeInNonPow2(p) => p.wf(),
        }
    }

    /// Number of characters that `write` produces.
    pub fn width(&self) -> (r: usize)
        requires
            self.wf(),
        ensures
            r == digits_of(self.value(), self.radix()).len(),
    {
        match self {
            Prepared::WordInPow2(p) => p.width(),
            Prepared::LargeInPow2(p) => p.width(),
            Prepared::WordInNonPow2(p) => p.width(),
            Prepared::LargeInNonPow2(p) => p.width(),
        }
    }

    /// Appends the digits, most significant first.
    pub fn write(&self, out: &mut Vec<u8>, digit_case: DigitCase)
        requires
            self.wf(),
        ensures
            final(out)@ == old(out)@ + radix_bytes(self.value(), self.radix(), digit_case),
    {
        match self {
            Prepared::WordInPow2(p) => p.write(out, digit_case),
            Prepared::LargeInPow2(p) => p.write(out, digit_case),
            Prepared::WordInNonPow2(p) => p.write(out, digit_case),
            Prepared::LargeInNonPow2(p) => p.write(out, digit_case),
        }
    }

    /// The digits as text.
    pub fn digits_string(&self, digit_case: DigitCase) -> (r: String)
        requires
            self.wf(),
            valid_radix(self.radix() as int),
        ensures
            r@ == radix_chars(self.value(), self.radix(), digit_case),
    {
        let mut out: Vec<u8> = Vec::with_capacity(self.width());
        self.write(&mut out, digit_case);
        proof {
            lemma_digits_of_value(self.value(), self.radix());
            let ds = digits_of(self.value(), self.radix());
            assert(out@ =~= radix_bytes(self.value(), self.radix(), digit_case));
            assert forall|i: int| 0 <= i < out@.len() implies #[trigger] out@[i] < 128 by {
                assert(ds[i] < 36);
            }
        }
        ascii_to_string(out)
    }
}

/// Representation of a `UBig` or `IBig` in any radix between 2 and 36 inclusive.
///
/// The default format uses lower-case letters a-z for digits 10-35.
/// The alternate format uses upper-case letters.
pub struct InRadix<'a> {
    sign: Sign,
    magnitude: &'a UBig,
    radix: Digit,
    prefix: &'static str,
    digit_case: Option<DigitCase>,
}

impl<'a> InRadix<'a> {
    /// The sign.
    pub closed spec fn sign_spec(&self) -> Sign {
        self.sign
    }

    /// The magnitude.
    pub closed spec fn magnitude_value(&self) -> nat {
        self.magnitude.value()
    }

    /// Number of words of the magnitude.
    pub closed spec fn word_count(&self) -> nat {
        self.magnitude.word_seq().len()
    }

    /// The radix.
    pub closed spec fn radix_spec(&self) -> Digit {
        self.radix
    }

    /// The prefix printed between the sign and the digits.
    pub closed spec fn prefix_spec(&self) -> Seq<char> {
        self.prefix@
    }

    /// The fixed digit case, if any.
    pub closed spec fn digit_case_spec(&self) -> Option<DigitCase> {
        self.digit_case
    }

    /// The parts fit together: a canonical magnitude of countable length, a
    /// valid radix, and zero never negative.
    pub closed spec fn wf(&self) -> bool {
        &&& self.magnitude.wf()
        &&& countable_len(self.magnitude.word_seq().len())
        &&& valid_radix(self.radix as int)
        &&& self.prefix@.len() <= 2
        &&& self.magnitude.value() == 0 ==> self.sign == Sign::Positive
    }

    /// The text that the request `options` gives.
    pub open spec fn formatted(&self, options: FormatOptions) -> Seq<char> {
        pad_field(
            sign_chars(self.sign_spec(), options.sign_plus) + self.prefix_spec(),
            radix_chars(
                self.magnitude_value(),
                self.radix_spec() as nat,
                effective_case(self.digit_case_spec(), options.alternate),
            ),
            options,
        )
    }

    /// Prepares the magnitude with the producer that fits its size and the
    /// radix.
    pub fn format(&self) -> (r: Prepared<'a>)
        requires
            self.wf(),
        ensures
            r.wf(),
            r.value() == self.magnitude_value(),
            r.radix() == self.radix_spec(),
            self.word_count() == 1 && pow2_radix(self.radix_spec() as int) ==> r is WordInPow2,
            self.word_count() == 1 && !pow2_radix(self.radix_spec() as int) ==> r is WordInNonPow2,
            self.word_count() > 1 && pow2_radix(self.radix_spec() as int) ==> r is LargeInPow2,
            self.word_count() > 1 && !pow2_radix(self.radix_spec() as int) ==> r is LargeInNonPow2,
    {
        let words = self.magnitude.words();
        if words.len() == 1 {
            proof {
                assert(words@.drop_first() =~= Seq::<Word>::empty());
                assert(crate::ubig::limbs_value(Seq::<Word>::empty(), crate::radix::word_base()) == 0);
            }
            let word = words[0];
            if is_pow2_radix(self.radix) {
                Prepared::WordInPow2(PreparedWordInPow2::new(word, self.radix))
            } else {
                Prepared::WordInNonPow2(PreparedWordInNonPow2::new(word, self.radix))
            }
        } else {
            let slice = words.as_slice();
            if is_pow2_radix(self.radix) {
                Prepared::LargeInPow2(PreparedLargeInPow2::new(slice, self.radix))
            } else {
                Prepared::LargeInNonPow2(PreparedLargeInNonPow2::new(slice, self.radix))
            }
        }
    }

    /// Completes formatting for a request with width, fill, alignment and
    /// flags.
    pub fn format_continuation_formatter(&self, prepared: &Prepared, options: &FormatOptions) -> (r: String)
        requires
            self.wf(),
            prepared.wf(),
            prepared.value() == self.magnitude_value(),
            prepared.radix() == self.radix_spec(),
        ensures
            r@ == self.formatted(*options),
    {
        let sign: &str = if self.sign == Sign::Negative {
            "-"
        } else if options.sign_plus {
            "+"
        } else {
            ""
        };
        proof {
            reveal_strlit("-");
            reveal_strlit("+");
            reveal_strlit("");
            assert(sign@ == sign_chars(self.sign, options.sign_plus));
        }
        let digit_case = match self.digit_case {
            Some(c) => c,
            None => if options.alternate {
                DigitCase::Upper
            } else {
                DigitCase::Lower
            },
        };
        let digits = prepared.digits_string(digit_case);
        let content = digits.as_str();
        let head_len = sign.unicode_len() + self.prefix.unicode_len();
        let width = prepared.width();
        proof {
            lemma_digit_count_bound(self.magnitude.word_seq(), self.radix as nat);
        }
        let total = head_len + width;
        let mut s = String::new();
        match options.width {
            None => {
                s.append(sign);
                s.append(self.prefix);
                s.append(content);
            },
            Some(min_width) => {
                if total >= min_width {
                    s.append(sign);
                    s.append(self.prefix);
                    s.append(content);
                } else if options.zero_pad {
                    s.append(sign);
                    s.append(self.prefix);
                    push_repeat(&mut s, '0', min_width - total);
                    s.append(content);
                } else {
                    let pad = min_width - total;
                    let left: usize = match options.align {
                        Some(Alignment::Left) => 0,
                        Some(Alignment::Center) => pad / 2,
                        _ => pad,
                    };
                    push_repeat(&mut s, options.fill, left);
                    s.append(sign);
                    s.append(self.prefix);
                    s.append(content);
                    push_repeat(&mut s, options.fill, pad - left);
                }
            },
        }
        proof {
            assert(s@ =~= self.formatted(*options));
        }
        s
    }
}

impl<'a> InRadix<'a> {
    /// Completes formatting as a `String`: sign, prefix and digits, with no
    /// field width.
    pub fn format_continuation_to_string(&self, prepared: &Prepared) -> (r: String)
        requires
            self.wf(),
            self.digit_case_spec() is Some,
            prepared.wf(),
            prepared.value() == self.magnitude_value(),
            prepared.radix() == self.radix_spec(),
        ensures
            r@ == sign_chars(self.sign_spec(), false) + self.prefix_spec() + radix_chars(
                self.magnitude_value(),
                self.radix_spec() as nat,
                self.digit_case_spec()->Some_0,
            ),
    {
        let sign: &str = match self.sign {
            Sign::Positive => "",
            Sign::Negative => "-",
        };
        proof {
            reveal_strlit("-");
            reveal_strlit("");
            assert(sign@ == sign_chars(self.sign, false));
        }
        let digit_case = match self.digit_case {
            Some(c) => c,
            None => DigitCase::Lower,
        };
        let digits = prepared.digits_string(digit_case);
        let mut s = String::new();
        s.append(sign);
        s.append(self.prefix);
        s.append(digits.as_str());
        proof {
            assert(s@ =~= sign@ + self.prefix@ + digits@);
        }
        s
    }

    /// The text for a formatting request, as `Display` would write it.
    pub fn to_string_with(&self, options: &FormatOptions) -> (r: String)
        requires
            self.wf(),
        ensures
            r@ == self.formatted(*options),
    {
        let prepared = self.format();
        self.format_continuation_formatter(&prepared, options)
    }

    /// The text with no width and no flags.
    pub fn to_string(&self) -> (r: String)
        requires
            self.wf(),
        ensures
            r@ == self.formatted(FormatOptions::plain_spec()),
    {
        let options = FormatOptions::plain();
        self.to_string_with(&options)
    }
}

impl FormatOptions {
    /// No width, space fill, no alignment, no flags.
    pub open spec fn plain_spec() -> FormatOptions {
        FormatOptions {
            width: None,
            fill: ' ',
            align: None,
            sign_plus: false,
            zero_pad: false,
            alternate: false,
        }
    }
}

/// The standard radixes with their prefixes and letter cases.
#[derive(Clone, Copy, Debug, PartialEq, Eq, Structural)]
pub enum RadixStyle {
    /// Radix 10, no prefix.
    Decimal,
    /// Radix 2, prefix `0b` in the alternate style.
    Binary,
    /// Radix 8, prefix `0o` in the alternate style.
    Octal,
    /// Radix 16 with lower-case letters, prefix `0x` in the alternate style.
    LowerHex,
    /// Radix 16 with upper-case letters, prefix `0x` in the alternate style.
    UpperHex,
}

/// The radix of a style.
pub open spec fn style_radix(style: RadixStyle) -> Digit {
    match style {
        RadixStyle::Decimal => 10,
        RadixStyle::Binary => 2,
        RadixStyle::Octal => 8,
        _ => 16,
    }
}

/// The prefix of a style.
pub open spec fn style_prefix(style: RadixStyle, alternate: bool) -> Seq<char> {
    if !alternate {
        Seq::empty()
    } else {
        match style {
            RadixStyle::Decimal => Seq::empty(),
            RadixStyle::Binary => seq!['0', 'b'],
            RadixStyle::Octal => seq!['0', 'o'],
            _ => seq!['0', 'x'],
        }
    }
}

/// The digit case of a style.
pub open spec fn style_case(style: RadixStyle) -> DigitCase {
    if style == RadixStyle::UpperHex {
        DigitCase::Upper
    } else {
        DigitCase::Lower
    }
}

/// The text of a signed magnitude in a standard style.
pub open spec fn style_formatted(
    sign: Sign,
    magnitude: nat,
    style: RadixStyle,
    options: FormatOptions,
) -> Seq<char> {
    pad_field(
        sign_chars(sign, options.sign_plus) + style_prefix(style, options.alternate),
        radix_chars(magnitude, style_radix(style) as nat, style_case(style)),
        options,
    )
}

/// Builds the `InRadix` of a standard style.
fn in_style<'a>(sign: Sign, magnitude: &'a UBig, style: RadixStyle, alternate: bool) -> (r: InRadix<'a>)
    ensures
        r.sign_spec() == sign,
        r.magnitude_value() == magnitude.value(),
        r.radix_spec() == style_radix(style),
        r.prefix_spec() == style_prefix(style, alternate),
        r.digit_case_spec() == Some(style_case(style)),
        r.prefix_spec().len() <= 2,
        r.magnitude == magnitude,
{
    let (radix, prefix): (Digit, &'static str) = match style {
        RadixStyle::Decimal => (10, ""),
        RadixStyle::Binary => (2, "0b"),
        RadixStyle::Octal => (8, "0o"),
        RadixStyle::LowerHex => (16, "0x"),
        RadixStyle::UpperHex => (16, "0x"),
    };
    let prefix: &'static str = if alternate {
        prefix
    } else {
        ""
    };
    let digit_case = match style {
        RadixStyle::UpperHex => DigitCase::Upper,
        _ => DigitCase::Lower,
    };
    proof {
        reveal_strlit("");
        reveal_strlit("0b");
        reveal_strlit("0o");
        reveal_strlit("0x");
        assert(prefix@ =~= style_prefix(style, alternate));
    }
    InRadix { sign, magnitude, radix, prefix, digit_case: Some(digit_case) }
}

impl UBig {
    /// Representation in a given radix.
    pub fn in_radix(&self, radix: u32) -> (r: InRadix)
        requires
            self.wf(),
            valid_radix(radix as int),
            countable_len(self.word_seq().len()),
        ensures
            r.wf(),
            r.sign_spec() == Sign::Positive,
            r.magnitude_value() == self.value(),
            r.word_count() == self.word_seq().len(),
            r.radix_spec() == radix,
            r.prefix_spec() == Seq::<char>::empty(),
            r.digit_case_spec() is None,
    {
        proof {
            reveal_strlit("");
        }
        InRadix { sign: Sign::Positive, magnitude: self, radix, prefix: "", digit_case: None }
    }

    /// String representation in an arbitrary radix.
    pub fn to_str_radix(&self, radix: u32) -> (r: String)
        requires
            self.wf(),
            valid_radix(radix as int),
            countable_len(self.word_seq().len()),
        ensures
            r@ == radix_chars(self.value(), radix as nat, DigitCase::Lower),
    {
        proof {
            reveal_strlit("");
        }
        let in_radix = InRadix {
            sign: Sign::Positive,
            magnitude: self,
            radix,
            prefix: "",
            digit_case: Some(DigitCase::Lower),
        };
        let prepared = in_radix.format();
        let s = in_radix.format_continuation_to_string(&prepared);
        proof {
            assert(s@ =~= radix_chars(self.value(), radix as nat, DigitCase::Lower));
        }
        s
    }

    /// Upper-case string representation in an arbitrary radix.
    pub fn to_str_radix_uppercase(&self, radix: u32) -> (r: String)
        requires
            self.wf(),
            valid_radix(radix as int),
            countable_len(self.word_seq().len()),
        ensures
            r@ == radix_chars(self.value(), radix as nat, DigitCase::Upper),
    {
        proof {
            reveal_strlit("");
        }
        let in_radix = InRadix {
            sign: Sign::Positive,
            magnitude: self,
            radix,
            prefix: "",
            digit_case: Some(DigitCase::Upper),
        };
        let prepared = in_radix.format();
        let s = in_radix.format_continuation_to_string(&prepared);
        proof {
            assert(s@ =~= radix_chars(self.value(), radix as nat, DigitCase::Upper));
        }
        s
    }

    /// Formats in a standard radix, as `Display`, `Binary`, `Octal`,
    /// `LowerHex` and `UpperHex` would.
    pub fn format_style(&self, style: RadixStyle, options: &FormatOptions) -> (r: String)
        requires
            self.wf(),
            countable_len(self.word_seq().len()),
        ensures
            r@ == style_formatted(Sign::Positive, self.value(), style, *options),
    {
        let in_radix = in_style(Sign::Positive, self, style, options.alternate);
        in_radix.to_string_with(options)
    }
}

impl IBig {
    /// Representation in a given radix.
    pub fn in_radix(&self, radix: u32) -> (r: InRadix)
        requires
            self.wf(),
            valid_radix(radix as int),
            countable_len(self.magnitude_spec().word_seq().len()),
        ensures
            r.wf(),
            r.sign_spec() == self.sign_spec(),
            r.magnitude_value() == self.magnitude_spec().value(),
            r.word_count() == self.magnitude_spec().word_seq().len(),
            r.radix_spec() == radix,
            r.prefix_spec() == Seq::<char>::empty(),
            r.digit_case_spec() is None,
    {
        proof {
            reveal_strlit("");
        }
        InRadix { sign: self.sign(), magnitude: self.magnitude(), radix, prefix: "", digit_case: None }
    }

    /// String representation in an arbitrary radix.
    pub fn to_str_radix(&self, radix: u32) -> (r: String)
        requires
            self.wf(),
            valid_radix(radix as int),
            countable_len(self.magnitude_spec().word_seq().len()),
        ensures
            r@ == sign_chars(self.sign_spec(), false) + radix_chars(
                self.magnitude_spec().value(),
                radix as nat,
                DigitCase::Lower,
            ),
    {
        proof {
            reveal_strlit("");
        }
        let in_radix = InRadix {
            sign: self.sign(),
            magnitude: self.magnitude(),
            radix,
            prefix: "",
            digit_case: Some(DigitCase::Lower),
        };
        let prepared = in_radix.format();
        let s = in_radix.format_continuation_to_string(&prepared);
        proof {
            assert(in_radix.prefix_spec() == Seq::<char>::empty());
            assert(s@ =~= sign_chars(self.sign_spec(), false) + radix_chars(
                self.magnitude_spec().value(),
                radix as nat,
                in_radix.digit_case_spec()->Some_0,
            ));
        }
        s
    }

    /// Upper-case string representation in an arbitrary radix.
    pub fn to_str_radix_uppercase(&self, radix: u32) -> (r: String)
        requires
            self.wf(),
            valid_radix(radix as int),
            countable_len(self.magnitude_spec().word_seq().len()),
        ensures
            r@ == sign_chars(self.sign_spec(), false) + radix_chars(
                self.magnitude_spec().value(),
                radix as nat,
                DigitCase::Upper,
            ),
    {
        proof {
            reveal_strlit("");
        }
        let in_radix = InRadix {
            sign: self.sign(),
            magnitude: self.magnitude(),
            radix,
            prefix: "",
            digit_case: Some(DigitCase::Upper),
        };
        let prepared = in_radix.format();
        let s = in_radix.format_continuation_to_string(&prepared);
        proof {
            assert(in_radix.prefix_spec() == Seq::<char>::empty());
            assert(s@ =~= sign_chars(self.sign_spec(), false) + radix_chars(
                self.magnitude_spec().value(),
                radix as nat,
                in_radix.digit_case_spec()->Some_0,
            ));
        }
        s
    }

    /// Formats in a standard radix, as `Display`, `Binary`, `Octal`,
    /// `LowerHex` and `UpperHex` would.
    pub fn format_style(&self, style: RadixStyle, options: &FormatOptions) -> (r: String)
        requires
            self.wf(),
            countable_len(self.magnitude_spec().word_seq().len()),
        ensures
            r@ == style_formatted(self.sign_spec(), self.magnitude_spec().value(), style, *options),
    {
        let in_radix = in_style(self.sign(), self.magnitude(), style, options.alternate);
        in_radix.to_string_with(options)
    }
}

} // verus!
