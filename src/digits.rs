//! The digits of a natural number in a radix, and the facts about them that
//! the digit producers rely on.

use crate::radix::{byte_digit, digit_byte, lemma_decode_encode_digit, valid_radix, DigitCase};
use vstd::arithmetic::div_mod::*;
use vstd::arithmetic::mul::*;
use vstd::arithmetic::power::*;
use vstd::arithmetic::power2::*;
use vstd::prelude::*;
use crate::ubig::limbs_value;
use crate::radix::Word;

verus! {

/// The digits of `n` in `radix`, most significant first, without leading
/// zeros; zero has the single digit 0.
pub open spec fn digits_of(n: nat, radix: nat) -> Seq<nat>
    decreases n,
{
    if radix < 2 || n < radix {
        seq![n]
    } else {
        proof {
            lemma_div_decreases(n as int, radix as int);
        }
        digits_of(n / radix, radix).push(n % radix)
    }
}

/// The lowest `k` digits of `n` in `radix`, most significant first, padded
/// with zeros.
pub open spec fn padded_digits(n: nat, radix: nat, k: nat) -> Seq<nat>
    decreases k,
{
    if k == 0 || radix == 0 {
        Seq::empty()
    } else {
        padded_digits(n / radix, radix, (k - 1) as nat).push(n % radix)
    }
}

/// The number that a digit sequence (most significant first) stands for.
pub open spec fn digits_value(ds: Seq<nat>, radix: nat) -> nat
    decreases ds.len(),
{
    if ds.len() == 0 {
        0
    } else {
        digits_value(ds.drop_last(), radix) * radix + ds.last()
    }
}

/// The ASCII bytes of a digit sequence.
pub open spec fn digit_bytes(ds: Seq<nat>, digit_case: DigitCase) -> Seq<u8> {
    ds.map_values(|d: nat| digit_byte(d, digit_case))
}

/// The ASCII bytes of `n` in `radix`.
pub open spec fn radix_bytes(n: nat, radix: nat, digit_case: DigitCase) -> Seq<u8> {
    digit_bytes(digits_of(n, radix), digit_case)
}

/// The values of a sequence of ASCII digits in `radix`.
pub open spec fn decode_bytes(bytes: Seq<u8>, radix: nat) -> Seq<nat> {
    bytes.map_values(|b: u8| byte_digit(b, radix)->Some_0)
}

/// The characters of a sequence of ASCII bytes.
pub open spec fn ascii_chars(bytes: Seq<u8>) -> Seq<char> {
    bytes.map_values(|b: u8| b as char)
}

/// The characters of `n` in `radix`.
pub open spec fn radix_chars(n: nat, radix: nat, digit_case: DigitCase) -> Seq<char> {
    ascii_chars(radix_bytes(n, radix, digit_case))
}

/// Division of `q * radix^k + g` by `radix`, for `g < radix^k`.
pub proof fn lemma_div_step(q: nat, k: nat, g: nat, radix: nat)
    requires
        radix >= 2,
        k >= 1,
        g < pow(radix as int, k),
    ensures
        (q * pow(radix as int, k) + g) / (radix as int) == q * pow(radix as int, (k - 1) as nat) + (g / radix) as int,
        (q * pow(radix as int, k) + g) % (radix as int) == g % radix,
        g / radix < pow(radix as int, (k - 1) as nat),
{
    reveal(pow);
    let p = pow(radix as int, (k - 1) as nat);
    assert(pow(radix as int, k) == radix * p);
    lemma_pow_positive(radix as int, (k - 1) as nat);
    let n = q * (radix * p) + g;
    let gq = g / radix;
    let gr = g % radix;
    lemma_fundamental_div_mod(g as int, radix as int);
    assert(n == (q * p + gq) * radix + gr) by (nonlinear_arith)
        requires
            n == q * (radix * p) + g,
            g == radix * gq + gr,
    ;
    lemma_fundamental_div_mod_converse(n, radix as int, q * p + gq, gr as int);
    assert(gq < p) by (nonlinear_arith)
        requires
            g == radix * gq + gr,
            0 <= gr,
            g < radix * p,
            radix >= 2,
    ;
}

/// Splitting a number at a group of `k` digits: the digits of
/// `q * radix^k + g` are those of `q` followed by `g` padded to `k` digits.
pub proof fn lemma_digits_split(q: nat, k: nat, g: nat, radix: nat)
    requires
        radix >= 2,
        q > 0,
        g < pow(radix as int, k),
    ensures
        digits_of((q * pow(radix as int, k) + g) as nat, radix) == digits_of(q, radix)
            + padded_digits(g, radix, k),
    decreases k,
{
    reveal(pow);
    if k == 0 {
        assert(q * pow(radix as int, k) + g == q);
        assert(padded_digits(g, radix, k) == Seq::<nat>::empty());
        assert(digits_of(q, radix) + padded_digits(g, radix, k) =~= digits_of(q, radix));
    } else {
        let n = (q * pow(radix as int, k) + g) as nat;
        lemma_div_step(q, k, g, radix);
        let q1 = q * pow(radix as int, (k - 1) as nat);
        lemma_pow_positive(radix as int, (k - 1) as nat);
        assert(q1 >= 1) by (nonlinear_arith)
            requires
                q1 == q * pow(radix as int, (k - 1) as nat),
                q >= 1,
                pow(radix as int, (k - 1) as nat) >= 1,
        ;
        assert(n >= radix) by (nonlinear_arith)
            requires
                n == q * pow(radix as int, k) + g,
                pow(radix as int, k) == radix * pow(radix as int, (k - 1) as nat),
                q1 == q * pow(radix as int, (k - 1) as nat),
                q1 >= 1,
                g >= 0,
                radix >= 2,
        ;
        lemma_digits_split(q, (k - 1) as nat, g / radix, radix);
        assert(digits_of(n, radix) == digits_of(n / radix, radix).push(n % radix));
        assert(digits_of(n, radix) =~= digits_of(q, radix) + padded_digits(g, radix, k));
    }
}

/// A number below `radix^w`, and not below `radix^(w-1)` unless `w == 1`,
/// has exactly `w` digits: its lowest `w` digits.
pub proof fn lemma_digits_padded(n: nat, w: nat, radix: nat)
    requires
        radix >= 2,
        w >= 1,
        n < pow(radix as int, w),
        w == 1 || n >= pow(radix as int, (w - 1) as nat),
    ensures
        digits_of(n, radix) == padded_digits(n, radix, w),
    decreases w,
{
    reveal(pow);
    if w == 1 {
        lemma_pow1(radix as int);
        lemma_basic_div(n as int, radix as int);
        lemma_small_mod(n, radix);
        assert(padded_digits(n / radix, radix, 0) == Seq::<nat>::empty());
        assert(padded_digits(n, radix, w) =~= seq![n]);
    } else {
        let p = pow(radix as int, (w - 2) as nat);
        assert(pow(radix as int, (w - 1) as nat) == radix * p);
        assert(pow(radix as int, w) == radix * (radix * p));
        lemma_pow_positive(radix as int, (w - 2) as nat);
        let m = n / radix;
        lemma_fundamental_div_mod(n as int, radix as int);
        assert(m < radix * p && (w == 2 || m >= p) && n >= radix) by (nonlinear_arith)
            requires
                n == radix * m + n % radix,
                0 <= n % radix < radix,
                n < radix * (radix * p),
                n >= radix * p,
                p >= 1,
                w == 2 ==> p == 1,
                radix >= 2,
        ;
        if w == 2 {
            assert(pow(radix as int, 0) == 1);
        }
        lemma_digits_padded(m as nat, (w - 1) as nat, radix);
    }
}

/// The digit at position `j` of `n` padded to `w` digits.
pub proof fn lemma_padded_index(n: nat, w: nat, radix: nat, j: int)
    requires
        radix >= 2,
        0 <= j < w,
    ensures
        padded_digits(n, radix, w).len() == w,
        padded_digits(n, radix, w)[j] == (n as int / pow(radix as int, (w - 1 - j) as nat)) % (
        radix as int),
    decreases w,
{
    reveal(pow);
    lemma_padded_len(n, w, radix);
    if j == w - 1 {
        assert(pow(radix as int, 0) == 1);
    } else {
        lemma_padded_index(n / radix, (w - 1) as nat, radix, j);
        let e = (w - 2 - j) as nat;
        lemma_pow_positive(radix as int, e);
        lemma_div_denominator(n as int, radix as int, pow(radix as int, e));
        assert(pow(radix as int, (w - 1 - j) as nat) == radix * pow(radix as int, e));
    }
}

/// Padding to `w` digits gives `w` digits.
pub proof fn lemma_padded_len(n: nat, w: nat, radix: nat)
    requires
        radix >= 2,
    ensures
        padded_digits(n, radix, w).len() == w,
    decreases w,
{
    if w > 0 {
        lemma_padded_len(n / radix, (w - 1) as nat, radix);
    }
}

/// Every digit of `n` is below the radix, the first is not zero unless `n`
/// is, and the digits stand for `n`.
pub proof fn lemma_digits_of_value(n: nat, radix: nat)
    requires
        radix >= 2,
    ensures
        digits_of(n, radix).len() >= 1,
        forall|i: int| 0 <= i < digits_of(n, radix).len() ==> #[trigger] digits_of(n, radix)[i] < radix,
        digits_value(digits_of(n, radix), radix) == n,
        n > 0 ==> digits_of(n, radix)[0] > 0,
    decreases n,
{
    if n < radix {
        assert(digits_of(n, radix) == seq![n]);
        assert(seq![n].drop_last() =~= Seq::<nat>::empty());
        assert(digits_value(Seq::<nat>::empty(), radix) == 0);
        assert(digits_value(seq![n], radix) == 0 * radix + n);
    } else {
        let m = n / radix;
        lemma_fundamental_div_mod(n as int, radix as int);
        assert(m < n && m > 0) by (nonlinear_arith)
            requires
                n == radix * m + n % radix,
                0 <= n % radix < radix,
                n >= radix,
                radix >= 2,
        ;
        lemma_digits_of_value(m, radix);
        let ds = digits_of(n, radix);
        assert(ds.drop_last() =~= digits_of(m, radix));
        assert(ds.last() == n % radix);
        assert(digits_value(ds, radix) == m * radix + n % radix);
        assert(m * radix + n % radix == n) by (nonlinear_arith)
            requires
                n == radix * m + n % radix,
        ;
    }
}

/// Writing a number in a radix and reading each character back as a digit
/// gives the digits that stand for the number; zero is the single digit `0`.
pub proof fn lemma_radix_bytes_round_trip(n: nat, radix: nat, digit_case: DigitCase)
    requires
        valid_radix(radix as int),
        digit_case != DigitCase::NoLetters,
    ensures
        radix_bytes(n, radix, digit_case).len() >= 1,
        forall|i: int|
            0 <= i < radix_bytes(n, radix, digit_case).len() ==> byte_digit(
                #[trigger] radix_bytes(n, radix, digit_case)[i],
                radix,
            ) is Some,
        digits_value(decode_bytes(radix_bytes(n, radix, digit_case), radix), radix) == n,
        n > 0 ==> radix_bytes(n, radix, digit_case)[0] != 48u8,
{
    lemma_digits_of_value(n, radix);
    let ds = digits_of(n, radix);
    let bs = radix_bytes(n, radix, digit_case);
    assert forall|i: int| 0 <= i < bs.len() implies byte_digit(#[trigger] bs[i], radix) == Some(
        ds[i],
    ) by {
        lemma_decode_encode_digit(radix, ds[i], digit_case);
    }
    assert(decode_bytes(bs, radix) =~= ds);
}

/// Zero is written as the single digit `0`, in every radix.
pub proof fn lemma_zero_is_one_digit(radix: nat, digit_case: DigitCase)
    requires
        valid_radix(radix as int),
    ensures
        digits_of(0, radix) == seq![0nat],
        digits_of(0, radix).len() == 1,
        radix_chars(0, radix, digit_case) == seq!['0'],
{
    assert(radix_bytes(0, radix, digit_case) =~= seq![48u8]);
    assert(radix_chars(0, radix, digit_case) =~= seq!['0']);
}

/// The number of characters written for a number is its number of digits,
/// which the producers report as their width beforehand.
pub proof fn lemma_width_is_char_count(n: nat, radix: nat, digit_case: DigitCase)
    ensures
        radix_chars(n, radix, digit_case).len() == digits_of(n, radix).len(),
        radix_bytes(n, radix, digit_case).len() == digits_of(n, radix).len(),
{
}

/// Groups of `k` digits, each padded, the most significant group first;
/// `gs` holds the groups least significant first.
pub open spec fn padded_groups(gs: Seq<Word>, radix: nat, k: nat) -> Seq<nat>
    decreases gs.len(),
{
    if gs.len() == 0 {
        Seq::empty()
    } else {
        padded_groups(gs.drop_first(), radix, k) + padded_digits(gs[0] as nat, radix, k)
    }
}

/// The bytes of concatenated digit sequences are the concatenated bytes.
pub proof fn lemma_digit_bytes_concat(a: Seq<nat>, b: Seq<nat>, digit_case: DigitCase)
    ensures
        digit_bytes(a + b, digit_case) == digit_bytes(a, digit_case) + digit_bytes(b, digit_case),
{
    assert(digit_bytes(a + b, digit_case) =~= digit_bytes(a, digit_case) + digit_bytes(b, digit_case));
}

/// A number made of a non-zero top group over low groups of `k` digits each
/// has the digits of the top group followed by each low group padded to `k`
/// digits.
pub proof fn lemma_groups_digits(gs: Seq<Word>, top: nat, radix: nat, k: nat)
    requires
        radix >= 2,
        top > 0,
        pow(radix as int, k) > 0,
        forall|i: int| 0 <= i < gs.len() ==> gs[i] < pow(radix as int, k),
    ensures
        digits_of(
            (limbs_value(gs, pow(radix as int, k) as nat) + pow(pow(radix as int, k), gs.len())
                * top) as nat,
            radix,
        ) == digits_of(top, radix) + padded_groups(gs, radix, k),
    decreases gs.len(),
{
    reveal(pow);
    let big = pow(radix as int, k) as nat;
    if gs.len() == 0 {
        assert(limbs_value(gs, big) == 0);
        assert(pow(big as int, 0) == 1);
        assert(digits_of(top, radix) + padded_groups(gs, radix, k) =~= digits_of(top, radix));
    } else {
        let rest = gs.drop_first();
        lemma_groups_digits(rest, top, radix, k);
        let m1 = rest.len();
        let pm1 = pow(big as int, m1);
        lemma_pow_positive(big as int, m1);
        let vrest = limbs_value(rest, big) + pm1 * top;
        assert(pm1 * top > 0) by (nonlinear_arith)
            requires
                pm1 > 0,
                top > 0,
        ;
        assert(pow(big as int, gs.len()) == big * pm1);
        let g0 = gs[0];
        assert(limbs_value(gs, big) + big * pm1 * top == vrest * big + g0) by (nonlinear_arith)
            requires
                limbs_value(gs, big) == g0 + big * limbs_value(rest, big),
                vrest == limbs_value(rest, big) + pm1 * top,
        ;
        lemma_digits_split(vrest as nat, k, g0 as nat, radix);
        assert(digits_of(top, radix) + padded_groups(gs, radix, k) =~= digits_of(top, radix)
            + padded_groups(rest, radix, k) + padded_digits(g0 as nat, radix, k));
    }
}

/// A number below `2^e` has at most `max(e, 1)` digits.
pub proof fn lemma_digits_len_bound(n: nat, radix: nat, e: nat)
    requires
        radix >= 2,
        n < pow2(e),
    ensures
        digits_of(n, radix).len() <= if e == 0 {
            1
        } else {
            e
        },
    decreases n,
{
    if n >= radix {
        let m = n / radix;
        lemma_fundamental_div_mod(n as int, radix as int);
        assert(e > 0) by {
            lemma2_to64();
            if e == 0 {
                assert(pow2(0) == 1);
            }
        }
        lemma_pow2_unfold(e);
        assert(m < pow2((e - 1) as nat) && m < n) by (nonlinear_arith)
            requires
                n == radix * m + n % radix,
                0 <= n % radix < radix,
                n >= radix,
                radix >= 2,
                n < 2 * pow2((e - 1) as nat),
        ;
        lemma_digits_len_bound(m, radix, (e - 1) as nat);
        if e == 1 {
            lemma2_to64();
        }
    }
}

/// Each padded group has `k` digits.
pub proof fn lemma_padded_groups_len(gs: Seq<Word>, radix: nat, k: nat)
    requires
        radix >= 2,
    ensures
        padded_groups(gs, radix, k).len() == gs.len() * k,
    decreases gs.len(),
{
    if gs.len() > 0 {
        lemma_padded_groups_len(gs.drop_first(), radix, k);
        lemma_padded_len(gs[0] as nat, k, radix);
        assert((gs.len() - 1) * k + k == gs.len() * k) by (nonlinear_arith);
    }
}

/// Group extraction: for a non-zero top group over low groups of `k` digits
/// each, the digits of the number are the top group's, unpadded (so not
/// starting with zero), followed by every low group padded to exactly `k`
/// digits, the most significant group first.
pub proof fn lemma_group_extraction(gs: Seq<Word>, top: nat, radix: nat, k: nat)
    requires
        radix >= 2,
        top > 0,
        forall|i: int| 0 <= i < gs.len() ==> gs[i] < pow(radix as int, k),
    ensures
        digits_of(
            (limbs_value(gs, pow(radix as int, k) as nat) + pow(pow(radix as int, k), gs.len())
                * top) as nat,
            radix,
        ) == digits_of(top, radix) + padded_groups(gs, radix, k),
        digits_of(top, radix)[0] != 0,
        forall|i: int|
            0 <= i < gs.len() ==> (#[trigger] padded_digits(gs[i] as nat, radix, k)).len() == k,
        padded_groups(gs, radix, k).len() == gs.len() * k,
{
    lemma_pow_positive(radix as int, k);
    lemma_groups_digits(gs, top, radix, k);
    lemma_digits_of_value(top, radix);
    lemma_padded_groups_len(gs, radix, k);
    assert forall|i: int| 0 <= i < gs.len() implies (#[trigger] padded_digits(
        gs[i] as nat,
        radix,
        k,
    )).len() == k by {
        lemma_padded_len(gs[i] as nat, k, radix);
    }
}

} // verus!
