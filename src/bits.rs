//! Facts that connect bit slicing of words to digits in power-of-two radixes.

use crate::digits::{digits_of, lemma_digits_padded, lemma_padded_len, padded_digits};
use crate::radix::{word_base, Word};
use crate::ubig::{lemma_limbs_value_bound, lemma_limbs_value_split, limbs_value, words_value};
use vstd::arithmetic::div_mod::*;
use vstd::arithmetic::mul::*;
use vstd::arithmetic::power::*;
use vstd::arithmetic::power2::*;
use vstd::prelude::*;
use vstd::std_specs::bits::u64_leading_zeros;

verus! {

/// Number of significant bits of a word.
pub open spec fn bit_len(w: Word) -> nat {
    (64 - u64_leading_zeros(w)) as nat
}

/// A word lies between consecutive powers of two given by its bit length.
pub proof fn lemma_bit_len(w: Word)
    ensures
        bit_len(w) <= 64,
        w < pow2(bit_len(w)),
        w > 0 ==> w >= pow2((bit_len(w) - 1) as nat),
        w == 0 <==> bit_len(w) == 0,
    decreases w,
{
    reveal(u64_leading_zeros);
    if w == 0 {
        lemma2_to64();
    } else {
        let h = (w / 2) as Word;
        lemma_bit_len(h);
        assert(bit_len(w) == bit_len(h) + 1);
        lemma_pow2_unfold(bit_len(w));
        if h == 0 {
            lemma2_to64();
        } else {
            lemma_pow2_unfold((bit_len(w) - 1) as nat);
        }
    }
}

/// A power of a power of two is a power of two.
pub proof fn lemma_pow_of_pow2(log: nat, k: nat)
    ensures
        pow(pow2(log) as int, k) == pow2(log * k),
{
    lemma_pow2(log);
    lemma_pow_multiplies(2, log, k);
    lemma_pow2(log * k);
}

/// The digits of a number below `2^bits` in radix `2^log`: exactly
/// `max(1, ceil(bits / log))` of them when `bits` is its exact bit length.
pub proof fn lemma_pow2_width(n: nat, bits: nat, log: nat)
    requires
        1 <= log <= 5,
        n < pow2(bits),
        n > 0 ==> n >= pow2((bits - 1) as nat),
        n == 0 ==> bits == 0,
    ensures
        ({
            let w = if bits == 0 {
                1
            } else {
                (bits + log - 1) / log as int
            };
            &&& w >= 1
            &&& bits > 0 ==> w * log <= bits + log - 1
            &&& digits_of(n, pow2(log)) == padded_digits(n, pow2(log), w as nat)
            &&& digits_of(n, pow2(log)).len() == w
        }),
{
    let r = pow2(log);
    lemma2_to64();
    lemma_pow2_strictly_increases(0, log);
    let w: int = if bits == 0 {
        1
    } else {
        (bits + log - 1) / log as int
    };
    lemma_fundamental_div_mod((bits + log - 1) as int, log as int);
    let q = (bits + log - 1) / log as int;
    let rm = (bits + log - 1) % (log as int);
    assert(w >= 1 && (bits > 0 ==> w * log <= bits + log - 1) && w * log >= bits) by (nonlinear_arith)
        requires
            bits == 0 ==> w == 1,
            bits > 0 ==> w == q,
            bits + log - 1 == log * q + rm,
            0 <= rm < log,
            log >= 1,
    ;
    lemma_pow_of_pow2(log, w as nat);
    if w * log > bits {
        lemma_pow2_strictly_increases(bits, (w * log) as nat);
    }
    assert(log * w == w * log) by (nonlinear_arith);
    assert(n < pow(r as int, w as nat));
    if w > 1 {
        lemma_pow_of_pow2(log, (w - 1) as nat);
        assert(log * (w - 1) <= bits - 1) by (nonlinear_arith)
            requires
                w * log <= bits + log - 1,
                w > 1,
        ;
        if log * (w - 1) < bits - 1 {
            lemma_pow2_strictly_increases((log * (w - 1)) as nat, (bits - 1) as nat);
        }
        assert(n >= pow(r as int, (w - 1) as nat));
    }
    lemma_digits_padded(n, w as nat, r);
    lemma_padded_len(n, w as nat, r);
}

/// Powers of the word base are powers of two.
pub proof fn lemma_word_base_pow(k: nat)
    ensures
        pow(word_base() as int, k) == pow2(64 * k),
{
    lemma2_to64_rest();
    lemma_pow_of_pow2(64, k);
}

/// A canonical multi-word number lies between the powers of two given by
/// the bit length of its top word.
pub proof fn lemma_words_bit_len(ws: Seq<Word>)
    requires
        ws.len() >= 2,
        ws.last() != 0,
    ensures
        ({
            let bits = 64 * (ws.len() - 1) + bit_len(ws.last());
            &&& words_value(ws) < pow2(bits as nat)
            &&& words_value(ws) >= pow2((bits - 1) as nat)
            &&& bits <= 64 * ws.len()
            &&& bits > 64
        }),
{
    let b = word_base();
    let m = (ws.len() - 1) as nat;
    let top = ws.last();
    lemma_bit_len(top);
    let bl = bit_len(top);
    lemma_limbs_value_split(ws, m as int, b);
    let low = ws.subrange(0, m as int);
    assert(ws.subrange(m as int, ws.len() as int) =~= seq![top]);
    assert(seq![top].drop_first() =~= Seq::<Word>::empty());
    assert(limbs_value(Seq::<Word>::empty(), b) == 0);
    assert(limbs_value(seq![top], b) == top);
    lemma_limbs_value_bound(low, b);
    lemma_word_base_pow(m);
    let p = pow2(64 * m);
    let vl = limbs_value(low, b);
    lemma_pow2_adds(64 * m, bl);
    lemma_pow2_adds(64 * m, (bl - 1) as nat);
    assert(words_value(ws) == vl + p * top);
    assert(vl + p * top < p * pow2(bl)) by (nonlinear_arith)
        requires
            vl < p,
            top < pow2(bl),
            top + 1 <= pow2(bl),
    ;
    assert(vl + p * top >= p * pow2((bl - 1) as nat)) by (nonlinear_arith)
        requires
            vl >= 0,
            p >= 0,
            top >= pow2((bl - 1) as nat),
    ;
}

/// Bits `[64 * i + s, 64 * i + s + log)` of a number are those of the pair of
/// words `i` and `i + 1` (zero above the top).
pub proof fn lemma_extract_bits(ws: Seq<Word>, i: nat, s: nat, log: nat)
    requires
        i < ws.len(),
        s < 64,
        1 <= log <= 5,
    ensures
        ({
            let hi: nat = if i + 1 < ws.len() {
                ws[i as int + 1] as nat
            } else {
                0
            };
            let pair = ws[i as int] + word_base() * hi;
            (words_value(ws) as int / pow2(64 * i + s) as int) % (pow2(log) as int) == (pair as int
                / pow2(s) as int) % (pow2(log) as int)
        }),
{
    let b = word_base();
    let hi: nat = if i + 1 < ws.len() {
        ws[i as int + 1] as nat
    } else {
        0
    };
    let pair = ws[i as int] + b * hi;
    let v = words_value(ws);
    // The number above word i.
    lemma_limbs_value_split(ws, i as int, b);
    let low = ws.subrange(0, i as int);
    let up = ws.subrange(i as int, ws.len() as int);
    lemma_limbs_value_bound(low, b);
    lemma_word_base_pow(i);
    let pi = pow2(64 * i);
    let v1 = limbs_value(up, b);
    lemma_pow2_pos(64 * i);
    let vl = limbs_value(low, b);
    assert(v as int == v1 * pi + vl) by (nonlinear_arith)
        requires
            v == vl + pi * v1,
    ;
    lemma_fundamental_div_mod_converse(v as int, pi as int, v1 as int, vl as int);
    // Above the pair.
    let v3: nat = if i + 2 <= ws.len() {
        limbs_value(ws.subrange(i as int + 2, ws.len() as int), b)
    } else {
        0
    };
    assert(up.drop_first() =~= ws.subrange(i as int + 1, ws.len() as int));
    if i + 1 < ws.len() {
        assert(ws.subrange(i as int + 1, ws.len() as int).drop_first() =~= ws.subrange(
            i as int + 2,
            ws.len() as int,
        ));
        let v2 = limbs_value(ws.subrange(i as int + 1, ws.len() as int), b);
        assert(v2 == hi + b * v3);
        assert(v1 == ws[i as int] + b * v2);
        assert(v1 == pair + (b * b) * v3) by (nonlinear_arith)
            requires
                v1 == ws[i as int] + b * v2,
                v2 == hi + b * v3,
                pair == ws[i as int] + b * hi,
        ;
    } else {
        assert(ws.subrange(i as int + 1, ws.len() as int) =~= Seq::<Word>::empty());
        assert(limbs_value(Seq::<Word>::empty(), b) == 0);
        assert(v1 == pair + (b * b) * v3);
    }
    lemma2_to64_rest();
    lemma_pow2_adds(64, 64);
    let p128 = pow2(128);
    assert(b * b == p128);
    // Dividing by 2^(64 i) then by 2^s.
    lemma_pow2_pos(s);
    lemma_pow2_adds(64 * i, s);
    lemma_div_denominator(v as int, pi as int, pow2(s) as int);
    assert(v as int / pow2(64 * i + s) as int == v1 as int / pow2(s) as int);
    // Dividing the pair and what lies above it by 2^s.
    let ps = pow2(s);
    let ks = (128 - s) as nat;
    lemma_pow2_adds(s, ks);
    let pk = pow2(ks);
    let qq = pair as int / ps as int;
    let rr = pair as int % ps as int;
    lemma_fundamental_div_mod(pair as int, ps as int);
    assert(v1 == (qq + pk * v3) * ps + rr) by (nonlinear_arith)
        requires
            v1 == pair + p128 * v3,
            p128 == ps * pk,
            pair == ps * qq + rr,
    ;
    lemma_mod_bound(pair as int, ps as int);
    lemma_fundamental_div_mod_converse(v1 as int, ps as int, qq + pk * v3, rr);
    // What lies above the pair does not reach the low `log` bits.
    let pl = pow2(log);
    lemma_pow2_adds(log, (ks - log) as nat);
    lemma_pow2_pos(log);
    let c = pow2((ks - log) as nat) * v3;
    assert(pk * v3 == pl * c) by (nonlinear_arith)
        requires
            pk == pl * pow2((ks - log) as nat),
            c == pow2((ks - log) as nat) * v3,
    ;
    lemma_mod_multiples_vanish(c as int, qq, pl as int);
}

/// In a power-of-two radix, the digits obtained by repeated division are the
/// groups of `log` bits of the number, most significant first: digit `j` of
/// `w` is bits `[log * (w - 1 - j), log * (w - j))`.
pub proof fn lemma_pow2_digits_are_bit_groups(n: nat, bits: nat, log: nat)
    requires
        1 <= log <= 5,
        n < pow2(bits),
        n > 0 ==> n >= pow2((bits - 1) as nat),
        n == 0 ==> bits == 0,
    ensures
        ({
            let w = digits_of(n, pow2(log)).len();
            digits_of(n, pow2(log)) == Seq::new(
                w,
                |j: int| ((n / pow2((log * (w - 1 - j)) as nat)) % pow2(log)) as nat,
            )
        }),
{
    lemma_pow2_width(n, bits, log);
    let r = pow2(log);
    lemma2_to64();
    lemma_pow2_strictly_increases(0, log);
    let ds = digits_of(n, r);
    let w = ds.len();
    assert forall|j: int| 0 <= j < w implies #[trigger] ds[j] == ((n / pow2(
        (log * (w - 1 - j)) as nat,
    )) % pow2(log)) as nat by {
        crate::digits::lemma_padded_index(n, w, r, j);
        lemma_pow_of_pow2(log, (w - 1 - j) as nat);
    }
    assert(ds =~= Seq::new(w, |j: int| ((n / pow2((log * (w - 1 - j)) as nat)) % pow2(log)) as nat));
}

} // verus!
