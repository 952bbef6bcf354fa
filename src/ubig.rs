//! Unsigned and signed big integers stored as words, least significant first.

use crate::radix::{word_base, Word};
use vstd::arithmetic::power::*;
use vstd::prelude::*;

verus! {

/// The number that a sequence of limbs in `base` stands for, least
/// significant first.
pub open spec fn limbs_value(ws: Seq<Word>, base: nat) -> nat
    decreases ws.len(),
{
    if ws.len() == 0 {
        0
    } else {
        (ws[0] + base * limbs_value(ws.drop_first(), base)) as nat
    }
}

/// The number that a sequence of words stands for, least significant first.
pub open spec fn words_value(ws: Seq<Word>) -> nat {
    limbs_value(ws, word_base())
}

/// A canonical word sequence: at least one word, and no zero word on top of
/// a longer one.
pub open spec fn canonical_words(ws: Seq<Word>) -> bool {
    ws.len() >= 1 && (ws.len() >= 2 ==> ws.last() != 0)
}

/// Appending a limb adds it at the next power of the base.
pub proof fn lemma_limbs_value_push(ws: Seq<Word>, w: Word, base: nat)
    ensures
        limbs_value(ws.push(w), base) == limbs_value(ws, base) + pow(base as int, ws.len()) * w,
    decreases ws.len(),
{
    reveal(pow);
    if ws.len() == 0 {
        assert(ws.push(w).drop_first() =~= Seq::<Word>::empty());
        assert(limbs_value(Seq::<Word>::empty(), base) == 0);
        lemma_pow0(base as int);
    } else {
        let rest = ws.drop_first();
        assert(ws.push(w).drop_first() =~= rest.push(w));
        lemma_limbs_value_push(rest, w, base);
        assert(limbs_value(ws.push(w), base) == ws[0] + base * limbs_value(rest.push(w), base));
        assert(limbs_value(ws, base) == ws[0] + base * limbs_value(rest, base));
        let p = pow(base as int, rest.len());
        assert(pow(base as int, ws.len()) == base * p);
        assert(base * (limbs_value(rest, base) + p * w) == base * limbs_value(rest, base) + (base
            * p) * w) by (nonlinear_arith);
    }
}

/// A zero limb on top does not change the value.
pub proof fn lemma_limbs_value_drop_zero(ws: Seq<Word>, base: nat)
    requires
        ws.len() >= 1,
        ws.last() == 0,
    ensures
        limbs_value(ws.drop_last(), base) == limbs_value(ws, base),
{
    lemma_limbs_value_push(ws.drop_last(), 0, base);
    assert(ws.drop_last().push(0) =~= ws);
}

/// Limbs below the base stand for a number below `base^len`.
pub proof fn lemma_limbs_value_bound(ws: Seq<Word>, base: nat)
    requires
        base >= 1,
        forall|i: int| 0 <= i < ws.len() ==> ws[i] < base,
    ensures
        limbs_value(ws, base) < pow(base as int, ws.len()),
    decreases ws.len(),
{
    reveal(pow);
    if ws.len() > 0 {
        let rest = ws.drop_first();
        lemma_limbs_value_bound(rest, base);
        let v = limbs_value(rest, base);
        let p = pow(base as int, rest.len());
        assert(ws[0] + base * v < base * p) by (nonlinear_arith)
            requires
                ws[0] < base,
                v < p,
                v >= 0,
        ;
    }
}

/// The value is at least the top limb times its weight.
pub proof fn lemma_limbs_value_lower(ws: Seq<Word>, base: nat)
    requires
        ws.len() >= 1,
    ensures
        limbs_value(ws, base) >= pow(base as int, (ws.len() - 1) as nat) * ws.last(),
{
    lemma_limbs_value_push(ws.drop_last(), ws.last(), base);
    assert(ws.drop_last().push(ws.last()) =~= ws);
}

/// Splitting limbs at index `i`.
pub proof fn lemma_limbs_value_split(ws: Seq<Word>, i: int, base: nat)
    requires
        0 <= i <= ws.len(),
    ensures
        limbs_value(ws, base) == limbs_value(ws.subrange(0, i), base) + pow(base as int, i as nat)
            * limbs_value(ws.subrange(i, ws.len() as int), base),
    decreases i,
{
    reveal(pow);
    if i == 0 {
        assert(ws.subrange(0, 0) =~= Seq::<Word>::empty());
        assert(ws.subrange(0, ws.len() as int) =~= ws);
        assert(limbs_value(Seq::<Word>::empty(), base) == 0);
    } else {
        let rest = ws.drop_first();
        lemma_limbs_value_split(rest, i - 1, base);
        assert(ws.subrange(0, i).drop_first() =~= rest.subrange(0, i - 1));
        assert(ws.subrange(0, i).len() > 0);
        assert(rest.subrange(i - 1, rest.len() as int) =~= ws.subrange(i, ws.len() as int));
        let a = limbs_value(rest.subrange(0, i - 1), base);
        let b = limbs_value(ws.subrange(i, ws.len() as int), base);
        let p = pow(base as int, (i - 1) as nat);
        assert(pow(base as int, i as nat) == base * p);
        assert(base * (a + p * b) == base * a + (base * p) * b) by (nonlinear_arith);
    }
}

/// A growable buffer of words, least significant first.
pub struct Buffer {
    words: Vec<Word>,
}

impl Buffer {
    /// The words held.
    pub closed spec fn view_words(&self) -> Seq<Word> {
        self.words@
    }

    /// An empty buffer with room for `capacity` words.
    pub fn allocate(capacity: usize) -> (b: Buffer)
        ensures
            b.view_words() == Seq::<Word>::empty(),
    {
        Buffer { words: Vec::with_capacity(capacity) }
    }

    /// Appends a word on top.
    pub fn push(&mut self, word: Word)
        ensures
            final(self).view_words() == old(self).view_words().push(word),
    {
        self.words.push(word);
    }

    /// Appends words on top.
    pub fn extend(&mut self, words: &[Word])
        ensures
            final(self).view_words() == old(self).view_words() + words@,
    {
        let ghost start = self.words@;
        let mut i: usize = 0;
        while i < words.len()
            invariant
                i <= words@.len(),
                self.words@ == start + words@.subrange(0, i as int),
            decreases words@.len() - i,
        {
            self.words.push(words[i]);
            i += 1;
            proof {
                assert(self.words@ =~= start + words@.subrange(0, i as int));
            }
        }
        proof {
            assert(words@.subrange(0, words@.len() as int) =~= words@);
        }
    }

    /// Number of words held.
    pub fn len(&self) -> (r: usize)
        ensures
            r == self.view_words().len(),
    {
        self.words.len()
    }

    /// The word at `index`.
    pub fn get(&self, index: usize) -> (r: Word)
        requires
            index < self.view_words().len(),
        ensures
            r == self.view_words()[index as int],
    {
        self.words[index]
    }

    /// Removes zero words from the top; the value is kept.
    pub fn pop_leading_zeros(&mut self)
        ensures
            words_value(final(self).view_words()) == words_value(old(self).view_words()),
            final(self).view_words().len() <= old(self).view_words().len(),
            final(self).view_words() == old(self).view_words().subrange(
                0,
                final(self).view_words().len() as int,
            ),
            final(self).view_words().len() > 0 ==> final(self).view_words().last() != 0,
            forall|i: int|
                final(self).view_words().len() <= i < old(self).view_words().len()
                    ==> old(self).view_words()[i] == 0,
    {
        let ghost start = self.words@;
        while self.words.len() > 0 && self.words[self.words.len() - 1] == 0
            invariant
                words_value(self.words@) == words_value(start),
                self.words@.len() <= start.len(),
                self.words@ == start.subrange(0, self.words@.len() as int),
                forall|i: int| self.words@.len() <= i < start.len() ==> start[i] == 0,
            decreases self.words@.len(),
        {
            proof {
                lemma_limbs_value_drop_zero(self.words@, word_base());
            }
            self.words.pop();
            proof {
                assert(self.words@ =~= start.subrange(0, self.words@.len() as int));
            }
        }
    }
}

/// Divides the number in `buffer` in place by `divisor` and returns the
/// remainder. The length of the buffer is kept.
pub fn div_rem_by_word_in_place(buffer: &mut Buffer, divisor: Word) -> (rem: Word)
    requires
        divisor > 0,
    ensures
        final(buffer).view_words().len() == old(buffer).view_words().len(),
        words_value(old(buffer).view_words()) == words_value(final(buffer).view_words()) * divisor + rem,
        rem < divisor,
{
    let ghost orig = buffer.words@;
    let len = buffer.words.len();
    let mut rem: Word = 0;
    let mut i: usize = len;
    proof {
        assert(orig.subrange(len as int, len as int) =~= Seq::<Word>::empty());
        assert(buffer.words@.subrange(len as int, len as int) =~= Seq::<Word>::empty());
        assert(limbs_value(Seq::<Word>::empty(), word_base()) == 0);
    }
    while i > 0
        invariant
            buffer.words@.len() == len == orig.len(),
            i <= len,
            rem < divisor,
            forall|j: int| 0 <= j < i ==> buffer.words@[j] == orig[j],
            limbs_value(orig.subrange(i as int, len as int), word_base()) == limbs_value(
                buffer.words@.subrange(i as int, len as int),
                word_base(),
            ) * divisor + rem,
        decreases i,
    {
        i -= 1;
        let ghost tail_new = buffer.words@.subrange(i + 1, len as int);
        let ghost r0: int = rem as int;
        let w = buffer.words[i];
        let cur: u128 = (rem as u128) * 0x1_0000_0000_0000_0000u128 + (w as u128);
        let q: u128 = cur / (divisor as u128);
        let r: u128 = cur % (divisor as u128);
        assert(q < 0x1_0000_0000_0000_0000u128) by (nonlinear_arith)
            requires
                cur == rem * 0x1_0000_0000_0000_0000 + w,
                rem < divisor,
                w < 0x1_0000_0000_0000_0000,
                q == cur / (divisor as u128),
                divisor > 0,
        ;
        buffer.words.set(i, q as Word);
        rem = r as Word;
        proof {
            let b = word_base();
            let vo = limbs_value(orig.subrange(i + 1, len as int), b);
            let vn = limbs_value(tail_new, b);
            assert(buffer.words@.subrange(i + 1, len as int) =~= tail_new);
            assert(orig.subrange(i as int, len as int).drop_first() =~= orig.subrange(
                i + 1,
                len as int,
            ));
            assert(buffer.words@.subrange(i as int, len as int).drop_first() =~= tail_new);
            assert(limbs_value(orig.subrange(i as int, len as int), b) == w + b * vo);
            assert(limbs_value(buffer.words@.subrange(i as int, len as int), b) == q + b * vn);
            vstd::arithmetic::div_mod::lemma_fundamental_div_mod(cur as int, divisor as int);
            assert(cur == q * divisor + r);
            assert(w + b * vo == (q + b * vn) * divisor + r) by (nonlinear_arith)
                requires
                    vo == vn * divisor + r0,
                    cur == r0 * b + w,
                    cur == q * divisor + r,
            ;
        }
    }
    proof {
        assert(orig.subrange(0, len as int) =~= orig);
        assert(buffer.words@.subrange(0, len as int) =~= buffer.words@);
    }
    rem
}

/// An unsigned arbitrary-precision integer.
#[derive(Debug)]
pub struct UBig {
    words: Vec<Word>,
}

impl UBig {
    /// The words of the number, least significant first.
    pub closed spec fn word_seq(&self) -> Seq<Word> {
        self.words@
    }

    /// The number.
    pub open spec fn value(&self) -> nat {
        words_value(self.word_seq())
    }

    /// The words are canonical.
    pub open spec fn wf(&self) -> bool {
        canonical_words(self.word_seq())
    }

    /// The words of the number, least significant first.
    pub fn words(&self) -> (r: &Vec<Word>)
        ensures
            r@ == self.word_seq(),
    {
        &self.words
    }

    /// A number of one word.
    pub fn from_word(word: Word) -> (r: UBig)
        ensures
            r.wf(),
            r.value() == word,
            r.word_seq() == seq![word],
    {
        let mut words: Vec<Word> = Vec::new();
        words.push(word);
        proof {
            assert(words@.drop_first() =~= Seq::<Word>::empty());
            assert(limbs_value(Seq::<Word>::empty(), word_base()) == 0);
        }
        UBig { words }
    }

    /// The number held in a buffer.
    pub fn from_buffer(buffer: Buffer) -> (r: UBig)
        ensures
            r.wf(),
            r.value() == words_value(buffer.view_words()),
    {
        let mut buffer = buffer;
        buffer.pop_leading_zeros();
        let mut words = buffer.words;
        if words.len() == 0 {
            words.push(0);
            proof {
                assert(words@.drop_first() =~= Seq::<Word>::empty());
                assert(limbs_value(Seq::<Word>::empty(), word_base()) == 0);
            }
        }
        UBig { words }
    }

    /// Do two numbers have the same words?
    pub fn eq_words(&self, other: &UBig) -> (r: bool)
        ensures
            r == (self.word_seq() == other.word_seq()),
    {
        if self.words.len() != other.words.len() {
            return false;
        }
        let mut i: usize = 0;
        while i < self.words.len()
            invariant
                self.words@.len() == other.words@.len(),
                i <= self.words@.len(),
                forall|j: int| 0 <= j < i ==> self.words@[j] == other.words@[j],
            decreases self.words@.len() - i,
        {
            if self.words[i] != other.words[i] {
                return false;
            }
            i += 1;
        }
        proof {
            assert(self.words@ =~= other.words@);
        }
        true
    }
}

impl PartialEq for UBig {
    fn eq(&self, other: &UBig) -> (r: bool) {
        self.eq_words(other)
    }
}

impl vstd::std_specs::cmp::PartialEqSpecImpl for UBig {
    open spec fn obeys_eq_spec() -> bool {
        true
    }

    open spec fn eq_spec(&self, other: &UBig) -> bool {
        self.word_seq() == other.word_seq()
    }
}

impl Eq for UBig {
}

/// Sign of a signed integer.
#[derive(Clone, Copy, Debug, PartialEq, Eq, Structural)]
pub enum Sign {
    Positive,
    Negative,
}

/// A signed arbitrary-precision integer.
#[derive(Debug)]
pub struct IBig {
    sign: Sign,
    magnitude: UBig,
}

impl IBig {
    /// The sign as stored.
    pub closed spec fn sign_spec(&self) -> Sign {
        self.sign
    }

    /// The magnitude as stored.
    pub closed spec fn magnitude_spec(&self) -> &UBig {
        &self.magnitude
    }

    /// A well-formed signed integer: canonical magnitude, and zero is positive.
    pub open spec fn wf(&self) -> bool {
        &&& self.magnitude_spec().wf()
        &&& self.magnitude_spec().value() == 0 ==> self.sign_spec() == Sign::Positive
    }

    /// The number.
    pub open spec fn value(&self) -> int {
        if self.sign_spec() == Sign::Negative {
            -self.magnitude_spec().value()
        } else {
            self.magnitude_spec().value() as int
        }
    }

    /// A signed integer from a sign and a magnitude; zero is made positive.
    pub fn from_sign_magnitude(sign: Sign, magnitude: UBig) -> (r: IBig)
        requires
            magnitude.wf(),
        ensures
            r.wf(),
            r.magnitude_spec() == magnitude,
            r.sign_spec() == (if magnitude.value() == 0 {
                Sign::Positive
            } else {
                sign
            }),
    {
        let is_zero = magnitude.words.len() == 1 && magnitude.words[0] == 0;
        proof {
            if magnitude.words@.len() == 1 {
                assert(magnitude.words@.drop_first() =~= Seq::<Word>::empty());
                assert(limbs_value(Seq::<Word>::empty(), word_base()) == 0);
            } else {
                lemma_limbs_value_lower(magnitude.words@, word_base());
                lemma_pow_positive(word_base() as int, (magnitude.words@.len() - 1) as nat);
                assert(pow(word_base() as int, (magnitude.words@.len() - 1) as nat)
                    * magnitude.words@.last() > 0) by (nonlinear_arith)
                    requires
                        pow(word_base() as int, (magnitude.words@.len() - 1) as nat) > 0,
                        magnitude.words@.last() > 0,
                ;
            }
        }
        let sign = if is_zero {
            Sign::Positive
        } else {
            sign
        };
        IBig { sign, magnitude }
    }

    /// The sign.
    pub fn sign(&self) -> (r: Sign)
        ensures
            r == self.sign_spec(),
    {
        self.sign
    }

    /// The magnitude.
    pub fn magnitude(&self) -> (r: &UBig)
        ensures
            r == self.magnitude_spec(),
    {
        &self.magnitude
    }
}

} // verus!
