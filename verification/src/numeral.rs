//! Decimal numerals: how a number is written, and which number that is.
//!
//! A numeral is an optional sign, digits, and optionally a point followed by
//! more digits. Its number is kept as a [`Decimal`] in normal form: no zero
//! in front of the whole part, none at the end of the fraction, and no sign
//! on zero. The normal form of a number is the same number as the one that
//! was written, and no number has two normal forms.

use crate::binary64::{decimal_bits, is_plain, MAX_PLAIN};
use vstd::prelude::*;

verus! {

/// The longest numeral, in bytes, that is read as a number.
pub const MAX_NUMERAL: usize = MAX_PLAIN;

/// The byte `+`.
pub const PLUS: u8 = 0x2b;

/// The byte `-`.
pub const MINUS: u8 = 0x2d;

/// The byte `.`.
pub const POINT: u8 = 0x2e;

/// The byte `0`.
pub const DIGIT_ZERO: u8 = 0x30;

/// The byte `9`.
pub const DIGIT_NINE: u8 = 0x39;

/// Whether `b` is an ASCII decimal digit.
pub open spec fn is_digit(b: u8) -> bool {
    DIGIT_ZERO <= b && b <= DIGIT_NINE
}

/// Whether every byte of `s` is a decimal digit.
pub open spec fn all_digits(s: Seq<u8>) -> bool {
    forall|i: int| 0 <= i < s.len() ==> is_digit(#[trigger] s[i])
}

/// What is left of `s` after its first `n` bytes.
pub open spec fn skip(s: Seq<u8>, n: int) -> Seq<u8> {
    s.subrange(n, s.len() as int)
}

/// The number of decimal digits that `s` begins with.
pub open spec fn leading_digits(s: Seq<u8>) -> nat
    decreases s.len(),
{
    if s.len() > 0 && is_digit(s[0]) {
        1 + leading_digits(s.drop_first())
    } else {
        0
    }
}

/// `d` without the zeros it begins with.
pub open spec fn strip_leading_zeros(d: Seq<u8>) -> Seq<u8>
    decreases d.len(),
{
    if d.len() > 0 && d[0] == DIGIT_ZERO {
        strip_leading_zeros(d.drop_first())
    } else {
        d
    }
}

/// `d` without the zeros it ends with.
pub open spec fn strip_trailing_zeros(d: Seq<u8>) -> Seq<u8>
    decreases d.len(),
{
    if d.len() > 0 && d.last() == DIGIT_ZERO {
        strip_trailing_zeros(d.drop_last())
    } else {
        d
    }
}

/// A decimal number: the model of a [`Length`].
///
/// `whole` holds the ASCII digits before the point, most significant first,
/// and `fraction` those after it.
pub struct Decimal {
    pub negative: bool,
    pub whole: Seq<u8>,
    pub fraction: Seq<u8>,
}

impl Decimal {
    /// The digits are digits, the number is in normal form, and its text is
    /// no longer than [`MAX_NUMERAL`].
    pub open spec fn wf(self) -> bool {
        &&& all_digits(self.whole)
        &&& all_digits(self.fraction)
        &&& self.whole.len() > 0 ==> self.whole[0] != DIGIT_ZERO
        &&& self.fraction.len() > 0 ==> self.fraction.last() != DIGIT_ZERO
        &&& self.negative ==> self.whole.len() + self.fraction.len() > 0
        &&& self.text().len() <= MAX_NUMERAL
    }

    /// The number as text: `-` if it is negative, the whole part (`0` if it
    /// has no digit), and the point and the fraction if there is one.
    pub open spec fn text(self) -> Seq<u8> {
        let whole = if self.whole.len() == 0 {
            seq![DIGIT_ZERO]
        } else {
            self.whole
        };
        written(self.negative, whole, self.fraction)
    }

    /// The binary64 number nearest to this decimal, as a bit pattern; positive
    /// zero if the conversion does not take the text.
    pub open spec fn bits(self) -> u64 {
        match decimal_bits(self.text()) {
            Some(bits) => bits,
            None => 0,
        }
    }

    /// The number one.
    pub open spec fn one() -> Decimal {
        Decimal { negative: false, whole: seq![0x31u8], fraction: Seq::<u8>::empty() }
    }
}

/// The number that the digits `d` write, the most significant first.
pub open spec fn digits_value(d: Seq<u8>) -> nat
    decreases d.len(),
{
    if d.len() == 0 {
        0
    } else {
        digits_value(d.drop_last()) * 10 + (d.last() - DIGIT_ZERO) as nat
    }
}

/// Ten to the power of `n`.
pub open spec fn pow10(n: nat) -> nat
    decreases n,
{
    if n == 0 {
        1
    } else {
        10 * pow10((n - 1) as nat)
    }
}

impl Decimal {
    /// The number times ten to the power of the length of its fraction: the
    /// integer that its digits write, with its sign.
    pub open spec fn scaled(self) -> int {
        let magnitude = digits_value(self.whole) * pow10(self.fraction.len()) + digits_value(
            self.fraction,
        );
        if self.negative {
            -magnitude
        } else {
            magnitude as int
        }
    }

    /// Whether `self` and `other` are the same number, however each is written.
    pub open spec fn same_number(self, other: Decimal) -> bool {
        self.scaled() * pow10(other.fraction.len()) == other.scaled() * pow10(
            self.fraction.len(),
        )
    }
}

/// The text made of `-` if `negative`, the digits `whole`, and a point and
/// the digits `fraction` if there are any.
pub open spec fn written(negative: bool, whole: Seq<u8>, fraction: Seq<u8>) -> Seq<u8> {
    let sign = if negative {
        seq![MINUS]
    } else {
        Seq::<u8>::empty()
    };
    let behind = if fraction.len() == 0 {
        Seq::<u8>::empty()
    } else {
        seq![POINT] + fraction
    };
    sign + whole + behind
}

/// The number written with the given sign, digits before the point and
/// digits after it, in normal form.
pub open spec fn numeral(negative: bool, whole: Seq<u8>, fraction: Seq<u8>) -> Decimal {
    let w = strip_leading_zeros(whole);
    let f = strip_trailing_zeros(fraction);
    Decimal { negative: negative && w.len() + f.len() > 0, whole: w, fraction: f }
}

/// The numeral that `s` begins with, and its length in bytes.
///
/// A numeral is an optional `+` or `-`, one digit or more, and optionally a
/// point with one digit or more after it. The longest such prefix is taken.
/// There is none if no digit follows the optional sign, if a point comes
/// straight after the digits with no digit behind it, or if the numeral is
/// longer than [`MAX_NUMERAL`].
pub open spec fn number_prefix(s: Seq<u8>) -> Option<(Decimal, nat)> {
    let signed = s.len() > 0 && (s[0] == PLUS || s[0] == MINUS);
    let negative = s.len() > 0 && s[0] == MINUS;
    let a: int = if signed {
        1
    } else {
        0
    };
    let b: int = a + leading_digits(skip(s, a));
    let pointed = b < s.len() && s[b] == POINT;
    let c: int = if pointed {
        b + 1 + leading_digits(skip(s, b + 1))
    } else {
        b
    };
    if b == a || (pointed && c == b + 1) || c > MAX_NUMERAL {
        None
    } else {
        let fraction = if pointed {
            s.subrange(b + 1, c)
        } else {
            Seq::<u8>::empty()
        };
        Some((numeral(negative, s.subrange(a, b), fraction), c as nat))
    }
}

/// Whether the whole of `s` is one numeral.
pub open spec fn is_numeral(s: Seq<u8>) -> bool {
    number_prefix(s) matches Some((_, n)) && n == s.len()
}

/// The number that the numeral at the beginning of `s` spells.
pub open spec fn numeral_value(s: Seq<u8>) -> Decimal
    recommends
        number_prefix(s) is Some,
{
    number_prefix(s)->Some_0.0
}

/// A text begins with no more digits than it has bytes, and the bytes that
/// are counted are digits.
pub proof fn lemma_leading_digits(s: Seq<u8>)
    ensures
        leading_digits(s) <= s.len(),
        all_digits(s.subrange(0, leading_digits(s) as int)),
        leading_digits(s) < s.len() ==> !is_digit(s[leading_digits(s) as int]),
    decreases s.len(),
{
    if s.len() > 0 && is_digit(s[0]) {
        let rest = s.drop_first();
        lemma_leading_digits(rest);
        let n = leading_digits(s) as int;
        assert forall|i: int| 0 <= i < n implies is_digit(#[trigger] s.subrange(0, n)[i]) by {
            if i > 0 {
                assert(s.subrange(0, n)[i] == rest.subrange(0, n - 1)[i - 1]);
            }
        }
    }
}

/// A run of digits with no digit behind it is counted whole.
pub proof fn lemma_leading_digits_of_run(run: Seq<u8>, rest: Seq<u8>)
    requires
        all_digits(run),
        rest.len() == 0 || !is_digit(rest[0]),
    ensures
        leading_digits(run + rest) == run.len(),
    decreases run.len(),
{
    let s = run + rest;
    if run.len() == 0 {
        assert(s =~= rest);
    } else {
        assert(s[0] == run[0]);
        assert(s.drop_first() =~= run.drop_first() + rest);
        assert forall|i: int| 0 <= i < run.drop_first().len() implies is_digit(
            #[trigger] run.drop_first()[i],
        ) by {
            assert(run.drop_first()[i] == run[i + 1]);
        }
        lemma_leading_digits_of_run(run.drop_first(), rest);
    }
}

/// What follows a text does not change the count of its leading digits,
/// unless it begins with a digit.
pub proof fn lemma_leading_digits_extend(s: Seq<u8>, more: Seq<u8>)
    requires
        more.len() == 0 || !is_digit(more[0]),
    ensures
        leading_digits(s + more) == leading_digits(s),
    decreases s.len(),
{
    if s.len() == 0 {
        assert(s + more =~= more);
    } else {
        assert((s + more)[0] == s[0]);
        if is_digit(s[0]) {
            assert((s + more).drop_first() =~= s.drop_first() + more);
            lemma_leading_digits_extend(s.drop_first(), more);
        }
    }
}

/// Digits without the zeros in front are digits still, no more of them, and
/// the first is no zero.
pub proof fn lemma_strip_leading_zeros(d: Seq<u8>)
    requires
        all_digits(d),
    ensures
        all_digits(strip_leading_zeros(d)),
        strip_leading_zeros(d).len() <= d.len(),
        strip_leading_zeros(d).len() > 0 ==> strip_leading_zeros(d)[0] != DIGIT_ZERO,
    decreases d.len(),
{
    if d.len() > 0 && d[0] == DIGIT_ZERO {
        assert forall|i: int| 0 <= i < d.drop_first().len() implies is_digit(
            #[trigger] d.drop_first()[i],
        ) by {
            assert(d.drop_first()[i] == d[i + 1]);
        }
        lemma_strip_leading_zeros(d.drop_first());
    }
}

/// Digits without the zeros at the end are digits still, no more of them,
/// and the last is no zero.
pub proof fn lemma_strip_trailing_zeros(d: Seq<u8>)
    requires
        all_digits(d),
    ensures
        all_digits(strip_trailing_zeros(d)),
        strip_trailing_zeros(d).len() <= d.len(),
        strip_trailing_zeros(d).len() > 0 ==> strip_trailing_zeros(d).last() != DIGIT_ZERO,
    decreases d.len(),
{
    if d.len() > 0 && d.last() == DIGIT_ZERO {
        assert forall|i: int| 0 <= i < d.drop_last().len() implies is_digit(
            #[trigger] d.drop_last()[i],
        ) by {
            assert(d.drop_last()[i] == d[i]);
        }
        lemma_strip_trailing_zeros(d.drop_last());
    }
}

/// A numeral has at least one byte, and lies within the text.
pub proof fn lemma_number_prefix_len(s: Seq<u8>)
    ensures
        number_prefix(s) matches Some((d, n)) ==> 0 < n <= s.len(),
{
    let a: int = if s.len() > 0 && (s[0] == PLUS || s[0] == MINUS) {
        1
    } else {
        0
    };
    lemma_leading_digits(skip(s, a));
    let b = a + leading_digits(skip(s, a));
    if b < s.len() {
        lemma_leading_digits(skip(s, b + 1));
    }
}

/// A numeral begins with a sign or a digit.
pub proof fn lemma_number_prefix_begins(s: Seq<u8>)
    requires
        number_prefix(s) is Some,
    ensures
        s.len() > 0,
        s[0] == PLUS || s[0] == MINUS || is_digit(s[0]),
{
}

/// The number that a numeral spells is well formed.
pub proof fn lemma_number_prefix_wf(s: Seq<u8>)
    ensures
        number_prefix(s) matches Some((d, n)) ==> d.wf(),
{
    if let Some((d, n)) = number_prefix(s) {
        let a: int = if s.len() > 0 && (s[0] == PLUS || s[0] == MINUS) {
            1
        } else {
            0
        };
        let b = a + leading_digits(skip(s, a));
        let pointed = b < s.len() && s[b] == POINT;
        lemma_leading_digits(skip(s, a));
        assert(s.subrange(a, b) =~= skip(s, a).subrange(0, b - a));
        lemma_strip_leading_zeros(s.subrange(a, b));
        if pointed {
            let c = b + 1 + leading_digits(skip(s, b + 1));
            lemma_leading_digits(skip(s, b + 1));
            assert(s.subrange(b + 1, c) =~= skip(s, b + 1).subrange(0, c - b - 1));
            lemma_strip_trailing_zeros(s.subrange(b + 1, c));
        } else {
            assert(strip_trailing_zeros(Seq::<u8>::empty()) =~= Seq::<u8>::empty());
        }
    }
}

/// What follows a numeral does not change it, unless it begins with a digit
/// or a point.
pub proof fn lemma_number_prefix_extend(s: Seq<u8>, more: Seq<u8>)
    requires
        number_prefix(s) is Some,
        more.len() == 0 || (!is_digit(more[0]) && more[0] != POINT),
    ensures
        number_prefix(s + more) == number_prefix(s),
{
    let t = s + more;
    let a: int = if s.len() > 0 && (s[0] == PLUS || s[0] == MINUS) {
        1
    } else {
        0
    };
    lemma_leading_digits(skip(s, a));
    assert(s.len() > 0);
    assert(t[0] == s[0]);
    assert(skip(t, a) =~= skip(s, a) + more);
    lemma_leading_digits_extend(skip(s, a), more);
    let b = a + leading_digits(skip(s, a));
    if b < s.len() {
        assert(t[b] == s[b]);
        if s[b] == POINT {
            lemma_leading_digits(skip(s, b + 1));
            assert(skip(t, b + 1) =~= skip(s, b + 1) + more);
            lemma_leading_digits_extend(skip(s, b + 1), more);
            let c = b + 1 + leading_digits(skip(s, b + 1));
            assert(t.subrange(b + 1, c) =~= s.subrange(b + 1, c));
        }
    } else if b < t.len() {
        assert(t[b] == more[0]);
    }
    assert(t.subrange(a, b) =~= s.subrange(a, b));
}

/// A sign, digits, and a point and more digits if there are any, are read
/// as the numeral that they are, whatever follows them, as long as that is
/// no digit and no point.
proof fn lemma_number_prefix_of_parts(
    negative: bool,
    whole: Seq<u8>,
    fraction: Seq<u8>,
    rest: Seq<u8>,
)
    requires
        whole.len() > 0,
        all_digits(whole),
        all_digits(fraction),
        rest.len() == 0 || (!is_digit(rest[0]) && rest[0] != POINT),
        written(negative, whole, fraction).len() <= MAX_NUMERAL,
    ensures
        number_prefix(written(negative, whole, fraction) + rest) == Some(
            (numeral(negative, whole, fraction), written(negative, whole, fraction).len()),
        ),
{
    let text = written(negative, whole, fraction);
    let s = text + rest;
    let a: int = if negative {
        1
    } else {
        0
    };
    let b = a + whole.len();
    let tail = if fraction.len() == 0 {
        rest
    } else {
        seq![POINT] + fraction + rest
    };
    assert(is_digit(whole[0]));
    assert(s[0] == if negative {
        MINUS
    } else {
        whole[0]
    });
    assert(skip(s, a) =~= whole + tail);
    assert(tail.len() == 0 || !is_digit(tail[0]));
    lemma_leading_digits_of_run(whole, tail);
    assert(leading_digits(skip(s, a)) == whole.len());
    assert(s.subrange(a, b) =~= whole);
    if fraction.len() > 0 {
        assert(s[b] == POINT);
        assert(skip(s, b + 1) =~= fraction + rest);
        lemma_leading_digits_of_run(fraction, rest);
        assert(s.subrange(b + 1, b + 1 + fraction.len()) =~= fraction);
    } else {
        if b < s.len() {
            assert(s[b] == rest[0]);
        }
        assert(strip_trailing_zeros(Seq::<u8>::empty()) =~= fraction);
    }
}

/// A well-formed number is what its own text spells, whatever follows the
/// text, as long as that is no digit and no point.
pub proof fn lemma_number_prefix_of_text(d: Decimal, rest: Seq<u8>)
    requires
        d.wf(),
        rest.len() == 0 || (!is_digit(rest[0]) && rest[0] != POINT),
    ensures
        number_prefix(d.text() + rest) == Some((d, d.text().len())),
{
    let whole = if d.whole.len() == 0 {
        seq![DIGIT_ZERO]
    } else {
        d.whole
    };
    assert(d.text() =~= written(d.negative, whole, d.fraction));
    assert(strip_leading_zeros(whole) =~= d.whole) by {
        if d.whole.len() == 0 {
            assert(whole.drop_first() =~= Seq::<u8>::empty());
            assert(strip_leading_zeros(whole) == strip_leading_zeros(whole.drop_first()));
        }
    }
    assert(strip_trailing_zeros(d.fraction) == d.fraction);
    let found = numeral(d.negative, whole, d.fraction);
    assert(found.whole == d.whole && found.fraction == d.fraction && found.negative
        == d.negative);
    lemma_number_prefix_of_parts(d.negative, whole, d.fraction, rest);
}

/// The text of a well-formed number is plain.
pub proof fn lemma_text_is_plain(d: Decimal)
    requires
        d.wf(),
    ensures
        is_plain(d.text()),
{
    let text = d.text();
    let a: int = if d.negative {
        1
    } else {
        0
    };
    let b = if d.whole.len() == 0 {
        a + 1
    } else {
        a + d.whole.len()
    };
    assert forall|i: int| 0 <= i < text.len() implies (0x30 <= #[trigger] text[i] <= 0x39)
        || text[i] == 0x2d || text[i] == 0x2e by {
        if i < a {
        } else if i < b {
            if d.whole.len() > 0 {
                assert(text[i] == d.whole[i - a]);
            }
        } else if i > b {
            assert(text[i] == d.fraction[i - b - 1]);
        }
    }
}

/// Powers of ten multiply as their exponents add.
pub proof fn lemma_pow10_add(a: nat, b: nat)
    ensures
        pow10(a + b) == pow10(a) * pow10(b),
    decreases a,
{
    if a > 0 {
        lemma_pow10_add((a - 1) as nat, b);
        let x = pow10((a - 1) as nat);
        let y = pow10(b);
        assert(pow10(a) == 10 * x);
        assert(pow10(a + b) == 10 * pow10((a - 1 + b) as nat));
        assert(pow10((a - 1 + b) as nat) == x * y);
        assert(10 * (x * y) == (10 * x) * y) by (nonlinear_arith);
    } else {
        assert(pow10(a) == 1);
        assert(1 * pow10(b) == pow10(b));
    }
}

/// Powers of ten are positive and grow with the exponent.
pub proof fn lemma_pow10_grows(a: nat, b: nat)
    requires
        a <= b,
    ensures
        0 < pow10(a) <= pow10(b),
    decreases b,
{
    if a < b {
        lemma_pow10_grows(a, (b - 1) as nat);
    } else if a > 0 {
        lemma_pow10_grows((a - 1) as nat, (a - 1) as nat);
    }
}

/// A zero in front of digits does not change what they write.
pub proof fn lemma_digits_value_leading_zero(d: Seq<u8>)
    requires
        d.len() > 0,
        d[0] == DIGIT_ZERO,
    ensures
        digits_value(d) == digits_value(d.drop_first()),
    decreases d.len(),
{
    if d.len() > 1 {
        lemma_digits_value_leading_zero(d.drop_last());
        assert(d.drop_last().drop_first() =~= d.drop_first().drop_last());
    } else {
        assert(d.drop_last() =~= Seq::<u8>::empty());
        assert(d.drop_first() =~= Seq::<u8>::empty());
    }
}

/// Digits without the zeros in front write the same number.
pub proof fn lemma_digits_value_strip_leading(d: Seq<u8>)
    ensures
        digits_value(strip_leading_zeros(d)) == digits_value(d),
    decreases d.len(),
{
    if d.len() > 0 && d[0] == DIGIT_ZERO {
        lemma_digits_value_leading_zero(d);
        lemma_digits_value_strip_leading(d.drop_first());
    }
}

/// Each zero at the end of digits multiplies what they write by ten.
pub proof fn lemma_digits_value_strip_trailing(d: Seq<u8>)
    ensures
        strip_trailing_zeros(d).len() <= d.len(),
        digits_value(d) == digits_value(strip_trailing_zeros(d)) * pow10(
            (d.len() - strip_trailing_zeros(d).len()) as nat,
        ),
    decreases d.len(),
{
    if d.len() > 0 && d.last() == DIGIT_ZERO {
        let rest = d.drop_last();
        lemma_digits_value_strip_trailing(rest);
        let kept = strip_trailing_zeros(rest);
        let k = (rest.len() - kept.len()) as nat;
        assert(digits_value(d) == digits_value(rest) * 10);
        assert(pow10(k + 1) == 10 * pow10(k));
        assert(digits_value(kept) * pow10(k) * 10 == digits_value(kept) * (10 * pow10(k)))
            by (nonlinear_arith);
    } else {
        assert(digits_value(d) * 1 == digits_value(d));
    }
}

/// Digits that are all taken away as zeros write zero.
pub proof fn lemma_digits_value_of_zeros(d: Seq<u8>)
    requires
        strip_leading_zeros(d).len() == 0 || strip_trailing_zeros(d).len() == 0,
    ensures
        digits_value(d) == 0,
{
    if strip_leading_zeros(d).len() == 0 {
        lemma_digits_value_strip_leading(d);
    } else {
        lemma_digits_value_strip_trailing(d);
        assert(0 * pow10((d.len() - strip_trailing_zeros(d).len()) as nat) == 0);
    }
}

/// The normal form of a number is the same number as the one written.
pub proof fn lemma_numeral_keeps_number(negative: bool, whole: Seq<u8>, fraction: Seq<u8>)
    ensures
        numeral(negative, whole, fraction).same_number(Decimal { negative, whole, fraction }),
{
    let written = Decimal { negative, whole, fraction };
    let normal = numeral(negative, whole, fraction);
    lemma_digits_value_strip_leading(whole);
    lemma_digits_value_strip_trailing(fraction);
    let k = (fraction.len() - normal.fraction.len()) as nat;
    lemma_pow10_add(normal.fraction.len(), k);
    let w = digits_value(whole) as int;
    let g = digits_value(normal.fraction) as int;
    let pg = pow10(normal.fraction.len()) as int;
    let pk = pow10(k) as int;
    let pf = pow10(fraction.len()) as int;
    assert(pf == pg * pk);
    assert(digits_value(fraction) == g * pk);
    let written_magnitude = w * pf + g * pk;
    let normal_magnitude = w * pg + g;
    assert(normal_magnitude * pf == written_magnitude * pg) by (nonlinear_arith)
        requires
            pf == pg * pk,
            written_magnitude == w * pf + g * pk,
            normal_magnitude == w * pg + g,
    ;
    if negative {
        if normal.negative {
            assert((-normal_magnitude) * pf == (-written_magnitude) * pg) by (nonlinear_arith)
                requires
                    normal_magnitude * pf == written_magnitude * pg,
            ;
        } else {
            lemma_digits_value_of_zeros(whole);
            assert(g == 0);
            assert(written_magnitude == 0) by (nonlinear_arith)
                requires
                    written_magnitude == w * pf + g * pk,
                    w == 0,
                    g == 0,
            ;
        }
    }
}

/// Digits write a number below ten to the power of their count; if the first
/// of them is no zero, the number is at least ten to the power of one less.
pub proof fn lemma_digits_value_bounds(d: Seq<u8>)
    requires
        all_digits(d),
    ensures
        digits_value(d) < pow10(d.len()),
        d.len() > 0 && d[0] != DIGIT_ZERO ==> digits_value(d) >= pow10((d.len() - 1) as nat),
        d.len() > 0 ==> digits_value(d) % 10 == (d.last() - DIGIT_ZERO) as nat,
        d.len() > 0 ==> digits_value(d) / 10 == digits_value(d.drop_last()),
    decreases d.len(),
{
    if d.len() > 0 {
        let front = d.drop_last();
        assert(is_digit(d.last()));
        assert forall|i: int| 0 <= i < front.len() implies is_digit(#[trigger] front[i]) by {
            assert(front[i] == d[i]);
        }
        lemma_digits_value_bounds(front);
        if front.len() > 0 {
            assert(front[0] == d[0]);
        } else {
            assert(pow10(0) == 1);
        }
        assert(pow10(d.len()) == 10 * pow10(front.len()));
    }
}

/// Digits of one count that write one number are the same digits.
pub proof fn lemma_digits_value_injective(a: Seq<u8>, b: Seq<u8>)
    requires
        all_digits(a),
        all_digits(b),
        a.len() == b.len(),
        digits_value(a) == digits_value(b),
    ensures
        a == b,
    decreases a.len(),
{
    if a.len() > 0 {
        lemma_digits_value_bounds(a);
        lemma_digits_value_bounds(b);
        assert(is_digit(a.last()) && is_digit(b.last()));
        assert forall|i: int| 0 <= i < a.drop_last().len() implies is_digit(
            #[trigger] a.drop_last()[i],
        ) by {
            assert(a.drop_last()[i] == a[i]);
        }
        assert forall|i: int| 0 <= i < b.drop_last().len() implies is_digit(
            #[trigger] b.drop_last()[i],
        ) by {
            assert(b.drop_last()[i] == b[i]);
        }
        lemma_digits_value_injective(a.drop_last(), b.drop_last());
        assert(a =~= a.drop_last().push(a.last()));
        assert(b =~= b.drop_last().push(b.last()));
    } else {
        assert(a =~= b);
    }
}

/// Digits without a zero in front that write one number are the same digits.
pub proof fn lemma_whole_injective(a: Seq<u8>, b: Seq<u8>)
    requires
        all_digits(a),
        all_digits(b),
        a.len() > 0 ==> a[0] != DIGIT_ZERO,
        b.len() > 0 ==> b[0] != DIGIT_ZERO,
        digits_value(a) == digits_value(b),
    ensures
        a == b,
{
    lemma_digits_value_bounds(a);
    lemma_digits_value_bounds(b);
    if a.len() < b.len() {
        lemma_pow10_grows(a.len(), (b.len() - 1) as nat);
    } else if b.len() < a.len() {
        lemma_pow10_grows(b.len(), (a.len() - 1) as nat);
    } else {
        lemma_digits_value_injective(a, b);
    }
}

/// The last digit of a well-formed number with a fraction is no zero, so
/// the integer that its digits write is no multiple of ten.
proof fn lemma_scaled_last_digit(d: Decimal)
    requires
        d.wf(),
        d.fraction.len() > 0,
    ensures
        d.scaled() % 10 != 0,
{
    let f = d.fraction.len();
    lemma_digits_value_bounds(d.fraction);
    let w = digits_value(d.whole) as int;
    let p = pow10((f - 1) as nat) as int;
    assert(pow10(f) == 10 * p);
    let v = digits_value(d.fraction) as int;
    assert(w * (10 * p) + v == 10 * (w * p) + v) by (nonlinear_arith);
    assert(v % 10 != 0);
    let m = w * p;
    assert((10 * m + v) % 10 != 0);
    assert((-(10 * m + v)) % 10 != 0);
}

/// A well-formed number is below zero exactly when it is written negative.
proof fn lemma_scaled_sign(d: Decimal)
    requires
        d.wf(),
    ensures
        d.negative ==> d.scaled() < 0,
        !d.negative ==> d.scaled() >= 0,
{
    lemma_digits_value_bounds(d.whole);
    lemma_digits_value_bounds(d.fraction);
    lemma_pow10_grows(0, d.fraction.len());
    let w = digits_value(d.whole) as int;
    let p = pow10(d.fraction.len()) as int;
    let v = digits_value(d.fraction) as int;
    assert(w * p >= 0) by (nonlinear_arith)
        requires
            w >= 0,
            p > 0,
    ;
    if d.negative {
        if d.whole.len() > 0 {
            lemma_pow10_grows(0, (d.whole.len() - 1) as nat);
            assert(w * p >= 1) by (nonlinear_arith)
                requires
                    w >= 1,
                    p >= 1,
            ;
        } else {
            assert(v % 10 != 0);
        }
    }
}

/// Two well-formed numbers with fractions of different length differ.
proof fn lemma_shorter_fraction_differs(a: Decimal, b: Decimal)
    requires
        a.wf(),
        b.wf(),
        a.fraction.len() < b.fraction.len(),
    ensures
        !a.same_number(b),
{
    let fa = a.fraction.len();
    let fb = b.fraction.len();
    let k = (fb - fa) as nat;
    lemma_pow10_add(fa, k);
    lemma_pow10_grows(0, fa);
    lemma_scaled_last_digit(b);
    let x = a.scaled();
    let y = b.scaled();
    let pa = pow10(fa) as int;
    let pk = pow10(k) as int;
    let pk1 = pow10((k - 1) as nat) as int;
    assert(pk == 10 * pk1);
    if a.same_number(b) {
        assert(x * (pa * pk) == y * pa);
        assert(x * pk == y) by (nonlinear_arith)
            requires
                x * (pa * pk) == y * pa,
                pa > 0,
        ;
        assert(x * (10 * pk1) == 10 * (x * pk1)) by (nonlinear_arith);
        let m = x * pk1;
        assert(y == 10 * m);
        assert(false);
    }
}

/// Two well-formed numbers that are the same number are written the same:
/// the normal form of a number is the only one.
pub proof fn lemma_same_number_same_form(a: Decimal, b: Decimal)
    requires
        a.wf(),
        b.wf(),
        a.same_number(b),
    ensures
        a == b,
{
    if a.fraction.len() < b.fraction.len() {
        lemma_shorter_fraction_differs(a, b);
    } else if b.fraction.len() < a.fraction.len() {
        lemma_shorter_fraction_differs(b, a);
    } else {
        let f = a.fraction.len();
        lemma_pow10_grows(0, f);
        let p = pow10(f) as int;
        let x = a.scaled();
        let y = b.scaled();
        assert(x == y) by (nonlinear_arith)
            requires
                x * p == y * p,
                p > 0,
        ;
        lemma_scaled_sign(a);
        lemma_scaled_sign(b);
        assert(a.negative == b.negative);
        lemma_digits_value_bounds(a.fraction);
        lemma_digits_value_bounds(b.fraction);
        let wa = digits_value(a.whole) as int;
        let wb = digits_value(b.whole) as int;
        let va = digits_value(a.fraction) as int;
        let vb = digits_value(b.fraction) as int;
        assert(wa * p + va == wb * p + vb);
        assert(wa == wb && va == vb) by (nonlinear_arith)
            requires
                wa * p + va == wb * p + vb,
                0 <= va < p,
                0 <= vb < p,
        ;
        lemma_digits_value_injective(a.fraction, b.fraction);
        lemma_whole_injective(a.whole, b.whole);
    }
}

} // verus!
