//! The numbers of a size: decimal numbers, exact, in normal form.

use crate::binary64::parse_decimal;
use crate::error::ParseError;
use crate::numeral::{
    all_digits, is_digit, is_numeral, leading_digits, lemma_text_is_plain, number_prefix, numeral,
    numeral_value, skip, strip_leading_zeros, strip_trailing_zeros, Decimal, DIGIT_NINE,
    DIGIT_ZERO, MAX_NUMERAL, MINUS, PLUS, POINT,
};
use vstd::prelude::*;
use vstd::slice::{slice_subrange, slice_to_vec};
use vstd::std_specs::cmp::PartialEqSpecImpl;
use vstd::string::StringSliceAdditionalSpecFns;

verus! {

/// A decimal number in normal form. Every `Length` is well formed
/// ([`Decimal::wf`]), and two of them are equal exactly when they are the
/// same number.
#[derive(Debug)]
pub struct Length {
    negative: bool,
    whole: Vec<u8>,
    fraction: Vec<u8>,
}

impl View for Length {
    type V = Decimal;

    closed spec fn view(&self) -> Decimal {
        Decimal { negative: self.negative, whole: self.whole@, fraction: self.fraction@ }
    }
}

impl Clone for Length {
    fn clone(&self) -> (r: Length)
        ensures
            r@ == self@,
    {
        proof {
            use_type_invariant(self);
        }
        Length {
            negative: self.negative,
            whole: slice_to_vec(self.whole.as_slice()),
            fraction: slice_to_vec(self.fraction.as_slice()),
        }
    }
}

impl PartialEq for Length {
    fn eq(&self, other: &Length) -> (r: bool) {
        self.negative == other.negative && same_bytes(self.whole.as_slice(), other.whole.as_slice())
            && same_bytes(self.fraction.as_slice(), other.fraction.as_slice())
    }
}

impl PartialEqSpecImpl for Length {
    open spec fn obeys_eq_spec() -> bool {
        true
    }

    /// Two lengths are equal when they are the same number.
    open spec fn eq_spec(&self, other: &Length) -> bool {
        self@ == other@
    }
}

impl Length {
    #[verifier::type_invariant]
    spec fn inv(&self) -> bool {
        self@.wf()
    }

    /// The number one.
    pub fn one() -> (r: Length)
        ensures
            r@ == Decimal::one(),
    {
        let mut whole: Vec<u8> = Vec::new();
        whole.push(0x31u8);
        let r = Length { negative: false, whole, fraction: Vec::new() };
        proof {
            assert(r@.whole =~= seq![0x31u8]);
            assert(r@.fraction =~= Seq::<u8>::empty());
        }
        r
    }

    /// Reads the numeral that begins at `start`, and says where it ends.
    pub(crate) fn read(s: &[u8], start: usize) -> (r: Option<(Length, usize)>)
        requires
            start <= s@.len(),
        ensures
            match number_prefix(skip(s@, start as int)) {
                Some((d, n)) => r matches Some((l, end)) && l@ == d && end == start + n,
                None => r is None,
            },
    {
        match measure(s, start) {
            None => None,
            Some((a, b, c)) => {
                let minus = s[start] == MINUS;
                let k = zeros_end(s, a, b);
                let whole = slice_to_vec(slice_subrange(s, k, b));
                let fraction = if b < c {
                    let e = zeros_start(s, b + 1, c);
                    slice_to_vec(slice_subrange(s, b + 1, e))
                } else {
                    Vec::new()
                };
                let negative = minus && (whole.len() > 0 || fraction.len() > 0);
                proof {
                    lemma_part_digits(s@, a as int, b as int, k as int, b as int);
                    if b < c {
                        lemma_part_digits(s@, b + 1, c as int, b + 1, b + 1 + fraction@.len());
                    }
                }
                Some((Length { negative, whole, fraction }, c))
            },
        }
    }

    /// Reads a numeral that makes up the whole of `input`.
    pub fn parse(input: &str) -> (r: Result<Length, ParseError>)
        ensures
            is_numeral(input.spec_bytes()) ==> (r matches Ok(l) && l@ == numeral_value(
                input.spec_bytes(),
            )),
            !is_numeral(input.spec_bytes()) ==> r == Err::<Length, ParseError>(
                ParseError::MalformedNumber,
            ),
    {
        let bytes = input.as_bytes();
        proof {
            assert(skip(bytes@, 0) =~= bytes@);
        }
        match Length::read(bytes, 0) {
            Some((l, end)) => {
                if end == bytes.len() {
                    Ok(l)
                } else {
                    Err(ParseError::MalformedNumber)
                }
            },
            None => Err(ParseError::MalformedNumber),
        }
    }

    /// The number as text, in normal form. The number is well formed, as
    /// every `Length` is.
    pub fn to_bytes(&self) -> (r: Vec<u8>)
        ensures
            r@ == self@.text(),
            self@.wf(),
    {
        proof {
            use_type_invariant(self);
        }
        let mut out: Vec<u8> = Vec::new();
        if self.negative {
            out.push(MINUS);
        }
        if self.whole.len() == 0 {
            out.push(DIGIT_ZERO);
        } else {
            push_all(&mut out, self.whole.as_slice());
        }
        if self.fraction.len() > 0 {
            out.push(POINT);
            push_all(&mut out, self.fraction.as_slice());
        }
        proof {
            assert(out@ =~= self@.text());
        }
        out
    }

    /// The binary64 number nearest to this decimal, as a bit pattern.
    pub fn to_binary64(&self) -> (r: u64)
        ensures
            r == self@.bits(),
    {
        let text = self.to_bytes();
        proof {
            lemma_text_is_plain(self@);
        }
        match parse_decimal(text.as_slice()) {
            Some(bits) => bits,
            None => 0,
        }
    }

    /// Whether the number is below zero.
    pub fn is_negative(&self) -> (r: bool)
        ensures
            r == self@.negative,
    {
        self.negative
    }
}

/// The index at which the run of digits that begins at `from` ends.
fn digits_end(s: &[u8], from: usize) -> (end: usize)
    requires
        from <= s@.len(),
    ensures
        from <= end <= s@.len(),
        end - from == leading_digits(skip(s@, from as int)),
        all_digits(s@.subrange(from as int, end as int)),
{
    let mut i = from;
    while i < s.len() && s[i] >= DIGIT_ZERO && s[i] <= DIGIT_NINE
        invariant
            from <= i <= s@.len(),
            leading_digits(skip(s@, from as int)) == (i - from) + leading_digits(
                skip(s@, i as int),
            ),
            forall|k: int| from <= k < i ==> is_digit(#[trigger] s@[k]),
        decreases s@.len() - i,
    {
        proof {
            assert(skip(s@, i as int).drop_first() =~= skip(s@, i + 1));
        }
        i += 1;
    }
    i
}

/// The index of the first digit of `s[a..b]` that is not a zero, or `b`.
fn zeros_end(s: &[u8], a: usize, b: usize) -> (k: usize)
    requires
        a <= b <= s@.len(),
    ensures
        a <= k <= b,
        k < b ==> s@[k as int] != DIGIT_ZERO,
        strip_leading_zeros(s@.subrange(a as int, b as int)) == s@.subrange(k as int, b as int),
{
    let mut k = a;
    while k < b && s[k] == DIGIT_ZERO
        invariant
            a <= k <= b <= s@.len(),
            strip_leading_zeros(s@.subrange(a as int, b as int)) == strip_leading_zeros(
                s@.subrange(k as int, b as int),
            ),
        decreases b - k,
    {
        proof {
            assert(s@.subrange(k as int, b as int).drop_first() =~= s@.subrange(k + 1, b as int));
        }
        k += 1;
    }
    k
}

/// The index behind the last digit of `s[a..b]` that is not a zero, or `a`.
fn zeros_start(s: &[u8], a: usize, b: usize) -> (e: usize)
    requires
        a <= b <= s@.len(),
    ensures
        a <= e <= b,
        a < e ==> s@[e - 1] != DIGIT_ZERO,
        strip_trailing_zeros(s@.subrange(a as int, b as int)) == s@.subrange(a as int, e as int),
{
    let mut e = b;
    while a < e && s[e - 1] == DIGIT_ZERO
        invariant
            a <= e <= b <= s@.len(),
            strip_trailing_zeros(s@.subrange(a as int, b as int)) == strip_trailing_zeros(
                s@.subrange(a as int, e as int),
            ),
        decreases e - a,
    {
        proof {
            assert(s@.subrange(a as int, e as int).drop_last() =~= s@.subrange(a as int, e - 1));
        }
        e -= 1;
    }
    e
}

/// Finds the numeral that begins at `start`: where its digits begin, where
/// the digits before the point end, and where the numeral ends.
fn measure(s: &[u8], start: usize) -> (r: Option<(usize, usize, usize)>)
    requires
        start <= s@.len(),
    ensures
        match r {
            None => number_prefix(skip(s@, start as int)) is None,
            Some((a, b, c)) => {
                &&& start <= a < b <= c <= s@.len()
                &&& c - start <= MAX_NUMERAL
                &&& a == start || (a == start + 1 && (s@[start as int] == PLUS || s@[start as int]
                    == MINUS))
                &&& all_digits(s@.subrange(a as int, b as int))
                &&& b < c ==> b + 1 < c && all_digits(s@.subrange(b + 1, c as int))
                &&& number_prefix(skip(s@, start as int)) == Some(
                    (
                        numeral(
                            s@[start as int] == MINUS,
                            s@.subrange(a as int, b as int),
                            if b < c {
                                s@.subrange(b + 1, c as int)
                            } else {
                                Seq::<u8>::empty()
                            },
                        ),
                        (c - start) as nat,
                    ),
                )
            },
        },
{
    let n = s.len();
    let signed = start < n && (s[start] == PLUS || s[start] == MINUS);
    let a = if signed {
        start + 1
    } else {
        start
    };
    let b = digits_end(s, a);
    let pointed = b < n && s[b] == POINT;
    let c = if pointed {
        digits_end(s, b + 1)
    } else {
        b
    };
    proof {
        lemma_number_prefix_at(s@, start as int, a as int, b as int, c as int);
    }
    if b == a || (pointed && c == b + 1) || c - start > MAX_NUMERAL {
        None
    } else {
        Some((a, b, c))
    }
}

/// What [`number_prefix`] says of a text that is the rest of `s` from `start`
/// on, in terms of positions in `s`: `a` is where the digits begin, `b` where
/// they end, and `c` where the numeral ends.
proof fn lemma_number_prefix_at(s: Seq<u8>, start: int, a: int, b: int, c: int)
    requires
        0 <= start <= a <= b <= c <= s.len(),
        a == if start < s.len() && (s[start] == PLUS || s[start] == MINUS) {
            start + 1
        } else {
            start
        },
        b - a == leading_digits(skip(s, a)),
        c == if b < s.len() && s[b] == POINT {
            b + 1 + leading_digits(skip(s, b + 1))
        } else {
            b
        },
    ensures
        number_prefix(skip(s, start)) == if b == a || (b < s.len() && s[b] == POINT && c == b + 1)
            || c - start > MAX_NUMERAL {
            None
        } else {
            Some(
                (
                    numeral(
                        start < s.len() && s[start] == MINUS,
                        s.subrange(a, b),
                        if b < c {
                            s.subrange(b + 1, c)
                        } else {
                            Seq::<u8>::empty()
                        },
                    ),
                    (c - start) as nat,
                ),
            )
        },
{
    let rest = skip(s, start);
    assert(skip(rest, a - start) =~= skip(s, a));
    assert(rest.subrange(a - start, b - start) =~= s.subrange(a, b));
    if b < s.len() && s[b] == POINT {
        assert(skip(rest, b - start + 1) =~= skip(s, b + 1));
        assert(rest.subrange(b - start + 1, c - start) =~= s.subrange(b + 1, c));
    }
}

/// A part of a run of digits is a run of digits.
proof fn lemma_part_digits(s: Seq<u8>, a: int, b: int, i: int, j: int)
    requires
        0 <= a <= i <= j <= b <= s.len(),
        all_digits(s.subrange(a, b)),
    ensures
        all_digits(s.subrange(i, j)),
{
    assert forall|k: int| 0 <= k < j - i implies is_digit(#[trigger] s.subrange(i, j)[k]) by {
        assert(s.subrange(i, j)[k] == s.subrange(a, b)[k + i - a]);
    }
}

/// Tells whether two slices hold the same bytes.
fn same_bytes(a: &[u8], b: &[u8]) -> (r: bool)
    ensures
        r == (a@ == b@),
{
    if a.len() != b.len() {
        return false;
    }
    let mut i: usize = 0;
    while i < a.len()
        invariant
            a@.len() == b@.len(),
            i <= a@.len(),
            a@.subrange(0, i as int) == b@.subrange(0, i as int),
        decreases a@.len() - i,
    {
        if a[i] != b[i] {
            return false;
        }
        i += 1;
        proof {
            assert(a@.subrange(0, i as int) =~= b@.subrange(0, i as int)) by {
                assert forall|k: int| 0 <= k < i implies a@[k] == b@[k] by {
                    if k < i - 1 {
                        assert(a@.subrange(0, i - 1)[k] == b@.subrange(0, i - 1)[k]);
                    }
                }
            }
        }
    }
    proof {
        assert(a@.subrange(0, i as int) =~= a@);
        assert(b@.subrange(0, i as int) =~= b@);
    }
    true
}

/// Appends the bytes of `src` to `out`.
pub(crate) fn push_all(out: &mut Vec<u8>, src: &[u8])
    ensures
        final(out)@ == old(out)@ + src@,
{
    let mut i: usize = 0;
    while i < src.len()
        invariant
            i <= src@.len(),
            out@ == old(out)@ + src@.subrange(0, i as int),
        decreases src@.len() - i,
    {
        out.push(src[i]);
        i += 1;
        proof {
            assert(out@ =~= old(out)@ + src@.subrange(0, i as int));
        }
    }
    proof {
        assert(src@.subrange(0, i as int) =~= src@);
    }
}

} // verus!
