//! Reading a size from text.
//!
//! The grammar is stated on bytes, by the spec functions [`size_of`],
//! [`tokens_of`] and [`operand_prefix`]; [`Size::parse`] computes what they say.

use crate::error::ParseError;
use crate::length::Length;
use crate::numeral::{
    is_digit, is_numeral, lemma_number_prefix_begins, lemma_number_prefix_extend,
    lemma_number_prefix_len, lemma_number_prefix_wf, number_prefix, numeral_value, skip, Decimal,
    DIGIT_NINE, DIGIT_ZERO, MINUS, PLUS, POINT,
};
use crate::size::{
    lemma_well_formed_shift, models, numbers_wf, well_formed_from, CalcToken, Size, SizeModel,
    TokenModel,
};
use vstd::prelude::*;
use vstd::slice::slice_subrange;
use vstd::string::StringSliceAdditionalSpecFns;

verus! {

/// A tab.
pub const TAB: u8 = 0x09;

/// A line feed.
pub const NEWLINE: u8 = 0x0a;

/// A carriage return.
pub const RETURN: u8 = 0x0d;

/// A space.
pub const SPACE: u8 = 0x20;

/// The byte `%`.
pub const PERCENT: u8 = 0x25;

/// The byte `(`.
pub const OPEN: u8 = 0x28;

/// The byte `)`.
pub const CLOSE: u8 = 0x29;

/// The byte `*`.
pub const STAR: u8 = 0x2a;

/// The byte `/`.
pub const SLASH: u8 = 0x2f;

/// The byte `v`.
pub const LETTER_V: u8 = 0x76;

/// The bytes of `auto`.
pub open spec fn auto_text() -> Seq<u8> {
    seq![0x61u8, 0x75u8, 0x74u8, 0x6fu8]
}

/// The bytes of `calc(`.
pub open spec fn calc_text() -> Seq<u8> {
    seq![0x63u8, 0x61u8, 0x6cu8, 0x63u8, OPEN]
}

/// Whether `b` is a space, a tab, a line feed or a carriage return.
pub open spec fn is_space(b: u8) -> bool {
    b == SPACE || b == TAB || b == NEWLINE || b == RETURN
}

/// Whether `b` is one of `+ - * /`.
pub open spec fn is_operator(b: u8) -> bool {
    b == PLUS || b == MINUS || b == STAR || b == SLASH
}

/// The operator that `b` writes.
pub open spec fn operator(b: u8) -> TokenModel
    recommends
        is_operator(b),
{
    if b == PLUS {
        TokenModel::Add
    } else if b == MINUS {
        TokenModel::Sub
    } else if b == STAR {
        TokenModel::Mul
    } else {
        TokenModel::Div
    }
}

/// Whether an operand may end where `s` begins: at the end of the text, or
/// before a space, an operator or a parenthesis.
pub open spec fn at_boundary(s: Seq<u8>) -> bool {
    s.len() == 0 || is_space(s[0]) || is_operator(s[0]) || s[0] == OPEN || s[0] == CLOSE
}

/// Whether a number begins where `s` begins: with a digit or a point, or
/// with a sign that has a digit or a point behind it. A sign with anything
/// else behind it is an operator.
pub open spec fn begins_number(s: Seq<u8>) -> bool {
    s.len() > 0 && (is_digit(s[0]) || s[0] == POINT || ((s[0] == PLUS || s[0] == MINUS)
        && s.len() > 1 && (is_digit(s[1]) || s[1] == POINT)))
}

/// `token` put in front of the tokens of `rest`, or the error of `rest`.
pub open spec fn prepend(token: TokenModel, rest: Result<Seq<TokenModel>, ParseError>) -> Result<
    Seq<TokenModel>,
    ParseError,
> {
    match rest {
        Ok(tokens) => Ok(seq![token] + tokens),
        Err(e) => Err(e),
    }
}

/// The operand that `s` begins with, and its length in bytes.
///
/// An operand is a numeral with `%`, with `v`, or with nothing behind it, and
/// it ends at a boundary. Without a numeral, or with a point behind it, the
/// number is malformed; any other byte attached to the numeral or to its unit
/// is an unrecognized unit.
pub open spec fn operand_prefix(s: Seq<u8>) -> Result<(TokenModel, nat), ParseError> {
    match number_prefix(s) {
        None => Err(ParseError::MalformedNumber),
        Some((d, n)) => {
            let rest = skip(s, n as int);
            if rest.len() > 0 && (rest[0] == PERCENT || rest[0] == LETTER_V) {
                if at_boundary(skip(s, n as int + 1)) {
                    if rest[0] == PERCENT {
                        Ok((TokenModel::Percentage(d), n + 1))
                    } else {
                        Ok((TokenModel::RootPercentage(d), n + 1))
                    }
                } else {
                    Err(ParseError::UnrecognizedUnit)
                }
            } else if at_boundary(rest) {
                Ok((TokenModel::Pixels(d), n))
            } else if rest[0] == POINT {
                Err(ParseError::MalformedNumber)
            } else {
                Err(ParseError::UnrecognizedUnit)
            }
        },
    }
}

/// The tokens that `s` spells, read from left to right, or the first error.
///
/// `depth` is the number of parentheses that are open where `s` begins, and
/// `after_term` says whether a number or a `)` came last.
///
/// Spaces separate and are otherwise skipped. Where a term is expected, an
/// operand stands where a number begins, and `(` opens a group. After a
/// term, `+ - * /` are operators, `)` closes a group, and `(` opens a group
/// that the term before it is multiplied by: no token is written for that
/// multiplication. A `)` that closes nothing is unbalanced wherever it
/// stands. At the end, a term must have come last, and then no parenthesis may
/// be open.
pub open spec fn tokens_of(s: Seq<u8>, depth: nat, after_term: bool) -> Result<
    Seq<TokenModel>,
    ParseError,
>
    decreases s.len(),
{
    if s.len() == 0 {
        if !after_term {
            Err(ParseError::InvalidExpressionStructure)
        } else if depth > 0 {
            Err(ParseError::UnbalancedParentheses)
        } else {
            Ok(Seq::<TokenModel>::empty())
        }
    } else {
        let c = s[0];
        if is_space(c) {
            tokens_of(s.drop_first(), depth, after_term)
        } else if c == OPEN {
            prepend(TokenModel::OpenParen, tokens_of(s.drop_first(), depth + 1, false))
        } else if c == CLOSE {
            if depth == 0 {
                Err(ParseError::UnbalancedParentheses)
            } else if !after_term {
                Err(ParseError::InvalidExpressionStructure)
            } else {
                prepend(
                    TokenModel::CloseParen,
                    tokens_of(s.drop_first(), (depth - 1) as nat, true),
                )
            }
        } else if after_term {
            if is_operator(c) {
                prepend(operator(c), tokens_of(s.drop_first(), depth, false))
            } else {
                Err(ParseError::InvalidExpressionStructure)
            }
        } else if begins_number(s) {
            match operand_prefix(s) {
                Err(e) => Err(e),
                Ok((token, n)) => {
                    proof {
                        lemma_operand_prefix_len(s);
                    }
                    prepend(token, tokens_of(skip(s, n as int), depth, true))
                },
            }
        } else {
            Err(ParseError::InvalidExpressionStructure)
        }
    }
}

/// The size that `s` spells, or why it spells none.
///
/// `auto` is the size of the content. A text that begins with `calc(` is a
/// calculation: it must end with `)`, or its parentheses are unbalanced, and
/// what stands between the two must be an expression. Any other text is a
/// numeral, alone for pixels or with `%` behind it for a percentage.
pub open spec fn size_of(s: Seq<u8>) -> Result<SizeModel, ParseError> {
    if s == auto_text() {
        Ok(SizeModel::Inner)
    } else if s.len() >= 5 && s.subrange(0, 5) == calc_text() {
        if s.len() > 5 && s.last() == CLOSE {
            match tokens_of(s.subrange(5, s.len() - 1), 0, false) {
                Ok(tokens) => Ok(SizeModel::Calculation(Decimal::one(), tokens)),
                Err(e) => Err(e),
            }
        } else {
            Err(ParseError::UnbalancedParentheses)
        }
    } else {
        match number_prefix(s) {
            None => Err(ParseError::MalformedNumber),
            Some((d, n)) => {
                let rest = skip(s, n as int);
                if rest.len() == 0 {
                    Ok(SizeModel::Pixels(d))
                } else if rest.len() == 1 && rest[0] == PERCENT {
                    Ok(SizeModel::Percentage(d))
                } else if rest[0] == POINT {
                    Err(ParseError::MalformedNumber)
                } else {
                    Err(ParseError::UnrecognizedUnit)
                }
            },
        }
    }
}

/// An operand has at least one byte, and lies within the text.
pub proof fn lemma_operand_prefix_len(s: Seq<u8>)
    ensures
        operand_prefix(s) matches Ok((t, n)) ==> 0 < n <= s.len(),
{
    lemma_number_prefix_len(s);
}

/// A text that begins with a sign or a digit is neither `auto` nor a
/// calculation.
pub proof fn lemma_number_is_no_keyword(s: Seq<u8>)
    requires
        s.len() > 0,
        s[0] == PLUS || s[0] == MINUS || is_digit(s[0]),
    ensures
        s != auto_text(),
        !(s.len() >= 5 && s.subrange(0, 5) == calc_text()),
{
    assert(auto_text()[0] == 0x61);
    assert(calc_text()[0] == 0x63);
    if s.len() >= 5 {
        assert(s.subrange(0, 5)[0] == s[0]);
    }
}

/// A numeral on its own is read as that number of pixels.
pub proof fn lemma_numeral_is_pixels(s: Seq<u8>)
    requires
        is_numeral(s),
    ensures
        size_of(s) == Ok::<SizeModel, ParseError>(SizeModel::Pixels(numeral_value(s))),
{
    lemma_number_prefix_begins(s);
    lemma_number_is_no_keyword(s);
    assert(skip(s, s.len() as int) =~= Seq::<u8>::empty());
}

/// A numeral with `%` behind it is read as that percentage.
pub proof fn lemma_numeral_percent_is_percentage(s: Seq<u8>)
    requires
        is_numeral(s),
    ensures
        size_of(s + seq![PERCENT]) == Ok::<SizeModel, ParseError>(
            SizeModel::Percentage(numeral_value(s)),
        ),
{
    let t = s + seq![PERCENT];
    lemma_number_prefix_begins(s);
    assert(t[0] == s[0]);
    lemma_number_is_no_keyword(t);
    lemma_number_prefix_extend(s, seq![PERCENT]);
    assert(skip(t, s.len() as int) =~= seq![PERCENT]);
}

/// The tokens that a text spells are an expression, and their numbers are
/// well formed.
pub proof fn lemma_tokens_of_canonical(s: Seq<u8>, depth: nat, after_term: bool)
    ensures
        tokens_of(s, depth, after_term) matches Ok(tokens) ==> well_formed_from(
            tokens,
            0,
            depth,
            after_term,
        ) && numbers_wf(tokens),
    decreases s.len(),
{
    if let Ok(tokens) = tokens_of(s, depth, after_term) {
        if s.len() > 0 {
            let c = s[0];
            if is_space(c) {
                lemma_tokens_of_canonical(s.drop_first(), depth, after_term);
            } else {
                let (first, rest, next_depth, next_after) = if c == OPEN {
                    (TokenModel::OpenParen, s.drop_first(), depth + 1, false)
                } else if c == CLOSE {
                    (TokenModel::CloseParen, s.drop_first(), (depth - 1) as nat, true)
                } else if after_term {
                    (operator(c), s.drop_first(), depth, false)
                } else {
                    let (token, n) = operand_prefix(s)->Ok_0;
                    (token, skip(s, n as int), depth, true)
                };
                if !(c == OPEN || c == CLOSE || after_term) {
                    lemma_operand_prefix_len(s);
                    lemma_number_prefix_wf(s);
                }
                lemma_tokens_of_canonical(rest, next_depth, next_after);
                let others = tokens_of(rest, next_depth, next_after)->Ok_0;
                assert(tokens == seq![first] + others);
                assert(tokens.drop_first() =~= others);
                lemma_well_formed_shift(tokens, 0, next_depth, next_after);
                assert forall|i: int|
                    0 <= i < tokens.len() && (#[trigger] tokens[i]).is_operand() implies tokens[i]
                        .number().wf() by {
                    if i > 0 {
                        assert(tokens[i] == others[i - 1]);
                    }
                }
            }
        }
    }
}

/// A size that a text spells is canonical.
pub proof fn lemma_size_of_canonical(s: Seq<u8>)
    ensures
        size_of(s) matches Ok(size) ==> size.canonical(),
{
    if s.len() > 5 && s.last() == CLOSE {
        lemma_tokens_of_canonical(s.subrange(5, s.len() - 1), 0, false);
    }
    lemma_number_prefix_wf(s);
}

/// `front`, then the tokens of `rest`; or the error of `rest`.
pub open spec fn append(
    front: Seq<TokenModel>,
    rest: Result<Seq<TokenModel>, ParseError>,
) -> Result<Seq<TokenModel>, ParseError> {
    match rest {
        Ok(tokens) => Ok(front + tokens),
        Err(e) => Err(e),
    }
}

/// Putting a token behind `front` or in front of `rest` comes to the same.
proof fn lemma_append_prepend(
    front: Seq<TokenModel>,
    token: TokenModel,
    rest: Result<Seq<TokenModel>, ParseError>,
)
    ensures
        append(front, prepend(token, rest)) == append(front.push(token), rest),
{
    if let Ok(tokens) = rest {
        assert(front + (seq![token] + tokens) =~= front.push(token) + tokens);
    }
}

/// Tells whether an operand may end at `i`.
fn boundary_at(s: &[u8], i: usize) -> (r: bool)
    requires
        i <= s@.len(),
    ensures
        r == at_boundary(skip(s@, i as int)),
{
    if i == s.len() {
        return true;
    }
    let c = s[i];
    c == SPACE || c == TAB || c == NEWLINE || c == RETURN || c == PLUS || c == MINUS || c == STAR
        || c == SLASH || c == OPEN || c == CLOSE
}

/// Tells whether a number begins at `pos`.
fn number_at(s: &[u8], pos: usize) -> (r: bool)
    requires
        pos < s@.len(),
    ensures
        r == begins_number(skip(s@, pos as int)),
{
    let c = s[pos];
    if (c >= DIGIT_ZERO && c <= DIGIT_NINE) || c == POINT {
        true
    } else if (c == PLUS || c == MINUS) && pos + 1 < s.len() {
        let d = s[pos + 1];
        (d >= DIGIT_ZERO && d <= DIGIT_NINE) || d == POINT
    } else {
        false
    }
}

/// Reads the operand that begins at `pos`, and says where it ends.
fn read_operand(s: &[u8], pos: usize) -> (r: Result<(CalcToken, usize), ParseError>)
    requires
        pos <= s@.len(),
    ensures
        match operand_prefix(skip(s@, pos as int)) {
            Ok((t, n)) => r matches Ok((token, end)) && token@ == t && end == pos + n && end
                <= s@.len(),
            Err(e) => r matches Err(x) && x == e,
        },
{
    let ghost rest = skip(s@, pos as int);
    proof {
        lemma_number_prefix_len(rest);
    }
    match Length::read(s, pos) {
        None => Err(ParseError::MalformedNumber),
        Some((number, end)) => {
            proof {
                assert(skip(rest, end - pos) =~= skip(s@, end as int));
                if end < s@.len() {
                    assert(skip(rest, end - pos + 1) =~= skip(s@, end + 1));
                }
            }
            if end < s.len() && (s[end] == PERCENT || s[end] == LETTER_V) {
                if boundary_at(s, end + 1) {
                    if s[end] == PERCENT {
                        Ok((CalcToken::Percentage(number), end + 1))
                    } else {
                        Ok((CalcToken::RootPercentage(number), end + 1))
                    }
                } else {
                    Err(ParseError::UnrecognizedUnit)
                }
            } else if boundary_at(s, end) {
                Ok((CalcToken::Pixels(number), end))
            } else if s[end] == POINT {
                Err(ParseError::MalformedNumber)
            } else {
                Err(ParseError::UnrecognizedUnit)
            }
        },
    }
}

/// Reads the tokens of an expression.
fn read_tokens(s: &[u8]) -> (r: Result<Vec<CalcToken>, ParseError>)
    ensures
        match tokens_of(s@, 0, false) {
            Ok(ts) => r matches Ok(tokens) && models(tokens@) == ts,
            Err(e) => r matches Err(x) && x == e,
        },
{
    let mut tokens: Vec<CalcToken> = Vec::new();
    let mut pos: usize = 0;
    let mut depth: usize = 0;
    let mut after_term = false;
    proof {
        assert(skip(s@, 0) =~= s@);
        assert(models(tokens@) =~= Seq::<TokenModel>::empty());
        if let Ok(ts) = tokens_of(s@, 0, false) {
            assert(Seq::<TokenModel>::empty() + ts =~= ts);
        }
    }
    while pos < s.len()
        invariant
            pos <= s@.len(),
            depth <= pos,
            tokens_of(s@, 0, false) == append(
                models(tokens@),
                tokens_of(skip(s@, pos as int), depth as nat, after_term),
            ),
        decreases s@.len() - pos,
    {
        let ghost here = skip(s@, pos as int);
        let ghost front = models(tokens@);
        proof {
            assert(here.drop_first() =~= skip(s@, pos + 1));
        }
        let c = s[pos];
        if c == SPACE || c == TAB || c == NEWLINE || c == RETURN {
            pos += 1;
        } else if c == OPEN {
            proof {
                lemma_append_prepend(
                    front,
                    TokenModel::OpenParen,
                    tokens_of(here.drop_first(), depth as nat + 1, false),
                );
            }
            tokens.push(CalcToken::OpenParen);
            pos += 1;
            depth += 1;
            after_term = false;
        } else if c == CLOSE {
            if depth == 0 {
                return Err(ParseError::UnbalancedParentheses);
            }
            if !after_term {
                return Err(ParseError::InvalidExpressionStructure);
            }
            proof {
                lemma_append_prepend(
                    front,
                    TokenModel::CloseParen,
                    tokens_of(here.drop_first(), (depth - 1) as nat, true),
                );
            }
            tokens.push(CalcToken::CloseParen);
            pos += 1;
            depth -= 1;
        } else if after_term {
            let token = if c == PLUS {
                CalcToken::Add
            } else if c == MINUS {
                CalcToken::Sub
            } else if c == STAR {
                CalcToken::Mul
            } else if c == SLASH {
                CalcToken::Div
            } else {
                return Err(ParseError::InvalidExpressionStructure);
            };
            proof {
                lemma_append_prepend(
                    front,
                    operator(c),
                    tokens_of(here.drop_first(), depth as nat, false),
                );
            }
            tokens.push(token);
            pos += 1;
            after_term = false;
        } else if number_at(s, pos) {
            match read_operand(s, pos) {
                Err(e) => {
                    return Err(e);
                },
                Ok((token, end)) => {
                    proof {
                        assert(skip(here, end - pos) =~= skip(s@, end as int));
                        lemma_append_prepend(
                            front,
                            token@,
                            tokens_of(skip(s@, end as int), depth as nat, true),
                        );
                    }
                    tokens.push(token);
                    pos = end;
                    after_term = true;
                },
            }
        } else {
            return Err(ParseError::InvalidExpressionStructure);
        }
        proof {
            assert(models(tokens@) =~= if tokens@.len() == front.len() {
                front
            } else {
                front.push(tokens@.last()@)
            });
        }
    }
    proof {
        assert(skip(s@, pos as int) =~= Seq::<u8>::empty());
    }
    if !after_term {
        return Err(ParseError::InvalidExpressionStructure);
    }
    if depth > 0 {
        return Err(ParseError::UnbalancedParentheses);
    }
    proof {
        assert(models(tokens@) + Seq::<TokenModel>::empty() =~= models(tokens@));
    }
    Ok(tokens)
}

/// Tells whether `s` begins with `calc(`.
fn begins_calc(s: &[u8]) -> (r: bool)
    ensures
        r == (s@.len() >= 5 && s@.subrange(0, 5) == calc_text()),
{
    if s.len() < 5 {
        return false;
    }
    let r = s[0] == 0x63 && s[1] == 0x61 && s[2] == 0x6c && s[3] == 0x63 && s[4] == OPEN;
    proof {
        if r {
            assert(s@.subrange(0, 5) =~= calc_text());
        } else {
            let head = s@.subrange(0, 5);
            assert(head[0] == s@[0] && head[1] == s@[1] && head[2] == s@[2] && head[3] == s@[3]
                && head[4] == s@[4]);
        }
    }
    r
}

/// Tells whether `s` is `auto`.
fn is_auto(s: &[u8]) -> (r: bool)
    ensures
        r == (s@ == auto_text()),
{
    let r = s.len() == 4 && s[0] == 0x61 && s[1] == 0x75 && s[2] == 0x74 && s[3] == 0x6f;
    proof {
        if r {
            assert(s@ =~= auto_text());
        }
    }
    r
}

impl Size {
    /// Reads a size from text.
    pub fn parse(input: &str) -> (r: Result<Size, ParseError>)
        ensures
            match size_of(input.spec_bytes()) {
                Ok(m) => r matches Ok(size) && size@ == m,
                Err(e) => r matches Err(x) && x == e,
            },
            r matches Ok(size) ==> size@.canonical() && size@.well_formed(),
    {
        Size::parse_bytes(input.as_bytes())
    }

    /// Reads a size from the bytes of a text.
    pub fn parse_bytes(s: &[u8]) -> (r: Result<Size, ParseError>)
        ensures
            match size_of(s@) {
                Ok(m) => r matches Ok(size) && size@ == m,
                Err(e) => r matches Err(x) && x == e,
            },
            r matches Ok(size) ==> size@.canonical() && size@.well_formed(),
    {
        proof {
            lemma_size_of_canonical(s@);
        }
        let n = s.len();
        if is_auto(s) {
            return Ok(Size::Inner);
        }
        if begins_calc(s) {
            if n > 5 && s[n - 1] == CLOSE {
                return match read_tokens(slice_subrange(s, 5, n - 1)) {
                    Ok(tokens) => Ok(Size::Calculation(Length::one(), tokens)),
                    Err(e) => Err(e),
                };
            }
            return Err(ParseError::UnbalancedParentheses);
        }
        proof {
            assert(skip(s@, 0) =~= s@);
            lemma_number_prefix_len(s@);
        }
        match Length::read(s, 0) {
            None => Err(ParseError::MalformedNumber),
            Some((number, end)) => {
                if end == n {
                    Ok(Size::Pixels(number))
                } else if end + 1 == n && s[end] == PERCENT {
                    Ok(Size::Percentage(number))
                } else if s[end] == POINT {
                    Err(ParseError::MalformedNumber)
                } else {
                    Err(ParseError::UnrecognizedUnit)
                }
            },
        }
    }
}

} // verus!
