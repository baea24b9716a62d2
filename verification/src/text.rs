//! Writing a size as text, so that reading the text gives the size back.

use crate::error::ParseError;
use crate::length::push_all;
use crate::numeral::{
    is_digit, lemma_number_prefix_of_text, skip, Decimal, DIGIT_ZERO, MINUS, PLUS,
};
use crate::parser::{
    at_boundary, auto_text, calc_text, is_space, lemma_number_is_no_keyword, operand_prefix,
    operator, size_of, tokens_of, CLOSE, LETTER_V, OPEN, PERCENT, SLASH, SPACE, STAR,
};
use crate::size::{
    lemma_well_formed_shift, models, numbers_wf, well_formed, well_formed_from, CalcToken, Size,
    SizeModel, TokenModel,
};
use vstd::prelude::*;

verus! {

/// A token as text: a number with its unit, an operator or a parenthesis.
pub open spec fn token_text(token: TokenModel) -> Seq<u8> {
    match token {
        TokenModel::Pixels(d) => d.text(),
        TokenModel::Percentage(d) => d.text() + seq![PERCENT],
        TokenModel::RootPercentage(d) => d.text() + seq![LETTER_V],
        TokenModel::Add => seq![PLUS],
        TokenModel::Sub => seq![MINUS],
        TokenModel::Mul => seq![STAR],
        TokenModel::Div => seq![SLASH],
        TokenModel::OpenParen => seq![OPEN],
        TokenModel::CloseParen => seq![CLOSE],
    }
}

/// The tokens as text, each with a space before it.
pub open spec fn spaced(tokens: Seq<TokenModel>) -> Seq<u8>
    decreases tokens.len(),
{
    if tokens.len() == 0 {
        Seq::<u8>::empty()
    } else {
        seq![SPACE] + token_text(tokens[0]) + spaced(tokens.drop_first())
    }
}

/// The tokens as text, with a space between each two.
pub open spec fn expression_text(tokens: Seq<TokenModel>) -> Seq<u8> {
    if tokens.len() == 0 {
        Seq::<u8>::empty()
    } else {
        token_text(tokens[0]) + spaced(tokens.drop_first())
    }
}

/// A size as text: a number, a number and `%`, `auto`, or `calc(`, the
/// tokens and `)`. The factor of a calculation is not written.
pub open spec fn text_of(size: SizeModel) -> Seq<u8> {
    match size {
        SizeModel::Pixels(d) => d.text(),
        SizeModel::Percentage(d) => d.text() + seq![PERCENT],
        SizeModel::Inner => auto_text(),
        SizeModel::Calculation(_, tokens) => calc_text() + expression_text(tokens) + seq![CLOSE],
    }
}

/// The text of a well-formed number begins with a digit, or with `-` and a
/// digit.
proof fn lemma_text_begins(d: Decimal)
    requires
        d.wf(),
    ensures
        d.text().len() > 0,
        is_digit(d.text()[0]) || (d.text()[0] == MINUS && d.text().len() > 1 && is_digit(
            d.text()[1],
        )),
{
    let whole = if d.whole.len() == 0 {
        seq![DIGIT_ZERO]
    } else {
        d.whole
    };
    assert(is_digit(whole[0]));
    assert(d.text()[0] == if d.negative {
        MINUS
    } else {
        whole[0]
    });
    if d.negative {
        assert(d.text()[1] == whole[0]);
    }
}

/// Reading the text of an operand gives the operand back, if a boundary
/// follows it.
proof fn lemma_operand_prefix_of_text(token: TokenModel, rest: Seq<u8>)
    requires
        token.is_operand(),
        token.number().wf(),
        at_boundary(rest),
    ensures
        operand_prefix(token_text(token) + rest) == Ok::<(TokenModel, nat), ParseError>(
            (token, token_text(token).len()),
        ),
{
    let d = token.number();
    let n = d.text().len() as int;
    let s = token_text(token) + rest;
    match token {
        TokenModel::Pixels(_) => {
            lemma_number_prefix_of_text(d, rest);
            assert(skip(s, n) =~= rest);
        },
        TokenModel::Percentage(_) => {
            assert(s =~= d.text() + (seq![PERCENT] + rest));
            lemma_number_prefix_of_text(d, seq![PERCENT] + rest);
            assert(skip(s, n)[0] == PERCENT);
            assert(skip(s, n + 1) =~= rest);
        },
        _ => {
            assert(s =~= d.text() + (seq![LETTER_V] + rest));
            lemma_number_prefix_of_text(d, seq![LETTER_V] + rest);
            assert(skip(s, n)[0] == LETTER_V);
            assert(skip(s, n + 1) =~= rest);
        },
    }
}

/// Whether every byte of `s` is a space, a tab, a line feed or a carriage
/// return.
pub open spec fn is_blank(s: Seq<u8>) -> bool {
    forall|i: int| 0 <= i < s.len() ==> is_space(#[trigger] s[i])
}

/// Whether each of `gaps` is blank.
pub open spec fn all_blank(gaps: Seq<Seq<u8>>) -> bool {
    forall|i: int| 0 <= i < gaps.len() ==> is_blank(#[trigger] gaps[i])
}

/// The tokens as text, with one of `gaps` before each token and the last of
/// them at the end.
pub open spec fn laid_out(tokens: Seq<TokenModel>, gaps: Seq<Seq<u8>>) -> Seq<u8>
    recommends
        gaps.len() == tokens.len() + 1,
    decreases tokens.len(),
{
    if gaps.len() == 0 {
        Seq::<u8>::empty()
    } else if tokens.len() == 0 {
        gaps[0]
    } else {
        gaps[0] + token_text(tokens[0]) + laid_out(tokens.drop_first(), gaps.drop_first())
    }
}

/// Blank bytes in front of a text are skipped.
proof fn lemma_skip_blank(gap: Seq<u8>, rest: Seq<u8>, depth: nat, after_term: bool)
    requires
        is_blank(gap),
    ensures
        tokens_of(gap + rest, depth, after_term) == tokens_of(rest, depth, after_term),
    decreases gap.len(),
{
    if gap.len() == 0 {
        assert(gap + rest =~= rest);
    } else {
        assert((gap + rest)[0] == gap[0]);
        assert((gap + rest).drop_first() =~= gap.drop_first() + rest);
        assert forall|i: int| 0 <= i < gap.drop_first().len() implies is_space(
            #[trigger] gap.drop_first()[i],
        ) by {
            assert(gap.drop_first()[i] == gap[i + 1]);
        }
        lemma_skip_blank(gap.drop_first(), rest, depth, after_term);
    }
}

/// What follows a term in a layout begins at a boundary.
proof fn lemma_laid_out_boundary(tokens: Seq<TokenModel>, gaps: Seq<Seq<u8>>, depth: nat)
    requires
        well_formed_from(tokens, 0, depth, true),
        gaps.len() == tokens.len() + 1,
        all_blank(gaps),
    ensures
        at_boundary(laid_out(tokens, gaps)),
{
    let s = laid_out(tokens, gaps);
    if gaps[0].len() > 0 {
        assert(s[0] == gaps[0][0]);
    } else if tokens.len() > 0 {
        assert(s[0] == token_text(tokens[0])[0]);
    }
}

/// Reading an expression gives its tokens, whatever blank bytes stand before,
/// between and behind the texts of the tokens, and even if nothing stands
/// between them.
pub proof fn lemma_read_laid_out(
    tokens: Seq<TokenModel>,
    gaps: Seq<Seq<u8>>,
    depth: nat,
    after_term: bool,
)
    requires
        well_formed_from(tokens, 0, depth, after_term),
        numbers_wf(tokens),
        gaps.len() == tokens.len() + 1,
        all_blank(gaps),
    ensures
        tokens_of(laid_out(tokens, gaps), depth, after_term) == Ok::<
            Seq<TokenModel>,
            ParseError,
        >(tokens),
    decreases tokens.len(),
{
    if tokens.len() == 0 {
        assert(tokens =~= Seq::<TokenModel>::empty());
        lemma_skip_blank(gaps[0], Seq::<u8>::empty(), depth, after_term);
        assert(gaps[0] + Seq::<u8>::empty() =~= gaps[0]);
    } else {
        let first = tokens[0];
        let others = tokens.drop_first();
        let tail = laid_out(others, gaps.drop_first());
        let s = token_text(first) + tail;
        assert(laid_out(tokens, gaps) =~= gaps[0] + s);
        lemma_skip_blank(gaps[0], s, depth, after_term);
        assert(seq![first] + others =~= tokens);
        assert forall|i: int|
            0 <= i < others.len() && (#[trigger] others[i]).is_operand() implies others[i]
                .number().wf() by {
            assert(others[i] == tokens[i + 1]);
        }
        assert forall|i: int| 0 <= i < gaps.drop_first().len() implies is_blank(
            #[trigger] gaps.drop_first()[i],
        ) by {
            assert(gaps.drop_first()[i] == gaps[i + 1]);
        }
        if first.is_operand() {
            lemma_well_formed_shift(tokens, 0, depth, true);
            lemma_read_laid_out(others, gaps.drop_first(), depth, true);
            lemma_laid_out_boundary(others, gaps.drop_first(), depth);
            lemma_text_begins(first.number());
            lemma_operand_prefix_of_text(first, tail);
            assert(s[0] == first.number().text()[0]);
            if first.number().negative {
                assert(s[1] == first.number().text()[1]);
            }
            assert(skip(s, token_text(first).len() as int) =~= tail);
        } else {
            assert(s.drop_first() =~= tail);
            if first.is_operator() {
                lemma_well_formed_shift(tokens, 0, depth, false);
                lemma_read_laid_out(others, gaps.drop_first(), depth, false);
                assert(operator(s[0]) == first);
            } else if first is OpenParen {
                lemma_well_formed_shift(tokens, 0, depth + 1, false);
                lemma_read_laid_out(others, gaps.drop_first(), depth + 1, false);
            } else {
                lemma_well_formed_shift(tokens, 0, (depth - 1) as nat, true);
                lemma_read_laid_out(others, gaps.drop_first(), (depth - 1) as nat, true);
            }
        }
    }
}

/// One space before each of `n` tokens, and nothing at the end.
spec fn spaces_before(n: nat) -> Seq<Seq<u8>> {
    Seq::new(
        n + 1,
        |i: int|
            if i < n {
                seq![SPACE]
            } else {
                Seq::<u8>::empty()
            },
    )
}

/// Nothing before the first of `n` tokens, one space before each other
/// token, and nothing at the end.
spec fn gaps_between(n: nat) -> Seq<Seq<u8>> {
    seq![Seq::<u8>::empty()] + spaces_before((n - 1) as nat)
}

/// The spaced text is a layout.
proof fn lemma_spaced_is_laid_out(tokens: Seq<TokenModel>)
    ensures
        spaced(tokens) == laid_out(tokens, spaces_before(tokens.len())),
    decreases tokens.len(),
{
    let gaps = spaces_before(tokens.len());
    if tokens.len() > 0 {
        lemma_spaced_is_laid_out(tokens.drop_first());
        assert(gaps.drop_first() =~= spaces_before(tokens.drop_first().len()));
    }
}

/// The text of an expression is a layout with blank gaps.
proof fn lemma_expression_text_is_laid_out(tokens: Seq<TokenModel>)
    requires
        tokens.len() > 0,
    ensures
        expression_text(tokens) == laid_out(tokens, gaps_between(tokens.len())),
        gaps_between(tokens.len()).len() == tokens.len() + 1,
        all_blank(gaps_between(tokens.len())),
{
    let others = tokens.drop_first();
    let gaps = gaps_between(tokens.len());
    lemma_spaced_is_laid_out(others);
    assert(gaps.drop_first() =~= spaces_before(others.len()));
    assert(gaps[0] + token_text(tokens[0]) =~= token_text(tokens[0]));
    assert forall|i: int| 0 <= i < gaps.len() implies is_blank(#[trigger] gaps[i]) by {
        if i > 0 {
            assert(gaps[i] == spaces_before(others.len())[i - 1]);
        }
    }
}

/// A calculation is read from `calc(`, an expression and `)`, whatever blank
/// bytes stand before, between and behind the texts of its tokens.
pub proof fn lemma_read_calculation(tokens: Seq<TokenModel>, gaps: Seq<Seq<u8>>)
    requires
        well_formed(tokens),
        numbers_wf(tokens),
        gaps.len() == tokens.len() + 1,
        all_blank(gaps),
    ensures
        size_of(calc_text() + laid_out(tokens, gaps) + seq![CLOSE]) == Ok::<SizeModel, ParseError>(
            SizeModel::Calculation(Decimal::one(), tokens),
        ),
{
    let inner = laid_out(tokens, gaps);
    let s = calc_text() + inner + seq![CLOSE];
    assert(s.len() == 5 + inner.len() + 1);
    assert(s.subrange(0, 5) =~= calc_text());
    assert(s.subrange(5, s.len() - 1) =~= inner);
    assert(s[0] == 0x63);
    assert(auto_text()[0] == 0x61);
    assert(s.last() == CLOSE);
    lemma_read_laid_out(tokens, gaps, 0, false);
}

/// Reading the text of a number gives pixels.
proof fn lemma_round_trip_pixels(d: Decimal)
    requires
        d.wf(),
    ensures
        size_of(d.text()) == Ok::<SizeModel, ParseError>(SizeModel::Pixels(d)),
{
    let s = d.text();
    lemma_text_begins(d);
    lemma_number_is_no_keyword(s);
    lemma_number_prefix_of_text(d, Seq::<u8>::empty());
    assert(d.text() + Seq::<u8>::empty() =~= s);
    assert(skip(s, s.len() as int) =~= Seq::<u8>::empty());
}

/// Reading the text of a number and `%` gives a percentage.
proof fn lemma_round_trip_percentage(d: Decimal)
    requires
        d.wf(),
    ensures
        size_of(d.text() + seq![PERCENT]) == Ok::<SizeModel, ParseError>(
            SizeModel::Percentage(d),
        ),
{
    let s = d.text() + seq![PERCENT];
    lemma_text_begins(d);
    assert(s[0] == d.text()[0]);
    lemma_number_is_no_keyword(s);
    lemma_number_prefix_of_text(d, seq![PERCENT]);
    assert(skip(s, d.text().len() as int) =~= seq![PERCENT]);
}

/// Writing a canonical size and reading the text gives the size back.
pub proof fn lemma_round_trip(size: SizeModel)
    requires
        size.canonical(),
    ensures
        size_of(text_of(size)) == Ok::<SizeModel, ParseError>(size),
{
    match size {
        SizeModel::Pixels(d) => {
            lemma_round_trip_pixels(d);
        },
        SizeModel::Percentage(d) => {
            lemma_round_trip_percentage(d);
        },
        SizeModel::Inner => {},
        SizeModel::Calculation(_, tokens) => {
            lemma_expression_text_is_laid_out(tokens);
            lemma_read_calculation(tokens, gaps_between(tokens.len()));
        },
    }
}

/// The spaced text of tokens with one more behind them.
proof fn lemma_spaced_push(tokens: Seq<TokenModel>, token: TokenModel)
    ensures
        spaced(tokens.push(token)) == spaced(tokens) + seq![SPACE] + token_text(token),
    decreases tokens.len(),
{
    let more = tokens.push(token);
    if tokens.len() == 0 {
        assert(more.drop_first() =~= Seq::<TokenModel>::empty());
        assert(spaced(more.drop_first()) =~= Seq::<u8>::empty());
        assert(more[0] == token);
        assert(spaced(more) =~= seq![SPACE] + token_text(token));
        assert(spaced(tokens) + seq![SPACE] + token_text(token) =~= seq![SPACE] + token_text(
            token,
        ));
    } else {
        assert(more.drop_first() =~= tokens.drop_first().push(token));
        lemma_spaced_push(tokens.drop_first(), token);
        assert(spaced(more) =~= spaced(tokens) + seq![SPACE] + token_text(token));
    }
}

/// The text of an expression with one more token behind it.
proof fn lemma_expression_text_push(tokens: Seq<TokenModel>, token: TokenModel)
    ensures
        expression_text(tokens.push(token)) == if tokens.len() == 0 {
            token_text(token)
        } else {
            expression_text(tokens) + seq![SPACE] + token_text(token)
        },
{
    let more = tokens.push(token);
    if tokens.len() == 0 {
        assert(more.drop_first() =~= Seq::<TokenModel>::empty());
        assert(spaced(more.drop_first()) =~= Seq::<u8>::empty());
        assert(more[0] == token);
        assert(expression_text(more) =~= token_text(token));
    } else {
        assert(more.drop_first() =~= tokens.drop_first().push(token));
        lemma_spaced_push(tokens.drop_first(), token);
        assert(expression_text(more) =~= expression_text(tokens) + seq![SPACE] + token_text(
            token,
        ));
    }
}

/// Appends the text of `token` to `out`.
fn write_token(out: &mut Vec<u8>, token: &CalcToken)
    ensures
        final(out)@ == old(out)@ + token_text(token@),
{
    match token {
        CalcToken::Pixels(number) => {
            let digits = number.to_bytes();
            push_all(out, digits.as_slice());
        },
        CalcToken::Percentage(number) => {
            let digits = number.to_bytes();
            push_all(out, digits.as_slice());
            out.push(PERCENT);
        },
        CalcToken::RootPercentage(number) => {
            let digits = number.to_bytes();
            push_all(out, digits.as_slice());
            out.push(LETTER_V);
        },
        CalcToken::Add => out.push(PLUS),
        CalcToken::Sub => out.push(MINUS),
        CalcToken::Mul => out.push(STAR),
        CalcToken::Div => out.push(SLASH),
        CalcToken::OpenParen => out.push(OPEN),
        CalcToken::CloseParen => out.push(CLOSE),
    }
    proof {
        assert(out@ =~= old(out)@ + token_text(token@));
    }
}

impl Size {
    /// The size as text. Read again, the text of a size that was read from a
    /// text gives an equal size.
    pub fn to_bytes(&self) -> (r: Vec<u8>)
        ensures
            r@ == text_of(self@),
    {
        match self {
            Size::Pixels(number) => number.to_bytes(),
            Size::Percentage(number) => {
                let mut out = number.to_bytes();
                out.push(PERCENT);
                proof {
                    assert(out@ =~= text_of(self@));
                }
                out
            },
            Size::Inner => {
                let out = vec![0x61u8, 0x75u8, 0x74u8, 0x6fu8];
                proof {
                    assert(out@ =~= auto_text());
                }
                out
            },
            Size::Calculation(_, tokens) => {
                let mut out = vec![0x63u8, 0x61u8, 0x6cu8, 0x63u8, OPEN];
                let ghost all = models(tokens@);
                let mut i: usize = 0;
                proof {
                    assert(all.subrange(0, 0) =~= Seq::<TokenModel>::empty());
                    assert(out@ =~= calc_text() + expression_text(all.subrange(0, 0)));
                }
                while i < tokens.len()
                    invariant
                        i <= tokens@.len(),
                        all == models(tokens@),
                        out@ == calc_text() + expression_text(all.subrange(0, i as int)),
                    decreases tokens@.len() - i,
                {
                    let ghost before = out@;
                    if i > 0 {
                        out.push(SPACE);
                    }
                    write_token(&mut out, &tokens[i]);
                    proof {
                        let done = all.subrange(0, i as int);
                        assert(all.subrange(0, i + 1) =~= done.push(tokens@[i as int]@));
                        lemma_expression_text_push(done, tokens@[i as int]@);
                        assert(out@ =~= calc_text() + expression_text(all.subrange(0, i + 1)));
                    }
                    i += 1;
                }
                out.push(CLOSE);
                proof {
                    assert(all.subrange(0, i as int) =~= all);
                }
                out
            },
        }
    }
}

} // verus!
