//! What a size is worth.
//!
//! The numbers are binary64, held by their bit patterns. What an expression
//! is worth is stated by [`sum_value`], [`product_value`] and [`term_value`],
//! which follow the grammar: a sum is products with `+` and `-` between
//! them, a product is terms with `*` and `/` between them, where a group may
//! follow a term directly and then multiplies it, and a term is an operand or
//! a sum between parentheses.

use crate::binary64::{
    difference_bits, is_zero_bits, non_negative_bits, product_bits, quotient_bits, sum_bits,
    HUNDRED_BITS, ZERO_BITS,
};
use crate::size::{well_formed, well_formed_from, Operator, SizeModel, TokenModel};
use vstd::prelude::*;

verus! {

/// What a size is resolved against. Each field is the bit pattern of a
/// binary64 number of pixels.
#[derive(Clone, Copy, Debug, PartialEq, Eq, Structural)]
pub struct ResolutionContext {
    /// The size of the parent, for `%`.
    pub parent_dimension: u64,
    /// The size of the root, for `v`.
    pub root_dimension: u64,
    /// The measured size of the content, for `auto`.
    pub measured_content_size: u64,
}

/// `percentage / 100 * whole`.
pub open spec fn percent_of(percentage: u64, whole: u64) -> u64 {
    product_bits(quotient_bits(percentage, HUNDRED_BITS), whole)
}

/// What an operand is worth: pixels as they are, a percentage of the parent,
/// a root percentage of the root.
pub open spec fn operand_value(token: TokenModel, ctx: ResolutionContext) -> u64
    recommends
        token.is_operand(),
{
    match token {
        TokenModel::Pixels(d) => d.bits(),
        TokenModel::Percentage(d) => percent_of(d.bits(), ctx.parent_dimension),
        TokenModel::RootPercentage(d) => percent_of(d.bits(), ctx.root_dimension),
        _ => ZERO_BITS,
    }
}

/// `a op b`, where a division by zero gives zero.
pub open spec fn apply(op: Operator, a: u64, b: u64) -> u64 {
    match op {
        Operator::Add => sum_bits(a, b),
        Operator::Sub => difference_bits(a, b),
        Operator::Mul => product_bits(a, b),
        Operator::Div => if is_zero_bits(b) {
            ZERO_BITS
        } else {
            quotient_bits(a, b)
        },
    }
}

/// The number of tokens from `pos` on.
pub open spec fn left_from(tokens: Seq<TokenModel>, pos: int) -> nat {
    if pos < tokens.len() {
        (tokens.len() - pos) as nat
    } else {
        0
    }
}

/// The number of tokens that the term that begins at `pos` has after its
/// first: none for an operand; for a group, the sum in it and the `)`.
pub open spec fn term_tail(tokens: Seq<TokenModel>, pos: int) -> nat
    decreases left_from(tokens, pos), 0nat,
{
    if 0 <= pos < tokens.len() && tokens[pos] is OpenParen {
        sum_tail(tokens, pos + 1) + 2
    } else {
        0
    }
}

/// The number of tokens that the factors at `pos` take. A factor is `*` or
/// `/` and a term, or a group on its own.
pub open spec fn factors_len(tokens: Seq<TokenModel>, pos: int) -> nat
    decreases left_from(tokens, pos), 1nat,
{
    if 0 <= pos < tokens.len() && (tokens[pos] is Mul || tokens[pos] is Div) {
        let tail = term_tail(tokens, pos + 1);
        2 + tail + factors_len(tokens, pos + 2 + tail)
    } else if 0 <= pos < tokens.len() && tokens[pos] is OpenParen {
        let tail = term_tail(tokens, pos);
        1 + tail + factors_len(tokens, pos + 1 + tail)
    } else {
        0
    }
}

/// The number of tokens that the product that begins at `pos` has after its
/// first: the rest of its first term, and its factors.
pub open spec fn product_tail(tokens: Seq<TokenModel>, pos: int) -> nat
    decreases left_from(tokens, pos), 1nat,
{
    if 0 <= pos < tokens.len() {
        let tail = term_tail(tokens, pos);
        tail + factors_len(tokens, pos + 1 + tail)
    } else {
        0
    }
}

/// The number of tokens that the addends at `pos` take. An addend is `+` or
/// `-` and a product.
pub open spec fn addends_len(tokens: Seq<TokenModel>, pos: int) -> nat
    decreases left_from(tokens, pos), 0nat,
{
    if 0 <= pos < tokens.len() && (tokens[pos] is Add || tokens[pos] is Sub) {
        let tail = product_tail(tokens, pos + 1);
        2 + tail + addends_len(tokens, pos + 2 + tail)
    } else {
        0
    }
}

/// The number of tokens that the sum that begins at `pos` has after its
/// first: the rest of its first product, and its addends.
pub open spec fn sum_tail(tokens: Seq<TokenModel>, pos: int) -> nat
    decreases left_from(tokens, pos), 2nat,
{
    if 0 <= pos < tokens.len() {
        let tail = product_tail(tokens, pos);
        tail + addends_len(tokens, pos + 1 + tail)
    } else {
        0
    }
}

/// The value of the term that begins at `pos`: that of an operand, or of the
/// sum between the parentheses of a group.
pub open spec fn term_value(tokens: Seq<TokenModel>, ctx: ResolutionContext, pos: int) -> u64
    decreases left_from(tokens, pos), 0nat,
{
    if 0 <= pos < tokens.len() {
        if tokens[pos] is OpenParen {
            sum_value(tokens, ctx, pos + 1)
        } else {
            operand_value(tokens[pos], ctx)
        }
    } else {
        ZERO_BITS
    }
}

/// What `left` becomes when the factors at `pos` are applied to it, from
/// left to right: each `*` or `/` with its term, and each group on its own,
/// which multiplies.
pub open spec fn with_factors(
    tokens: Seq<TokenModel>,
    ctx: ResolutionContext,
    left: u64,
    pos: int,
) -> u64
    decreases left_from(tokens, pos), 1nat,
{
    if 0 <= pos < tokens.len() && (tokens[pos] is Mul || tokens[pos] is Div) {
        with_factors(
            tokens,
            ctx,
            apply(tokens[pos].operator(), left, term_value(tokens, ctx, pos + 1)),
            pos + 2 + term_tail(tokens, pos + 1),
        )
    } else if 0 <= pos < tokens.len() && tokens[pos] is OpenParen {
        with_factors(
            tokens,
            ctx,
            apply(Operator::Mul, left, term_value(tokens, ctx, pos)),
            pos + 1 + term_tail(tokens, pos),
        )
    } else {
        left
    }
}

/// The value of the product that begins at `pos`: its first term with its
/// factors applied.
pub open spec fn product_value(tokens: Seq<TokenModel>, ctx: ResolutionContext, pos: int) -> u64
    decreases left_from(tokens, pos), 2nat,
{
    if 0 <= pos < tokens.len() {
        with_factors(tokens, ctx, term_value(tokens, ctx, pos), pos + 1 + term_tail(tokens, pos))
    } else {
        ZERO_BITS
    }
}

/// What `left` becomes when the addends at `pos` are applied to it, from
/// left to right: each `+` or `-` with its product.
pub open spec fn with_addends(
    tokens: Seq<TokenModel>,
    ctx: ResolutionContext,
    left: u64,
    pos: int,
) -> u64
    decreases left_from(tokens, pos), 0nat,
{
    if 0 <= pos < tokens.len() && (tokens[pos] is Add || tokens[pos] is Sub) {
        with_addends(
            tokens,
            ctx,
            apply(tokens[pos].operator(), left, product_value(tokens, ctx, pos + 1)),
            pos + 2 + product_tail(tokens, pos + 1),
        )
    } else {
        left
    }
}

/// The value of the sum that begins at `pos`: its first product with its
/// addends applied.
pub open spec fn sum_value(tokens: Seq<TokenModel>, ctx: ResolutionContext, pos: int) -> u64
    decreases left_from(tokens, pos), 3nat,
{
    if 0 <= pos < tokens.len() {
        with_addends(
            tokens,
            ctx,
            product_value(tokens, ctx, pos),
            pos + 1 + product_tail(tokens, pos),
        )
    } else {
        ZERO_BITS
    }
}

/// What an expression is worth: the value of the sum that it is, or zero if
/// that is negative or no number.
pub open spec fn evaluation(tokens: Seq<TokenModel>, ctx: ResolutionContext) -> u64 {
    non_negative_bits(sum_value(tokens, ctx, 0))
}

/// What a size resolves to.
///
/// Pixels resolve to their number, a percentage to that part of the parent,
/// `auto` to the measured size of the content. A calculation resolves to what
/// its expression is worth, times its factor, or to zero if that is negative
/// or no number.
pub open spec fn resolution(size: SizeModel, ctx: ResolutionContext) -> u64 {
    match size {
        SizeModel::Pixels(d) => d.bits(),
        SizeModel::Percentage(d) => percent_of(d.bits(), ctx.parent_dimension),
        SizeModel::Inner => ctx.measured_content_size,
        SizeModel::Calculation(scale, tokens) => non_negative_bits(
            product_bits(evaluation(tokens, ctx), scale.bits()),
        ),
    }
}

/// Whether a factor begins at `pos`: `*`, `/`, or a group that multiplies.
pub open spec fn factor_at(tokens: Seq<TokenModel>, pos: int) -> bool {
    0 <= pos < tokens.len() && (tokens[pos] is Mul || tokens[pos] is Div
        || tokens[pos] is OpenParen)
}

/// Whether an addend begins at `pos`: `+` or `-`.
pub open spec fn addend_at(tokens: Seq<TokenModel>, pos: int) -> bool {
    0 <= pos < tokens.len() && (tokens[pos] is Add || tokens[pos] is Sub)
}

/// Where a term is expected in a well-formed sequence, a term stands, and
/// what follows it is well formed after a term.
proof fn lemma_term_spans(tokens: Seq<TokenModel>, pos: int, depth: nat)
    requires
        well_formed_from(tokens, pos, depth, false),
    ensures
        pos + 1 + term_tail(tokens, pos) <= tokens.len(),
        well_formed_from(tokens, pos + 1 + term_tail(tokens, pos), depth, true),
    decreases left_from(tokens, pos), 0nat,
{
    if tokens[pos] is OpenParen {
        lemma_sum_spans(tokens, pos + 1, depth + 1);
    }
}

/// After a term in a well-formed sequence, its factors stand, and what
/// follows them is well formed after a term and begins no factor.
proof fn lemma_factors_span(tokens: Seq<TokenModel>, pos: int, depth: nat)
    requires
        0 <= pos <= tokens.len(),
        well_formed_from(tokens, pos, depth, true),
    ensures
        pos + factors_len(tokens, pos) <= tokens.len(),
        well_formed_from(tokens, pos + factors_len(tokens, pos), depth, true),
        !factor_at(tokens, pos + factors_len(tokens, pos)),
    decreases left_from(tokens, pos), 1nat,
{
    if pos < tokens.len() && (tokens[pos] is Mul || tokens[pos] is Div) {
        lemma_term_spans(tokens, pos + 1, depth);
        lemma_factors_span(tokens, pos + 2 + term_tail(tokens, pos + 1), depth);
    } else if pos < tokens.len() && tokens[pos] is OpenParen {
        lemma_term_spans(tokens, pos, depth);
        lemma_factors_span(tokens, pos + 1 + term_tail(tokens, pos), depth);
    }
}

/// Where a term is expected in a well-formed sequence, a product stands, and
/// what follows it is well formed after a term and begins no factor.
proof fn lemma_product_spans(tokens: Seq<TokenModel>, pos: int, depth: nat)
    requires
        well_formed_from(tokens, pos, depth, false),
    ensures
        pos + 1 + product_tail(tokens, pos) <= tokens.len(),
        well_formed_from(tokens, pos + 1 + product_tail(tokens, pos), depth, true),
        !factor_at(tokens, pos + 1 + product_tail(tokens, pos)),
    decreases left_from(tokens, pos), 2nat,
{
    lemma_term_spans(tokens, pos, depth);
    lemma_factors_span(tokens, pos + 1 + term_tail(tokens, pos), depth);
}

/// After a product in a well-formed sequence, its addends stand, and what
/// follows them is the end of the sequence or a `)`.
proof fn lemma_addends_span(tokens: Seq<TokenModel>, pos: int, depth: nat)
    requires
        0 <= pos <= tokens.len(),
        well_formed_from(tokens, pos, depth, true),
        !factor_at(tokens, pos),
    ensures
        pos + addends_len(tokens, pos) <= tokens.len(),
        well_formed_from(tokens, pos + addends_len(tokens, pos), depth, true),
        pos + addends_len(tokens, pos) == tokens.len() || tokens[pos + addends_len(tokens, pos)]
            is CloseParen,
    decreases left_from(tokens, pos), 0nat,
{
    if pos < tokens.len() && (tokens[pos] is Add || tokens[pos] is Sub) {
        lemma_product_spans(tokens, pos + 1, depth);
        lemma_addends_span(tokens, pos + 2 + product_tail(tokens, pos + 1), depth);
    }
}

/// Where a term is expected in a well-formed sequence, a sum stands, and
/// what follows it is the end of the sequence or a `)`.
proof fn lemma_sum_spans(tokens: Seq<TokenModel>, pos: int, depth: nat)
    requires
        well_formed_from(tokens, pos, depth, false),
    ensures
        pos + 1 + sum_tail(tokens, pos) <= tokens.len(),
        well_formed_from(tokens, pos + 1 + sum_tail(tokens, pos), depth, true),
        pos + 1 + sum_tail(tokens, pos) == tokens.len() || tokens[pos + 1 + sum_tail(
            tokens,
            pos,
        )] is CloseParen,
    decreases left_from(tokens, pos), 3nat,
{
    lemma_product_spans(tokens, pos, depth);
    lemma_addends_span(tokens, pos + 1 + product_tail(tokens, pos), depth);
}

/// A well-formed sequence is one sum from its first token to its last.
pub proof fn lemma_expression_is_one_sum(tokens: Seq<TokenModel>)
    requires
        well_formed(tokens),
    ensures
        1 + sum_tail(tokens, 0) == tokens.len(),
{
    lemma_sum_spans(tokens, 0, 0);
}

/// An operand on its own is worth what it is worth.
pub proof fn lemma_single_operand(a: TokenModel, ctx: ResolutionContext)
    requires
        a.is_operand(),
    ensures
        well_formed(seq![a]),
        sum_value(seq![a], ctx, 0) == operand_value(a, ctx),
{
    reveal_with_fuel(well_formed_from, 3);
    reveal_with_fuel(term_tail, 2);
    reveal_with_fuel(factors_len, 2);
    reveal_with_fuel(with_factors, 2);
    reveal_with_fuel(with_addends, 2);
}

/// `*` and `/` bind tighter than `+` and `-`: in `a + b * c`, with either
/// looser operator first and either tighter one second, the second is
/// applied first.
pub proof fn lemma_tighter_binds_first(
    a: TokenModel,
    loose: TokenModel,
    b: TokenModel,
    tight: TokenModel,
    c: TokenModel,
    ctx: ResolutionContext,
)
    requires
        a.is_operand(),
        b.is_operand(),
        c.is_operand(),
        loose is Add || loose is Sub,
        tight is Mul || tight is Div,
    ensures
        well_formed(seq![a, loose, b, tight, c]),
        sum_value(seq![a, loose, b, tight, c], ctx, 0) == apply(
            loose.operator(),
            operand_value(a, ctx),
            apply(tight.operator(), operand_value(b, ctx), operand_value(c, ctx)),
        ),
{
    let t = seq![a, loose, b, tight, c];
    reveal_with_fuel(well_formed_from, 7);
    reveal_with_fuel(term_tail, 2);
    reveal_with_fuel(factors_len, 3);
    reveal_with_fuel(addends_len, 3);
    reveal_with_fuel(with_factors, 3);
    reveal_with_fuel(with_addends, 3);
    assert(product_value(t, ctx, 0) == operand_value(a, ctx));
    assert(product_tail(t, 0) == 0);
    assert(product_value(t, ctx, 2) == apply(
        tight.operator(),
        operand_value(b, ctx),
        operand_value(c, ctx),
    ));
    assert(product_tail(t, 2) == 2);
}

/// Operators that bind alike are applied from left to right, and so is a
/// tighter one before a looser one: in `a - b + c` and in `a * b + c` the
/// first operator is applied first.
pub proof fn lemma_left_to_right(
    a: TokenModel,
    first: TokenModel,
    b: TokenModel,
    second: TokenModel,
    c: TokenModel,
    ctx: ResolutionContext,
)
    requires
        a.is_operand(),
        b.is_operand(),
        c.is_operand(),
        first.is_operator(),
        second.is_operator(),
        first.operator().binds_tighter() || !second.operator().binds_tighter(),
    ensures
        well_formed(seq![a, first, b, second, c]),
        sum_value(seq![a, first, b, second, c], ctx, 0) == apply(
            second.operator(),
            apply(first.operator(), operand_value(a, ctx), operand_value(b, ctx)),
            operand_value(c, ctx),
        ),
{
    let t = seq![a, first, b, second, c];
    let va = operand_value(a, ctx);
    let vb = operand_value(b, ctx);
    let vc = operand_value(c, ctx);
    let left = apply(first.operator(), va, vb);
    reveal_with_fuel(well_formed_from, 7);
    assert(term_tail(t, 0) == 0 && term_tail(t, 2) == 0 && term_tail(t, 4) == 0);
    assert(factors_len(t, 5) == 0 && addends_len(t, 5) == 0);
    assert(term_value(t, ctx, 0) == va && term_value(t, ctx, 2) == vb && term_value(t, ctx, 4)
        == vc);
    assert(with_factors(t, ctx, vc, 5) == vc);
    assert(product_tail(t, 4) == 0 && product_value(t, ctx, 4) == vc);
    let whole = apply(second.operator(), left, vc);
    assert(with_factors(t, ctx, whole, 5) == whole);
    assert(with_addends(t, ctx, whole, 5) == whole);
    if second.operator().binds_tighter() {
        assert(factors_len(t, 3) == 2);
        assert(with_factors(t, ctx, left, 3) == apply(second.operator(), left, vc));
        assert(factors_len(t, 1) == 4);
        assert(with_factors(t, ctx, va, 1) == apply(second.operator(), left, vc));
        assert(product_tail(t, 0) == 4);
    } else {
        assert(factors_len(t, 3) == 0);
        assert(addends_len(t, 3) == 2);
        assert(with_addends(t, ctx, left, 3) == apply(second.operator(), left, vc));
        if first.operator().binds_tighter() {
            assert(factors_len(t, 1) == 2);
            assert(with_factors(t, ctx, left, 3) == left);
            assert(with_factors(t, ctx, va, 1) == left);
            assert(product_tail(t, 0) == 2);
        } else {
            assert(factors_len(t, 1) == 0);
            assert(with_factors(t, ctx, va, 1) == va);
            assert(product_tail(t, 0) == 0);
            assert(with_factors(t, ctx, vb, 3) == vb);
            assert(product_tail(t, 2) == 0 && product_value(t, ctx, 2) == vb);
            assert(addends_len(t, 1) == 4);
            assert(with_addends(t, ctx, va, 1) == apply(second.operator(), left, vc));
        }
    }
}

/// Parentheses group: in `(a + b) * c`, with any two operators, the one
/// between the parentheses is applied first.
pub proof fn lemma_group_binds_first(
    a: TokenModel,
    inner: TokenModel,
    b: TokenModel,
    outer: TokenModel,
    c: TokenModel,
    ctx: ResolutionContext,
)
    requires
        a.is_operand(),
        b.is_operand(),
        c.is_operand(),
        inner.is_operator(),
        outer.is_operator(),
    ensures
        well_formed(
            seq![TokenModel::OpenParen, a, inner, b, TokenModel::CloseParen, outer, c],
        ),
        sum_value(
            seq![TokenModel::OpenParen, a, inner, b, TokenModel::CloseParen, outer, c],
            ctx,
            0,
        ) == apply(
            outer.operator(),
            apply(inner.operator(), operand_value(a, ctx), operand_value(b, ctx)),
            operand_value(c, ctx),
        ),
{
    let t = seq![TokenModel::OpenParen, a, inner, b, TokenModel::CloseParen, outer, c];
    let va = operand_value(a, ctx);
    let vb = operand_value(b, ctx);
    let vc = operand_value(c, ctx);
    let inside = apply(inner.operator(), va, vb);
    reveal_with_fuel(well_formed_from, 9);
    assert(term_tail(t, 1) == 0 && term_tail(t, 3) == 0 && term_tail(t, 6) == 0);
    assert(factors_len(t, 7) == 0 && addends_len(t, 7) == 0);
    assert(term_value(t, ctx, 1) == va && term_value(t, ctx, 3) == vb && term_value(t, ctx, 6)
        == vc);
    let whole = apply(outer.operator(), inside, vc);
    assert(with_factors(t, ctx, vc, 7) == vc);
    assert(with_factors(t, ctx, whole, 7) == whole);
    assert(with_addends(t, ctx, whole, 7) == whole);
    assert(product_tail(t, 6) == 0 && product_value(t, ctx, 6) == vc);
    assert(factors_len(t, 4) == 0 && addends_len(t, 4) == 0);
    assert(with_factors(t, ctx, vb, 4) == vb);
    assert(with_factors(t, ctx, inside, 4) == inside);
    assert(with_addends(t, ctx, inside, 4) == inside);
    assert(product_tail(t, 3) == 0 && product_value(t, ctx, 3) == vb);
    if inner.operator().binds_tighter() {
        assert(factors_len(t, 2) == 2);
        assert(with_factors(t, ctx, va, 2) == inside);
        assert(product_tail(t, 1) == 2 && product_value(t, ctx, 1) == inside);
    } else {
        assert(factors_len(t, 2) == 0);
        assert(with_factors(t, ctx, va, 2) == va);
        assert(product_tail(t, 1) == 0 && product_value(t, ctx, 1) == va);
        assert(addends_len(t, 2) == 2);
        assert(with_addends(t, ctx, va, 2) == inside);
    }
    assert(sum_tail(t, 1) == 2 && sum_value(t, ctx, 1) == inside);
    assert(term_tail(t, 0) == 4 && term_value(t, ctx, 0) == inside);
    if outer.operator().binds_tighter() {
        assert(factors_len(t, 5) == 2);
        assert(with_factors(t, ctx, inside, 5) == whole);
        assert(product_tail(t, 0) == 6 && product_value(t, ctx, 0) == whole);
    } else {
        assert(factors_len(t, 5) == 0);
        assert(with_factors(t, ctx, inside, 5) == inside);
        assert(product_tail(t, 0) == 4 && product_value(t, ctx, 0) == inside);
        assert(addends_len(t, 5) == 2);
        assert(with_addends(t, ctx, inside, 5) == whole);
    }
}

/// A group that follows a term directly multiplies it: `a (b)` is `a * b`.
pub proof fn lemma_group_multiplies(a: TokenModel, b: TokenModel, ctx: ResolutionContext)
    requires
        a.is_operand(),
        b.is_operand(),
    ensures
        well_formed(seq![a, TokenModel::OpenParen, b, TokenModel::CloseParen]),
        sum_value(seq![a, TokenModel::OpenParen, b, TokenModel::CloseParen], ctx, 0) == apply(
            Operator::Mul,
            operand_value(a, ctx),
            operand_value(b, ctx),
        ),
{
    let t = seq![a, TokenModel::OpenParen, b, TokenModel::CloseParen];
    let va = operand_value(a, ctx);
    let vb = operand_value(b, ctx);
    reveal_with_fuel(well_formed_from, 6);
    assert(term_tail(t, 0) == 0 && term_tail(t, 2) == 0);
    assert(factors_len(t, 3) == 0 && addends_len(t, 3) == 0);
    assert(term_value(t, ctx, 0) == va && term_value(t, ctx, 2) == vb);
    assert(with_factors(t, ctx, vb, 3) == vb);
    assert(with_addends(t, ctx, vb, 3) == vb);
    assert(product_tail(t, 2) == 0 && product_value(t, ctx, 2) == vb);
    assert(sum_tail(t, 2) == 0 && sum_value(t, ctx, 2) == vb);
    assert(term_tail(t, 1) == 2 && term_value(t, ctx, 1) == vb);
    let whole = apply(Operator::Mul, va, vb);
    assert(factors_len(t, 4) == 0 && addends_len(t, 4) == 0);
    assert(with_factors(t, ctx, whole, 4) == whole);
    assert(with_addends(t, ctx, whole, 4) == whole);
    assert(factors_len(t, 1) == 3);
    assert(with_factors(t, ctx, va, 1) == apply(Operator::Mul, va, vb));
    assert(product_tail(t, 0) == 3);
}

/// Whether no token of `tokens` is a percentage of anything.
pub open spec fn is_absolute(tokens: Seq<TokenModel>) -> bool {
    forall|i: int|
        0 <= i < tokens.len() ==> !((#[trigger] tokens[i]) is Percentage)
            && !(tokens[i] is RootPercentage)
}

/// The value of a term of pixels does not depend on the context.
proof fn lemma_absolute_term(
    tokens: Seq<TokenModel>,
    one: ResolutionContext,
    other: ResolutionContext,
    pos: int,
)
    requires
        is_absolute(tokens),
    ensures
        term_value(tokens, one, pos) == term_value(tokens, other, pos),
    decreases left_from(tokens, pos), 0nat,
{
    if 0 <= pos < tokens.len() && tokens[pos] is OpenParen {
        lemma_absolute_sum(tokens, one, other, pos + 1);
    }
}

/// Factors of pixels do not depend on the context.
proof fn lemma_absolute_factors(
    tokens: Seq<TokenModel>,
    one: ResolutionContext,
    other: ResolutionContext,
    left: u64,
    pos: int,
)
    requires
        is_absolute(tokens),
    ensures
        with_factors(tokens, one, left, pos) == with_factors(tokens, other, left, pos),
    decreases left_from(tokens, pos), 1nat,
{
    if 0 <= pos < tokens.len() && (tokens[pos] is Mul || tokens[pos] is Div) {
        lemma_absolute_term(tokens, one, other, pos + 1);
        lemma_absolute_factors(
            tokens,
            one,
            other,
            apply(tokens[pos].operator(), left, term_value(tokens, one, pos + 1)),
            pos + 2 + term_tail(tokens, pos + 1),
        );
    } else if 0 <= pos < tokens.len() && tokens[pos] is OpenParen {
        lemma_absolute_term(tokens, one, other, pos);
        lemma_absolute_factors(
            tokens,
            one,
            other,
            apply(Operator::Mul, left, term_value(tokens, one, pos)),
            pos + 1 + term_tail(tokens, pos),
        );
    }
}

/// The value of a product of pixels does not depend on the context.
proof fn lemma_absolute_product(
    tokens: Seq<TokenModel>,
    one: ResolutionContext,
    other: ResolutionContext,
    pos: int,
)
    requires
        is_absolute(tokens),
    ensures
        product_value(tokens, one, pos) == product_value(tokens, other, pos),
    decreases left_from(tokens, pos), 2nat,
{
    if 0 <= pos < tokens.len() {
        lemma_absolute_term(tokens, one, other, pos);
        lemma_absolute_factors(
            tokens,
            one,
            other,
            term_value(tokens, one, pos),
            pos + 1 + term_tail(tokens, pos),
        );
    }
}

/// Addends of pixels do not depend on the context.
proof fn lemma_absolute_addends(
    tokens: Seq<TokenModel>,
    one: ResolutionContext,
    other: ResolutionContext,
    left: u64,
    pos: int,
)
    requires
        is_absolute(tokens),
    ensures
        with_addends(tokens, one, left, pos) == with_addends(tokens, other, left, pos),
    decreases left_from(tokens, pos), 0nat,
{
    if 0 <= pos < tokens.len() && (tokens[pos] is Add || tokens[pos] is Sub) {
        lemma_absolute_product(tokens, one, other, pos + 1);
        lemma_absolute_addends(
            tokens,
            one,
            other,
            apply(tokens[pos].operator(), left, product_value(tokens, one, pos + 1)),
            pos + 2 + product_tail(tokens, pos + 1),
        );
    }
}

/// The value of a sum of pixels does not depend on the context.
proof fn lemma_absolute_sum(
    tokens: Seq<TokenModel>,
    one: ResolutionContext,
    other: ResolutionContext,
    pos: int,
)
    requires
        is_absolute(tokens),
    ensures
        sum_value(tokens, one, pos) == sum_value(tokens, other, pos),
    decreases left_from(tokens, pos), 3nat,
{
    if 0 <= pos < tokens.len() {
        lemma_absolute_product(tokens, one, other, pos);
        lemma_absolute_addends(
            tokens,
            one,
            other,
            product_value(tokens, one, pos),
            pos + 1 + product_tail(tokens, pos),
        );
    }
}

/// An expression without percentages is worth the same in every context.
pub proof fn lemma_absolute_evaluation(
    tokens: Seq<TokenModel>,
    one: ResolutionContext,
    other: ResolutionContext,
)
    requires
        is_absolute(tokens),
    ensures
        evaluation(tokens, one) == evaluation(tokens, other),
{
    lemma_absolute_sum(tokens, one, other, 0);
}

} // verus!
