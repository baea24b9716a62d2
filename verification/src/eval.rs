//! Resolving a size to a number of pixels.
//!
//! [`evaluate`] computes what an expression is worth with a stack of operands
//! and a stack of pending operators, and is proved to give what the grammar
//! says ([`evaluation`]).

use crate::binary64::{
    add_bits, div_bits, is_zero, mul_bits, non_negative, sub_bits, HUNDRED_BITS, ZERO_BITS,
};
use crate::size::{models, well_formed, well_formed_from, CalcToken, Operator, Size, TokenModel};
use crate::value::{
    addend_at, addends_len, apply, evaluation, factor_at, factors_len, operand_value, percent_of,
    product_tail, product_value, resolution, sum_tail, sum_value, term_tail, term_value,
    with_addends, with_factors, ResolutionContext,
};
use vstd::prelude::*;

verus! {

/// Computes `a op b`; a division by zero gives zero.
pub fn apply_operator(op: Operator, a: u64, b: u64) -> (r: u64)
    ensures
        r == apply(op, a, b),
{
    match op {
        Operator::Add => add_bits(a, b),
        Operator::Sub => sub_bits(a, b),
        Operator::Mul => mul_bits(a, b),
        Operator::Div => if is_zero(b) {
            ZERO_BITS
        } else {
            div_bits(a, b)
        },
    }
}

/// Computes `percentage / 100 * whole`.
pub fn percent(percentage: u64, whole: u64) -> (r: u64)
    ensures
        r == percent_of(percentage, whole),
{
    mul_bits(div_bits(percentage, HUNDRED_BITS), whole)
}

/// Computes what an expression is worth.
///
/// The tokens are read from left to right. An operand goes on the operand
/// stack. An operator first has applied what waits on the operator stack and
/// binds at least as tightly, then waits there itself. A `(` leaves a mark
/// there, after a `*` if it follows a term; a `)` has applied what waits
/// above the mark and removes it. At the end everything that waits is applied.
pub fn evaluate(tokens: &[CalcToken], ctx: ResolutionContext) -> (r: u64)
    requires
        well_formed(models(tokens@)),
    ensures
        r == evaluation(models(tokens@), ctx),
{
    let ghost t = models(tokens@);
    let mut vals: Vec<u64> = Vec::new();
    let mut ops: Vec<Pending> = Vec::new();
    let mut after = false;
    let mut i: usize = 0;
    proof {
        lemma_start(t, ctx);
        assert(vals@ =~= Seq::<u64>::empty());
        assert(ops@ =~= Seq::<Pending>::empty());
    }
    while i < tokens.len()
        invariant
            i <= tokens@.len(),
            t == models(tokens@),
            well_formed_from(t, i as int, groups_in(ops@), after),
            ordered(ops@),
            vals@.len() == operators_in(ops@) + (if after {
                1nat
            } else {
                0nat
            }),
            outcome(t, ctx, vals@, ops@, i as int, after) == sum_value(t, ctx, 0),
        decreases tokens@.len() - i,
    {
        let ghost depth = groups_in(ops@);
        proof {
            assert(t[i as int] == tokens@[i as int]@);
            lemma_next(t, i as int, depth, after);
        }
        match &tokens[i] {
            CalcToken::Pixels(number) => {
                proof {
                    lemma_push_operand(t, ctx, vals@, ops@, i as int);
                }
                vals.push(number.to_binary64());
                after = true;
            },
            CalcToken::Percentage(number) => {
                proof {
                    lemma_push_operand(t, ctx, vals@, ops@, i as int);
                }
                vals.push(percent(number.to_binary64(), ctx.parent_dimension));
                after = true;
            },
            CalcToken::RootPercentage(number) => {
                proof {
                    lemma_push_operand(t, ctx, vals@, ops@, i as int);
                }
                vals.push(percent(number.to_binary64(), ctx.root_dimension));
                after = true;
            },
            CalcToken::OpenParen => {
                if after {
                    settle(&mut vals, &mut ops, true, Ghost(t), Ghost(ctx), Ghost(i as int));
                    proof {
                        lemma_multiply_group(t, ctx, vals@, ops@, i as int);
                        lemma_push_keeps_order(ops@, Operator::Mul);
                        lemma_pushed(ops@, Pending::Apply(Operator::Mul));
                    }
                    ops.push(Pending::Apply(Operator::Mul));
                } else {
                    proof {
                        lemma_open_group(t, ctx, vals@, ops@, i as int);
                    }
                }
                proof {
                    lemma_pushed(ops@, Pending::Group);
                }
                ops.push(Pending::Group);
                after = false;
            },
            CalcToken::CloseParen => {
                settle(&mut vals, &mut ops, false, Ghost(t), Ghost(ctx), Ghost(i as int));
                proof {
                    lemma_close_group(t, ctx, vals@, ops@, i as int);
                    lemma_popped(ops@);
                }
                ops.pop();
            },
            CalcToken::Add => {
                settle(&mut vals, &mut ops, false, Ghost(t), Ghost(ctx), Ghost(i as int));
                proof {
                    lemma_push_loose(t, ctx, vals@, ops@, i as int);
                    lemma_push_keeps_order(ops@, Operator::Add);
                    lemma_pushed(ops@, Pending::Apply(Operator::Add));
                }
                ops.push(Pending::Apply(Operator::Add));
                after = false;
            },
            CalcToken::Sub => {
                settle(&mut vals, &mut ops, false, Ghost(t), Ghost(ctx), Ghost(i as int));
                proof {
                    lemma_push_loose(t, ctx, vals@, ops@, i as int);
                    lemma_push_keeps_order(ops@, Operator::Sub);
                    lemma_pushed(ops@, Pending::Apply(Operator::Sub));
                }
                ops.push(Pending::Apply(Operator::Sub));
                after = false;
            },
            CalcToken::Mul => {
                settle(&mut vals, &mut ops, true, Ghost(t), Ghost(ctx), Ghost(i as int));
                proof {
                    lemma_push_tight(t, ctx, vals@, ops@, i as int);
                    lemma_push_keeps_order(ops@, Operator::Mul);
                    lemma_pushed(ops@, Pending::Apply(Operator::Mul));
                }
                ops.push(Pending::Apply(Operator::Mul));
                after = false;
            },
            CalcToken::Div => {
                settle(&mut vals, &mut ops, true, Ghost(t), Ghost(ctx), Ghost(i as int));
                proof {
                    lemma_push_tight(t, ctx, vals@, ops@, i as int);
                    lemma_push_keeps_order(ops@, Operator::Div);
                    lemma_pushed(ops@, Pending::Apply(Operator::Div));
                }
                ops.push(Pending::Apply(Operator::Div));
                after = false;
            },
        }
        i += 1;
    }
    settle(&mut vals, &mut ops, false, Ghost(t), Ghost(ctx), Ghost(i as int));
    proof {
        lemma_popped(ops@);
        assert(ops@ =~= Seq::<Pending>::empty());
        assert(vals@ =~= seq![vals@[0]]);
        lemma_finish(t, ctx, vals@[0], i as int);
    }
    non_negative(vals[0])
}

/// Resolves a size to a number of pixels.
pub fn resolve(size: &Size, ctx: ResolutionContext) -> (r: u64)
    requires
        size@.well_formed(),
    ensures
        r == resolution(size@, ctx),
{
    match size {
        Size::Pixels(number) => number.to_binary64(),
        Size::Percentage(number) => percent(number.to_binary64(), ctx.parent_dimension),
        Size::Inner => ctx.measured_content_size,
        Size::Calculation(scale, tokens) => non_negative(
            mul_bits(evaluate(tokens.as_slice(), ctx), scale.to_binary64()),
        ),
    }
}

/// Evaluating the same tokens in the same context gives the same bits,
/// however often it is done.
pub proof fn lemma_evaluate_repeats(
    tokens: &[CalcToken],
    ctx: ResolutionContext,
    first: u64,
    second: u64,
)
    requires
        call_ensures(evaluate, (tokens, ctx), first),
        call_ensures(evaluate, (tokens, ctx), second),
    ensures
        first == second,
{
}

/// Resolving the same size in the same context gives the same bits, however
/// often it is done.
pub proof fn lemma_resolve_repeats(size: &Size, ctx: ResolutionContext, first: u64, second: u64)
    requires
        call_ensures(resolve, (size, ctx), first),
        call_ensures(resolve, (size, ctx), second),
    ensures
        first == second,
{
}

/// What waits on the operator stack: an operator whose right operand is
/// still to come, or the mark of a group that is open.
#[derive(Clone, Copy, Debug, PartialEq, Eq, Structural)]
enum Pending {
    Apply(Operator),
    Group,
}

/// Tells whether `op` is `*` or `/`.
fn binds_tighter(op: Operator) -> (r: bool)
    ensures
        r == op.binds_tighter(),
{
    match op {
        Operator::Mul | Operator::Div => true,
        _ => false,
    }
}

/// Applies the operators on top of `ops` to the operands on top of `vals`:
/// only `*` and `/` if `tight_only`, else all down to the mark of the
/// innermost open group.
fn settle(
    vals: &mut Vec<u64>,
    ops: &mut Vec<Pending>,
    tight_only: bool,
    Ghost(tokens): Ghost<Seq<TokenModel>>,
    Ghost(ctx): Ghost<ResolutionContext>,
    Ghost(pos): Ghost<int>,
)
    requires
        ordered(old(ops)@),
        old(vals)@.len() == operators_in(old(ops)@) + 1,
        !tight_only ==> !factor_at(tokens, pos),
    ensures
        ordered(final(ops)@),
        final(vals)@.len() == operators_in(final(ops)@) + 1,
        groups_in(final(ops)@) == groups_in(old(ops)@),
        outcome(tokens, ctx, final(vals)@, final(ops)@, pos, true) == outcome(
            tokens,
            ctx,
            old(vals)@,
            old(ops)@,
            pos,
            true,
        ),
        !tight_on_top(final(ops)@),
        !tight_only ==> !loose_on_top(final(ops)@),
{
    let mut going = true;
    while going
        invariant
            ordered(ops@),
            vals@.len() == operators_in(ops@) + 1,
            groups_in(ops@) == groups_in(old(ops)@),
            outcome(tokens, ctx, vals@, ops@, pos, true) == outcome(
                tokens,
                ctx,
                old(vals)@,
                old(ops)@,
                pos,
                true,
            ),
            !tight_only ==> !factor_at(tokens, pos),
            !going ==> !tight_on_top(ops@),
            !going && !tight_only ==> !loose_on_top(ops@),
        decreases ops@.len() + (if going { 1nat } else { 0nat }),
    {
        if ops.len() == 0 {
            going = false;
        } else {
            match ops[ops.len() - 1] {
                Pending::Group => {
                    going = false;
                },
                Pending::Apply(op) => {
                    if tight_only && !binds_tighter(op) {
                        going = false;
                    } else {
                        let ghost before_vals = vals@;
                        let ghost before_ops = ops@;
                        ops.pop();
                        let right = vals.pop().unwrap();
                        let left = vals.pop().unwrap();
                        vals.push(apply_operator(op, left, right));
                        proof {
                            let below = before_vals.drop_last();
                            assert(vals@.drop_last() =~= below.drop_last());
                            assert(ops@ =~= before_ops.drop_last());
                            assert(left == below.last());
                            if !op.binds_tighter() {
                                assert(!tight_on_top(ops@));
                                assert(after_term(tokens, ctx, below, before_ops, right, pos)
                                    == after_product(tokens, ctx, below, before_ops, right, pos));
                                assert(after_term(
                                    tokens,
                                    ctx,
                                    vals@.drop_last(),
                                    ops@,
                                    vals@.last(),
                                    pos,
                                ) == after_product(
                                    tokens,
                                    ctx,
                                    vals@.drop_last(),
                                    ops@,
                                    vals@.last(),
                                    pos,
                                ));
                            }
                        }
                    }
                },
            }
        }
    }
}

/// The number of operators among `ops`.
spec fn operators_in(ops: Seq<Pending>) -> nat
    decreases ops.len(),
{
    if ops.len() == 0 {
        0
    } else if ops.last() is Apply {
        operators_in(ops.drop_last()) + 1
    } else {
        operators_in(ops.drop_last())
    }
}

/// The number of group marks among `ops`.
spec fn groups_in(ops: Seq<Pending>) -> nat
    decreases ops.len(),
{
    if ops.len() == 0 {
        0
    } else if ops.last() is Group {
        groups_in(ops.drop_last()) + 1
    } else {
        groups_in(ops.drop_last())
    }
}

/// Whether `*` or `/` is on top of `ops`.
spec fn tight_on_top(ops: Seq<Pending>) -> bool {
    ops.len() > 0 && ops.last() is Apply && ops.last()->Apply_0.binds_tighter()
}

/// Whether `+` or `-` is on top of `ops`.
spec fn loose_on_top(ops: Seq<Pending>) -> bool {
    ops.len() > 0 && ops.last() is Apply && !ops.last()->Apply_0.binds_tighter()
}

/// Whether each operator that lies directly on another binds tighter than it.
spec fn ordered(ops: Seq<Pending>) -> bool
    decreases ops.len(),
{
    if ops.len() <= 1 {
        true
    } else {
        let below = ops.drop_last();
        ordered(below) && (ops.last() is Apply && below.last() is Apply ==> tight_on_top(ops)
            && loose_on_top(below))
    }
}

/// What the whole expression is worth, given that a term worth `value` ends
/// before `pos`, with `vals` and `ops` on the stacks below it.
spec fn after_term(
    tokens: Seq<TokenModel>,
    ctx: ResolutionContext,
    vals: Seq<u64>,
    ops: Seq<Pending>,
    value: u64,
    pos: int,
) -> u64
    decreases ops.len(), 2nat,
{
    if tight_on_top(ops) {
        after_term(
            tokens,
            ctx,
            vals.drop_last(),
            ops.drop_last(),
            apply(ops.last()->Apply_0, vals.last(), value),
            pos,
        )
    } else {
        after_product(
            tokens,
            ctx,
            vals,
            ops,
            with_factors(tokens, ctx, value, pos),
            pos + factors_len(tokens, pos),
        )
    }
}

/// What the whole expression is worth, given that a product worth `value`
/// ends before `pos`.
spec fn after_product(
    tokens: Seq<TokenModel>,
    ctx: ResolutionContext,
    vals: Seq<u64>,
    ops: Seq<Pending>,
    value: u64,
    pos: int,
) -> u64
    decreases ops.len(), 1nat,
{
    if loose_on_top(ops) {
        after_product(
            tokens,
            ctx,
            vals.drop_last(),
            ops.drop_last(),
            apply(ops.last()->Apply_0, vals.last(), value),
            pos,
        )
    } else {
        after_sum(
            tokens,
            ctx,
            vals,
            ops,
            with_addends(tokens, ctx, value, pos),
            pos + addends_len(tokens, pos),
        )
    }
}

/// What the whole expression is worth, given that a sum worth `value` ends
/// before `pos`: the sum itself, or what follows from the group that it fills.
spec fn after_sum(
    tokens: Seq<TokenModel>,
    ctx: ResolutionContext,
    vals: Seq<u64>,
    ops: Seq<Pending>,
    value: u64,
    pos: int,
) -> u64
    decreases ops.len(), 0nat,
{
    if ops.len() > 0 {
        after_term(tokens, ctx, vals, ops.drop_last(), value, pos + 1)
    } else {
        value
    }
}

/// What the whole expression is worth, as seen from the stacks at `pos`.
/// After a term its value is on top of `vals`; else a term begins at `pos`.
spec fn outcome(
    tokens: Seq<TokenModel>,
    ctx: ResolutionContext,
    vals: Seq<u64>,
    ops: Seq<Pending>,
    pos: int,
    after: bool,
) -> u64 {
    if after {
        after_term(tokens, ctx, vals.drop_last(), ops, vals.last(), pos)
    } else {
        after_term(
            tokens,
            ctx,
            vals,
            ops,
            term_value(tokens, ctx, pos),
            pos + 1 + term_tail(tokens, pos),
        )
    }
}

proof fn lemma_start(tokens: Seq<TokenModel>, ctx: ResolutionContext)
    requires
        tokens.len() > 0,
    ensures
        outcome(tokens, ctx, Seq::<u64>::empty(), Seq::<Pending>::empty(), 0, false) == sum_value(
            tokens,
            ctx,
            0,
        ),
{
    let vals = Seq::<u64>::empty();
    let ops = Seq::<Pending>::empty();
    let first = term_value(tokens, ctx, 0);
    let behind_term = 0int + 1 + term_tail(tokens, 0);
    let product = with_factors(tokens, ctx, first, behind_term);
    let behind_product = behind_term + factors_len(tokens, behind_term);
    let sum = with_addends(tokens, ctx, product, behind_product);
    let behind_sum = behind_product + addends_len(tokens, behind_product);
    assert(after_term(tokens, ctx, vals, ops, first, behind_term) == after_product(
        tokens,
        ctx,
        vals,
        ops,
        product,
        behind_product,
    ));
    assert(after_product(tokens, ctx, vals, ops, product, behind_product) == after_sum(
        tokens,
        ctx,
        vals,
        ops,
        sum,
        behind_sum,
    ));
    assert(product == product_value(tokens, ctx, 0));
    assert(behind_product == 1 + product_tail(tokens, 0));
}

proof fn lemma_push_operand(
    tokens: Seq<TokenModel>,
    ctx: ResolutionContext,
    vals: Seq<u64>,
    ops: Seq<Pending>,
    pos: int,
)
    requires
        0 <= pos < tokens.len(),
        tokens[pos].is_operand(),
    ensures
        outcome(tokens, ctx, vals.push(operand_value(tokens[pos], ctx)), ops, pos + 1, true)
            == outcome(tokens, ctx, vals, ops, pos, false),
{
    assert(vals.push(operand_value(tokens[pos], ctx)).drop_last() =~= vals);
}

proof fn lemma_open_group(
    tokens: Seq<TokenModel>,
    ctx: ResolutionContext,
    vals: Seq<u64>,
    ops: Seq<Pending>,
    pos: int,
)
    requires
        0 <= pos,
        pos + 1 < tokens.len(),
        tokens[pos] is OpenParen,
    ensures
        outcome(tokens, ctx, vals, ops.push(Pending::Group), pos + 1, false) == outcome(
            tokens,
            ctx,
            vals,
            ops,
            pos,
            false,
        ),
{
    let inner = ops.push(Pending::Group);
    assert(inner.drop_last() =~= ops);
    let first = term_value(tokens, ctx, pos + 1);
    let behind_term = pos + 2 + term_tail(tokens, pos + 1);
    let product = with_factors(tokens, ctx, first, behind_term);
    let behind_product = behind_term + factors_len(tokens, behind_term);
    let sum = with_addends(tokens, ctx, product, behind_product);
    let behind_sum = behind_product + addends_len(tokens, behind_product);
    assert(after_term(tokens, ctx, vals, inner, first, behind_term) == after_product(
        tokens,
        ctx,
        vals,
        inner,
        product,
        behind_product,
    ));
    assert(after_product(tokens, ctx, vals, inner, product, behind_product) == after_sum(
        tokens,
        ctx,
        vals,
        inner,
        sum,
        behind_sum,
    ));
    assert(after_sum(tokens, ctx, vals, inner, sum, behind_sum) == after_term(
        tokens,
        ctx,
        vals,
        ops,
        sum,
        behind_sum + 1,
    ));
    assert(product == product_value(tokens, ctx, pos + 1));
    assert(behind_product == pos + 2 + product_tail(tokens, pos + 1));
    assert(sum == sum_value(tokens, ctx, pos + 1));
    assert(behind_sum == pos + 2 + sum_tail(tokens, pos + 1));
}

proof fn lemma_multiply_group(
    tokens: Seq<TokenModel>,
    ctx: ResolutionContext,
    vals: Seq<u64>,
    ops: Seq<Pending>,
    pos: int,
)
    requires
        0 <= pos,
        pos + 1 < tokens.len(),
        tokens[pos] is OpenParen,
        !tight_on_top(ops),
        vals.len() > 0,
    ensures
        outcome(
            tokens,
            ctx,
            vals,
            ops.push(Pending::Apply(Operator::Mul)).push(Pending::Group),
            pos + 1,
            false,
        ) == outcome(tokens, ctx, vals, ops, pos, true),
{
    let pushed = ops.push(Pending::Apply(Operator::Mul));
    assert(pushed.drop_last() =~= ops);
    assert(tight_on_top(pushed));
    lemma_open_group(tokens, ctx, vals, pushed, pos);
    let right = term_value(tokens, ctx, pos);
    let behind_term = pos + 1 + term_tail(tokens, pos);
    let joined = apply(Operator::Mul, vals.last(), right);
    assert(after_term(tokens, ctx, vals, pushed, right, behind_term) == after_term(
        tokens,
        ctx,
        vals.drop_last(),
        ops,
        joined,
        behind_term,
    ));
    assert(with_factors(tokens, ctx, vals.last(), pos) == with_factors(
        tokens,
        ctx,
        joined,
        behind_term,
    ));
    assert(factors_len(tokens, pos) == 1 + term_tail(tokens, pos) + factors_len(
        tokens,
        behind_term,
    ));
}

proof fn lemma_push_tight(
    tokens: Seq<TokenModel>,
    ctx: ResolutionContext,
    vals: Seq<u64>,
    ops: Seq<Pending>,
    pos: int,
)
    requires
        0 <= pos < tokens.len(),
        tokens[pos] is Mul || tokens[pos] is Div,
        !tight_on_top(ops),
        vals.len() > 0,
    ensures
        outcome(
            tokens,
            ctx,
            vals,
            ops.push(Pending::Apply(tokens[pos].operator())),
            pos + 1,
            false,
        ) == outcome(tokens, ctx, vals, ops, pos, true),
{
    let op = tokens[pos].operator();
    let pushed = ops.push(Pending::Apply(op));
    assert(pushed.drop_last() =~= ops);
    assert(tight_on_top(pushed));
    let right = term_value(tokens, ctx, pos + 1);
    let behind_term = pos + 2 + term_tail(tokens, pos + 1);
    let joined = apply(op, vals.last(), right);
    assert(after_term(tokens, ctx, vals, pushed, right, behind_term) == after_term(
        tokens,
        ctx,
        vals.drop_last(),
        ops,
        joined,
        behind_term,
    ));
    assert(with_factors(tokens, ctx, vals.last(), pos) == with_factors(
        tokens,
        ctx,
        joined,
        behind_term,
    ));
    assert(factors_len(tokens, pos) == 2 + term_tail(tokens, pos + 1) + factors_len(
        tokens,
        behind_term,
    ));
}

proof fn lemma_push_loose(
    tokens: Seq<TokenModel>,
    ctx: ResolutionContext,
    vals: Seq<u64>,
    ops: Seq<Pending>,
    pos: int,
)
    requires
        0 <= pos,
        pos + 1 < tokens.len(),
        tokens[pos] is Add || tokens[pos] is Sub,
        !tight_on_top(ops),
        !loose_on_top(ops),
        vals.len() > 0,
    ensures
        outcome(
            tokens,
            ctx,
            vals,
            ops.push(Pending::Apply(tokens[pos].operator())),
            pos + 1,
            false,
        ) == outcome(tokens, ctx, vals, ops, pos, true),
{
    let op = tokens[pos].operator();
    let pushed = ops.push(Pending::Apply(op));
    assert(pushed.drop_last() =~= ops);
    assert(loose_on_top(pushed));
    let below = vals.drop_last();
    let left = vals.last();
    // What the stacks say after the operator is pushed.
    let first = term_value(tokens, ctx, pos + 1);
    let behind_term = pos + 2 + term_tail(tokens, pos + 1);
    let right = with_factors(tokens, ctx, first, behind_term);
    let behind_product = behind_term + factors_len(tokens, behind_term);
    let joined = apply(op, left, right);
    assert(after_term(tokens, ctx, vals, pushed, first, behind_term) == after_product(
        tokens,
        ctx,
        vals,
        pushed,
        right,
        behind_product,
    ));
    assert(after_product(tokens, ctx, vals, pushed, right, behind_product) == after_product(
        tokens,
        ctx,
        below,
        ops,
        joined,
        behind_product,
    ));
    assert(right == product_value(tokens, ctx, pos + 1));
    assert(behind_product == pos + 2 + product_tail(tokens, pos + 1));
    // What they said before.
    assert(with_factors(tokens, ctx, left, pos) == left);
    assert(factors_len(tokens, pos) == 0);
    assert(after_term(tokens, ctx, below, ops, left, pos) == after_product(
        tokens,
        ctx,
        below,
        ops,
        left,
        pos,
    ));
    assert(with_addends(tokens, ctx, left, pos) == with_addends(
        tokens,
        ctx,
        joined,
        behind_product,
    ));
    assert(addends_len(tokens, pos) == 2 + product_tail(tokens, pos + 1) + addends_len(
        tokens,
        behind_product,
    ));
}

proof fn lemma_close_group(
    tokens: Seq<TokenModel>,
    ctx: ResolutionContext,
    vals: Seq<u64>,
    ops: Seq<Pending>,
    pos: int,
)
    requires
        !factor_at(tokens, pos),
        !addend_at(tokens, pos),
        ops.len() > 0,
        ops.last() is Group,
        vals.len() > 0,
    ensures
        outcome(tokens, ctx, vals, ops.drop_last(), pos + 1, true) == outcome(
            tokens,
            ctx,
            vals,
            ops,
            pos,
            true,
        ),
{
    let below = vals.drop_last();
    let value = vals.last();
    assert(after_term(tokens, ctx, below, ops, value, pos) == after_product(
        tokens,
        ctx,
        below,
        ops,
        value,
        pos,
    ));
    assert(after_product(tokens, ctx, below, ops, value, pos) == after_sum(
        tokens,
        ctx,
        below,
        ops,
        value,
        pos,
    ));
}

proof fn lemma_finish(tokens: Seq<TokenModel>, ctx: ResolutionContext, value: u64, pos: int)
    requires
        pos >= tokens.len(),
    ensures
        outcome(tokens, ctx, seq![value], Seq::<Pending>::empty(), pos, true) == value,
{
    let vals = seq![value];
    let ops = Seq::<Pending>::empty();
    assert(vals.last() == value);
    assert(after_term(tokens, ctx, vals.drop_last(), ops, value, pos) == after_product(
        tokens,
        ctx,
        vals.drop_last(),
        ops,
        value,
        pos,
    ));
    assert(after_product(tokens, ctx, vals.drop_last(), ops, value, pos) == after_sum(
        tokens,
        ctx,
        vals.drop_last(),
        ops,
        value,
        pos,
    ));
}

/// What the token at `pos` says of what may follow it.
proof fn lemma_next(tokens: Seq<TokenModel>, pos: int, depth: nat, after: bool)
    requires
        0 <= pos < tokens.len(),
        well_formed_from(tokens, pos, depth, after),
    ensures
        tokens[pos].is_operand() ==> !after && well_formed_from(tokens, pos + 1, depth, true),
        tokens[pos].is_operator() ==> after && pos + 1 < tokens.len() && well_formed_from(
            tokens,
            pos + 1,
            depth,
            false,
        ),
        tokens[pos] is OpenParen ==> pos + 1 < tokens.len() && well_formed_from(
            tokens,
            pos + 1,
            depth + 1,
            false,
        ),
        tokens[pos] is CloseParen ==> after && depth > 0 && well_formed_from(
            tokens,
            pos + 1,
            (depth - 1) as nat,
            true,
        ),
{
    reveal_with_fuel(well_formed_from, 2);
}

/// What a push does to the counts, and that a mark keeps the order.
proof fn lemma_pushed(ops: Seq<Pending>, item: Pending)
    ensures
        operators_in(ops.push(item)) == operators_in(ops) + (if item is Apply {
            1nat
        } else {
            0nat
        }),
        groups_in(ops.push(item)) == groups_in(ops) + (if item is Group {
            1nat
        } else {
            0nat
        }),
        item is Group && ordered(ops) ==> ordered(ops.push(item)),
{
    assert(ops.push(item).drop_last() =~= ops);
}

/// What a pop does to the counts, and that it keeps the order.
proof fn lemma_popped(ops: Seq<Pending>)
    ensures
        ops.len() > 0 ==> operators_in(ops) == operators_in(ops.drop_last()) + (if ops.last()
            is Apply {
            1nat
        } else {
            0nat
        }),
        ops.len() > 0 ==> groups_in(ops) == groups_in(ops.drop_last()) + (if ops.last() is Group {
            1nat
        } else {
            0nat
        }),
        ops.len() > 0 && ordered(ops) ==> ordered(ops.drop_last()),
        ops.len() > 0 ==> ops.subrange(0, ops.len() - 1) == ops.drop_last(),
        ops.len() == 0 ==> groups_in(ops) == 0 && operators_in(ops) == 0,
{
}

/// An operator may be put on a stack whose top does not bind as tightly.
proof fn lemma_push_keeps_order(ops: Seq<Pending>, op: Operator)
    requires
        ordered(ops),
        !tight_on_top(ops),
        !op.binds_tighter() ==> !loose_on_top(ops),
    ensures
        ordered(ops.push(Pending::Apply(op))),
{
    assert(ops.push(Pending::Apply(op)).drop_last() =~= ops);
}

} // verus!
