//! The sizes that a text can denote, and the tokens of a calculation.

use crate::length::Length;
use crate::numeral::Decimal;
use vstd::prelude::*;
use vstd::std_specs::cmp::PartialEqSpecImpl;

verus! {

/// One token of a calculation.
#[derive(Clone, Debug)]
pub enum CalcToken {
    /// A number of pixels.
    Pixels(Length),
    /// A percentage of the parent's size.
    Percentage(Length),
    /// A percentage of the root's size.
    RootPercentage(Length),
    Add,
    Sub,
    Mul,
    Div,
    OpenParen,
    CloseParen,
}

/// One of the four operators.
#[derive(Clone, Copy, Debug, PartialEq, Eq, Structural)]
pub enum Operator {
    Add,
    Sub,
    Mul,
    Div,
}

impl Operator {
    /// Whether the operator is `*` or `/`, which bind tighter than `+` and `-`.
    pub open spec fn binds_tighter(self) -> bool {
        self is Mul || self is Div
    }
}

/// The model of a [`CalcToken`].
pub enum TokenModel {
    Pixels(Decimal),
    Percentage(Decimal),
    RootPercentage(Decimal),
    Add,
    Sub,
    Mul,
    Div,
    OpenParen,
    CloseParen,
}

impl TokenModel {
    /// Whether the token is a number, with or without a unit.
    pub open spec fn is_operand(self) -> bool {
        self is Pixels || self is Percentage || self is RootPercentage
    }

    /// Whether the token is one of `+ - * /`.
    pub open spec fn is_operator(self) -> bool {
        self is Add || self is Sub || self is Mul || self is Div
    }

    /// The operator that an operator token stands for.
    pub open spec fn operator(self) -> Operator
        recommends
            self.is_operator(),
    {
        match self {
            TokenModel::Add => Operator::Add,
            TokenModel::Sub => Operator::Sub,
            TokenModel::Mul => Operator::Mul,
            _ => Operator::Div,
        }
    }

    /// The number of an operand.
    pub open spec fn number(self) -> Decimal
        recommends
            self.is_operand(),
    {
        match self {
            TokenModel::Pixels(d) => d,
            TokenModel::Percentage(d) => d,
            TokenModel::RootPercentage(d) => d,
            _ => Decimal::one(),
        }
    }
}

impl View for CalcToken {
    type V = TokenModel;

    open spec fn view(&self) -> TokenModel {
        match self {
            CalcToken::Pixels(l) => TokenModel::Pixels(l@),
            CalcToken::Percentage(l) => TokenModel::Percentage(l@),
            CalcToken::RootPercentage(l) => TokenModel::RootPercentage(l@),
            CalcToken::Add => TokenModel::Add,
            CalcToken::Sub => TokenModel::Sub,
            CalcToken::Mul => TokenModel::Mul,
            CalcToken::Div => TokenModel::Div,
            CalcToken::OpenParen => TokenModel::OpenParen,
            CalcToken::CloseParen => TokenModel::CloseParen,
        }
    }
}

/// The models of the tokens of `tokens`, in order.
pub open spec fn models(tokens: Seq<CalcToken>) -> Seq<TokenModel> {
    Seq::new(tokens.len(), |i: int| tokens[i]@)
}

/// Whether the tokens from `pos` on can end an expression that has `depth`
/// parentheses open at `pos`, where `after_term` says whether a number or a
/// `)` stands before `pos`.
///
/// A number stands only where a term is expected. An operator stands only
/// after a term, and expects one. A `(` expects a term; after a term it
/// multiplies. A `)` stands only after a term and closes a `(`. At the end a
/// term came last and nothing is open.
pub open spec fn well_formed_from(
    tokens: Seq<TokenModel>,
    pos: int,
    depth: nat,
    after_term: bool,
) -> bool
    decreases tokens.len() - pos,
{
    if pos < 0 {
        false
    } else if pos >= tokens.len() {
        after_term && depth == 0
    } else if tokens[pos].is_operand() {
        !after_term && well_formed_from(tokens, pos + 1, depth, true)
    } else if tokens[pos].is_operator() {
        after_term && well_formed_from(tokens, pos + 1, depth, false)
    } else if tokens[pos] is OpenParen {
        well_formed_from(tokens, pos + 1, depth + 1, false)
    } else {
        after_term && depth > 0 && well_formed_from(tokens, pos + 1, (depth - 1) as nat, true)
    }
}

/// Whether `tokens` is an expression: operands and groups with an operator
/// between each two, except that a group may follow a term directly;
/// parentheses that balance; at least one operand.
pub open spec fn well_formed(tokens: Seq<TokenModel>) -> bool {
    well_formed_from(tokens, 0, 0, false)
}

/// Whether the number of each operand among `tokens` is well formed.
pub open spec fn numbers_wf(tokens: Seq<TokenModel>) -> bool {
    forall|i: int|
        0 <= i < tokens.len() && (#[trigger] tokens[i]).is_operand() ==> tokens[i].number().wf()
}

/// Well-formedness from `pos + 1` on is that of the tokens without the first
/// from `pos` on.
pub proof fn lemma_well_formed_shift(
    tokens: Seq<TokenModel>,
    pos: int,
    depth: nat,
    after_term: bool,
)
    requires
        tokens.len() > 0,
        pos >= 0,
    ensures
        well_formed_from(tokens, pos + 1, depth, after_term) == well_formed_from(
            tokens.drop_first(),
            pos,
            depth,
            after_term,
        ),
    decreases tokens.len() - pos,
{
    let rest = tokens.drop_first();
    if pos < rest.len() {
        assert(tokens[pos + 1] == rest[pos]);
        if rest[pos].is_operand() {
            lemma_well_formed_shift(tokens, pos + 1, depth, true);
        } else if rest[pos].is_operator() {
            lemma_well_formed_shift(tokens, pos + 1, depth, false);
        } else if rest[pos] is OpenParen {
            lemma_well_formed_shift(tokens, pos + 1, depth + 1, false);
        } else if depth > 0 {
            lemma_well_formed_shift(tokens, pos + 1, (depth - 1) as nat, true);
        }
    }
}

/// A size as it was written.
#[derive(Clone, Debug)]
pub enum Size {
    /// A number of pixels.
    Pixels(Length),
    /// A percentage of the parent's size.
    Percentage(Length),
    /// The size of the content.
    Inner,
    /// A calculation: a factor for its result, and its tokens in the order
    /// in which they were written.
    Calculation(Length, Vec<CalcToken>),
}

/// The model of a [`Size`].
pub enum SizeModel {
    Pixels(Decimal),
    Percentage(Decimal),
    Inner,
    Calculation(Decimal, Seq<TokenModel>),
}

impl SizeModel {
    /// What holds of every size that was read from a text: its numbers are
    /// well formed, and a calculation has the factor one and tokens that are
    /// an expression.
    pub open spec fn canonical(self) -> bool {
        match self {
            SizeModel::Pixels(d) => d.wf(),
            SizeModel::Percentage(d) => d.wf(),
            SizeModel::Inner => true,
            SizeModel::Calculation(scale, tokens) => scale == Decimal::one() && well_formed(tokens)
                && numbers_wf(tokens),
        }
    }

    /// Whether the tokens of a calculation are an expression. Every other
    /// size is well formed.
    pub open spec fn well_formed(self) -> bool {
        match self {
            SizeModel::Calculation(_, tokens) => well_formed(tokens),
            _ => true,
        }
    }
}

impl View for Size {
    type V = SizeModel;

    open spec fn view(&self) -> SizeModel {
        match self {
            Size::Pixels(l) => SizeModel::Pixels(l@),
            Size::Percentage(l) => SizeModel::Percentage(l@),
            Size::Inner => SizeModel::Inner,
            Size::Calculation(scale, tokens) => SizeModel::Calculation(scale@, models(tokens@)),
        }
    }
}

impl PartialEq for CalcToken {
    fn eq(&self, other: &CalcToken) -> (r: bool) {
        match (self, other) {
            (CalcToken::Pixels(a), CalcToken::Pixels(b)) => a == b,
            (CalcToken::Percentage(a), CalcToken::Percentage(b)) => a == b,
            (CalcToken::RootPercentage(a), CalcToken::RootPercentage(b)) => a == b,
            (CalcToken::Add, CalcToken::Add) => true,
            (CalcToken::Sub, CalcToken::Sub) => true,
            (CalcToken::Mul, CalcToken::Mul) => true,
            (CalcToken::Div, CalcToken::Div) => true,
            (CalcToken::OpenParen, CalcToken::OpenParen) => true,
            (CalcToken::CloseParen, CalcToken::CloseParen) => true,
            _ => false,
        }
    }
}

impl PartialEqSpecImpl for CalcToken {
    open spec fn obeys_eq_spec() -> bool {
        true
    }

    /// Two tokens are equal when they are of the same kind and hold the same number.
    open spec fn eq_spec(&self, other: &CalcToken) -> bool {
        self@ == other@
    }
}

/// Tells whether two token sequences are equal, token by token.
fn same_tokens(a: &[CalcToken], b: &[CalcToken]) -> (r: bool)
    ensures
        r == (models(a@) == models(b@)),
{
    if a.len() != b.len() {
        proof {
            assert(models(a@).len() != models(b@).len());
        }
        return false;
    }
    let mut i: usize = 0;
    while i < a.len()
        invariant
            a@.len() == b@.len(),
            i <= a@.len(),
            forall|k: int| 0 <= k < i ==> (#[trigger] a@[k])@ == b@[k]@,
        decreases a@.len() - i,
    {
        if a[i] != b[i] {
            proof {
                assert(models(a@)[i as int] != models(b@)[i as int]);
            }
            return false;
        }
        i += 1;
    }
    proof {
        assert(models(a@) =~= models(b@));
    }
    true
}

impl PartialEq for Size {
    fn eq(&self, other: &Size) -> (r: bool) {
        match (self, other) {
            (Size::Pixels(a), Size::Pixels(b)) => a == b,
            (Size::Percentage(a), Size::Percentage(b)) => a == b,
            (Size::Inner, Size::Inner) => true,
            (Size::Calculation(s, a), Size::Calculation(t, b)) => s == t && same_tokens(
                a.as_slice(),
                b.as_slice(),
            ),
            _ => false,
        }
    }
}

impl PartialEqSpecImpl for Size {
    open spec fn obeys_eq_spec() -> bool {
        true
    }

    /// Two sizes are equal when they are of the same kind, with the same
    /// numbers and, for a calculation, the same tokens.
    open spec fn eq_spec(&self, other: &Size) -> bool {
        self@ == other@
    }
}

/// Tells whether `tokens` is an expression.
pub fn is_well_formed(tokens: &[CalcToken]) -> (r: bool)
    ensures
        r == well_formed(models(tokens@)),
{
    let mut pos: usize = 0;
    let mut depth: usize = 0;
    let mut after_term = false;
    while pos < tokens.len()
        invariant
            pos <= tokens@.len(),
            depth <= pos,
            well_formed(models(tokens@)) == well_formed_from(
                models(tokens@),
                pos as int,
                depth as nat,
                after_term,
            ),
        decreases tokens@.len() - pos,
    {
        match &tokens[pos] {
            CalcToken::Pixels(_) | CalcToken::Percentage(_) | CalcToken::RootPercentage(_) => {
                if after_term {
                    return false;
                }
                after_term = true;
            },
            CalcToken::Add | CalcToken::Sub | CalcToken::Mul | CalcToken::Div => {
                if !after_term {
                    return false;
                }
                after_term = false;
            },
            CalcToken::OpenParen => {
                depth += 1;
                after_term = false;
            },
            CalcToken::CloseParen => {
                if !after_term || depth == 0 {
                    return false;
                }
                depth -= 1;
            },
        }
        pos += 1;
    }
    after_term && depth == 0
}

impl Size {
    /// Tells whether the size is well formed.
    pub fn is_well_formed(&self) -> (r: bool)
        ensures
            r == self@.well_formed(),
    {
        match self {
            Size::Calculation(_, tokens) => is_well_formed(tokens.as_slice()),
            _ => true,
        }
    }
}

} // verus!
