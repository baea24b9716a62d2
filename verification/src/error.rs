//! Why a text is not a size.

use vstd::prelude::*;

verus! {

/// The reason a text was refused.
#[derive(Clone, Copy, Debug, PartialEq, Eq, Structural)]
pub enum ParseError {
    /// A number could not be read: no digit where one had to be, a sign with
    /// nothing behind it, a point without digits, or a numeral that is too long.
    MalformedNumber,
    /// Something other than `%` or `v` is attached to a number.
    UnrecognizedUnit,
    /// A `)` without its `(`, or a `(` that is never closed.
    UnbalancedParentheses,
    /// Anything else: two operators in a row, an operator at the end, two
    /// numbers in a row, an empty expression, a byte with no meaning.
    InvalidExpressionStructure,
}

} // verus!
