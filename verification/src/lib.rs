//! Sizes of layout boxes written as text: a pixel count, a percentage of the
//! parent, `auto`, or a `calc(...)` expression over pixels, percentages of the
//! parent and percentages of the root, with `+ - * /` and parentheses.
//!
//! [`Size::parse`] reads such a text. [`resolve`] turns a [`Size`] into a
//! number of pixels once the sizes of the parent and of the root are known.

pub mod binary64;
pub mod error;
pub mod eval;
pub mod length;
pub mod numeral;
pub mod parser;
pub mod size;
pub mod text;
pub mod value;

pub use crate::error::ParseError;
pub use crate::eval::{evaluate, resolve};
pub use crate::length::Length;
pub use crate::size::{CalcToken, Size};
pub use crate::value::ResolutionContext;
