//! IEEE 754 binary64 numbers, held by their bit pattern in a `u64`.
//!
//! The arithmetic is done in software by `rustc_apfloat`. Nothing is proved
//! of it: each operation has a name, and the contracts of this crate say
//! which operations are applied to which operands, in which order.

use rustc_apfloat::ieee::Double;
use rustc_apfloat::{Float, Round};
use std::str::FromStr;
use vstd::prelude::*;

verus! {

/// The bit pattern of positive zero.
pub const ZERO_BITS: u64 = 0;

/// The bit pattern of negative zero.
pub const NEGATIVE_ZERO_BITS: u64 = 0x8000_0000_0000_0000;

/// The bit pattern of positive infinity. Every larger pattern is a NaN or
/// has its sign bit set.
pub const INFINITY_BITS: u64 = 0x7ff0_0000_0000_0000;

/// The longest text, in bytes, that is handed to the conversion from decimal.
pub const MAX_PLAIN: usize = 0xf_ffff;

/// The bit pattern of one hundred.
pub const HUNDRED_BITS: u64 = 0x4059_0000_0000_0000;

/// The bit pattern of the binary64 sum of the numbers with bit patterns `a` and `b`,
/// rounded to nearest, ties to even.
pub uninterp spec fn sum_bits(a: u64, b: u64) -> u64;

/// The bit pattern of the binary64 difference `a - b`, rounded to nearest, ties to even.
pub uninterp spec fn difference_bits(a: u64, b: u64) -> u64;

/// The bit pattern of the binary64 product of `a` and `b`, rounded to nearest, ties to even.
pub uninterp spec fn product_bits(a: u64, b: u64) -> u64;

/// The bit pattern of the binary64 quotient `a / b`, rounded to nearest, ties to even.
pub uninterp spec fn quotient_bits(a: u64, b: u64) -> u64;

/// The bit pattern of the binary64 number nearest to the decimal number that
/// `text` spells, ties to even; `None` where the text is not taken as a number.
pub uninterp spec fn decimal_bits(text: Seq<u8>) -> Option<u64>;

/// Whether `text` is made of digits, `-` and `.` only, and has no more than
/// [`MAX_PLAIN`] bytes.
pub open spec fn is_plain(text: Seq<u8>) -> bool {
    &&& text.len() <= MAX_PLAIN
    &&& forall|i: int|
        0 <= i < text.len() ==> (0x30 <= #[trigger] text[i] <= 0x39) || text[i] == 0x2d || text[i]
            == 0x2e
}

/// Whether `bits` is one of the two zeros.
pub open spec fn is_zero_bits(bits: u64) -> bool {
    bits == ZERO_BITS || bits == NEGATIVE_ZERO_BITS
}

/// `bits` itself where it is a number that is not negative (positive zero,
/// a positive finite number or positive infinity), else positive zero:
/// a NaN and everything with the sign bit set become zero.
pub open spec fn non_negative_bits(bits: u64) -> u64 {
    if bits <= INFINITY_BITS {
        bits
    } else {
        ZERO_BITS
    }
}

/// Calls `Float::add_r` of `rustc_apfloat` on two `ieee::Double` values, rounding
/// to nearest with ties to even. Nothing is proved of the sum: the contract
/// only gives it its name.
#[verifier::external_body]
pub(crate) fn add_bits(a: u64, b: u64) -> (r: u64)
    ensures
        r == sum_bits(a, b),
{
    let x = Double::from_bits(a as u128);
    let y = Double::from_bits(b as u128);
    x.add_r(y, Round::NearestTiesToEven).value.to_bits() as u64
}

/// Calls `Float::sub_r` of `rustc_apfloat` on two `ieee::Double` values, rounding
/// to nearest with ties to even. The contract only names the difference.
#[verifier::external_body]
pub(crate) fn sub_bits(a: u64, b: u64) -> (r: u64)
    ensures
        r == difference_bits(a, b),
{
    let x = Double::from_bits(a as u128);
    let y = Double::from_bits(b as u128);
    x.sub_r(y, Round::NearestTiesToEven).value.to_bits() as u64
}

/// Calls `Float::mul_r` of `rustc_apfloat` on two `ieee::Double` values, rounding
/// to nearest with ties to even. The contract only names the product.
#[verifier::external_body]
pub(crate) fn mul_bits(a: u64, b: u64) -> (r: u64)
    ensures
        r == product_bits(a, b),
{
    let x = Double::from_bits(a as u128);
    let y = Double::from_bits(b as u128);
    x.mul_r(y, Round::NearestTiesToEven).value.to_bits() as u64
}

/// Calls `Float::div_r` of `rustc_apfloat` on two `ieee::Double` values, rounding
/// to nearest with ties to even. The contract only names the quotient; a zero
/// divisor is the caller's to catch.
#[verifier::external_body]
pub(crate) fn div_bits(a: u64, b: u64) -> (r: u64)
    ensures
        r == quotient_bits(a, b),
{
    let x = Double::from_bits(a as u128);
    let y = Double::from_bits(b as u128);
    x.div_r(y, Round::NearestTiesToEven).value.to_bits() as u64
}

/// Calls `from_str` of `rustc_apfloat`'s `ieee::Double` on the text and takes
/// the bits of what it returns. The text has to be plain: made of digits, `-`
/// and `.` only, so that it is ASCII and spells no name of a special value,
/// and short enough for the conversion, which counts digits and bits in
/// machine integers. The contract only names the result; that a numeral is
/// always taken is not claimed.
#[verifier::external_body]
pub(crate) fn parse_decimal(text: &[u8]) -> (r: Option<u64>)
    requires
        is_plain(text@),
    ensures
        r == decimal_bits(text@),
{
    match std::str::from_utf8(text) {
        Ok(s) => match Double::from_str(s) {
            Ok(x) => Some(x.to_bits() as u64),
            Err(_) => None,
        },
        Err(_) => None,
    }
}

/// Tells whether `bits` is a zero of either sign.
pub fn is_zero(bits: u64) -> (r: bool)
    ensures
        r == is_zero_bits(bits),
{
    bits == ZERO_BITS || bits == NEGATIVE_ZERO_BITS
}

/// Replaces a NaN, and every number with the sign bit set, by positive zero.
pub fn non_negative(bits: u64) -> (r: u64)
    ensures
        r == non_negative_bits(bits),
{
    if bits <= INFINITY_BITS {
        bits
    } else {
        ZERO_BITS
    }
}

} // verus!
