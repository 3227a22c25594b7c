//! Decimal numbers read from text by the `rust_decimal` crate.

use vstd::prelude::*;
use rust_decimal::Decimal;
use crate::amount::is_decimal_text;
use crate::amount::numeral_digits;
use crate::amount::numeral_mantissa;
use crate::amount::numeral_scale;
use crate::text::digits_value;

verus! {

/// The longest text that is handed to the decimal reader. The reader works its way
/// through a text by calls within calls, so that a text without end could use up
/// the stack. No amount needs more: a sign, nineteen digits, a point, four digits.
pub const MAX_TEXT_LENGTH: usize = 32;

/// The most fractional digits that the decimal reader takes.
pub const MAX_SCALE: u32 = 28;

/// Reads a decimal number with `rust_decimal::Decimal::from_str_exact`, which
/// refuses a text sooner than round it, and hands back what `Decimal::mantissa` and
/// `Decimal::scale` give for the number read.
///
/// Nothing is proved of this function. Its contract claims this of the outside
/// reader, for a text that is an optional sign, digits, and optionally a point and
/// more digits, with at least one digit: it takes the digits at their places. The
/// mantissa is the number that the digits of the text spell without the point, with
/// the sign of the text, and the scale is the count of digits after the point. The
/// reader keeps at most 28 digits after the point and a mantissa below 2^96, and
/// refuses a text that asks for more.
#[verifier::external_body]
pub(crate) fn parse_decimal(text: &str) -> (r: Option<(i128, u32)>)
    requires
        is_decimal_text(text@),
        text@.len() <= MAX_TEXT_LENGTH,
    ensures
        r == (if numeral_scale(text@) <= MAX_SCALE && digits_value(numeral_digits(text@))
            < 0x1_0000_0000_0000_0000_0000_0000 {
            Some((numeral_mantissa(text@) as i128, numeral_scale(text@) as u32))
        } else {
            None
        }),
{
    match Decimal::from_str_exact(text) {
        Ok(decimal) => Some((decimal.mantissa(), decimal.scale())),
        Err(_) => None,
    }
}

} // verus!
