//! Fixed-point money: a signed 64-bit count of ten-thousandths of a unit.

use vstd::prelude::*;
use vstd::arithmetic::div_mod::lemma_div_multiples_vanish;
use vstd::arithmetic::div_mod::lemma_fundamental_div_mod;
use vstd::arithmetic::div_mod::lemma_mod_multiples_basic;
use vstd::string::is_ascii;
use crate::decimal::parse_decimal;
use crate::text::all_digits;
use crate::text::ascii_bytes;
use crate::text::bytes_of;
use crate::text::decimal_digits;
use crate::text::digits_value;
use crate::text::lemma_decimal_digits;
use crate::text::lemma_digit_char;
use crate::text::digit_char;
use crate::text::is_digit;
use crate::text::leading_digits;
use crate::text::lemma_digits_value_bounds;
use crate::text::lemma_digits_value_concat;
use crate::text::lemma_without_leading;
use crate::text::lemma_without_trailing;
use crate::text::lemma_zeros_around;
use crate::text::lemma_leading_digits;
use crate::text::lemma_leading_digits_count;
use crate::text::lemma_pow10_add;
use crate::text::lemma_pow10_positive;
use crate::text::pow10;
use crate::text::without_leading;
use crate::text::without_trailing;
use vstd::string::StrSliceExecFns;
use vstd::string::StringExecFns;
use crate::text::push_decimal;
use crate::text::push_digit;

verus! {

/// Number of fractional decimal digits that an [`Amount`] keeps.
pub const FRACTION_DIGITS: u32 = 4;

/// How many smallest steps make one whole unit: ten to the power of [`FRACTION_DIGITS`].
pub const FRACTION: i64 = 10_000;

/// An amount of funds.
///
/// The value is held as a whole number of ten-thousandths. Only checked addition and
/// subtraction are offered, so that no result is ever rounded or wrapped silently.
/// Equality and order are those of the scaled integers.
#[derive(Debug, Clone, Copy, PartialEq, Eq, PartialOrd, Ord, Hash, Structural)]
pub struct Amount {
    scaled: i64,
}

/// Signals that a text does not denote an [`Amount`].
#[derive(Debug, Clone, Copy, PartialEq, Eq, Structural)]
pub struct ParseError;

impl ParseError {
    /// A short description of the error.
    pub fn to_string(&self) -> (text: String)
        ensures
            text@ == "parse error"@,
    {
        "parse error".to_owned()
    }
}

impl Amount {
    /// The amount as a count of ten-thousandths.
    pub closed spec fn view(&self) -> int {
        self.scaled as int
    }

    /// Every amount lies in the range of a signed 64-bit integer.
    pub broadcast proof fn lemma_view_in_range(self)
        ensures
            i64::MIN <= #[trigger] self@ <= i64::MAX,
    {
    }

    /// The amount that is `scaled` ten-thousandths, for a count that fits.
    pub closed spec fn with_scaled(scaled: int) -> Amount {
        Amount { scaled: scaled as i64 }
    }

    /// An amount is the amount with its scaled value, and the amount with a scaled
    /// value that fits has that value.
    pub broadcast proof fn lemma_with_scaled(scaled: int)
        ensures
            (#[trigger] Amount::with_scaled(scaled))@ == scaled || !fits(scaled),
            forall|amount: Amount| amount@ == scaled ==> amount == Amount::with_scaled(scaled),
    {
    }

    /// No funds at all.
    pub fn zero() -> (r: Amount)
        ensures
            r@ == 0,
    {
        Amount { scaled: 0 }
    }

    /// The largest amount that can be represented.
    pub fn max_value() -> (r: Amount)
        ensures
            r@ == i64::MAX,
    {
        Amount { scaled: i64::MAX }
    }

    /// The smallest (most negative) amount that can be represented.
    pub fn min_value() -> (r: Amount)
        ensures
            r@ == i64::MIN,
    {
        Amount { scaled: i64::MIN }
    }

    /// Exactly one whole unit.
    pub fn one() -> (r: Amount)
        ensures
            r@ == FRACTION,
    {
        Amount { scaled: FRACTION }
    }

    /// Exactly one whole unit owed.
    pub fn minus_one() -> (r: Amount)
        ensures
            r@ == -FRACTION,
    {
        Amount { scaled: -FRACTION }
    }

    /// The amount as a count of ten-thousandths.
    pub fn scaled(&self) -> (r: i64)
        ensures
            r == self@,
    {
        self.scaled
    }

    /// The sum of two amounts, or `None` exactly when the sum does not fit.
    pub fn checked_add(lhs: Amount, rhs: Amount) -> (r: Option<Amount>)
        ensures
            match r {
                Some(sum) => sum@ == lhs@ + rhs@,
                None => lhs@ + rhs@ < i64::MIN || lhs@ + rhs@ > i64::MAX,
            },
    {
        match lhs.scaled.checked_add(rhs.scaled) {
            Some(v) => Some(Amount { scaled: v }),
            None => None,
        }
    }

    /// The difference of two amounts, or `None` exactly when the difference does not fit.
    pub fn checked_sub(lhs: Amount, rhs: Amount) -> (r: Option<Amount>)
        ensures
            match r {
                Some(difference) => difference@ == lhs@ - rhs@,
                None => lhs@ - rhs@ < i64::MIN || lhs@ - rhs@ > i64::MAX,
            },
    {
        match lhs.scaled.checked_sub(rhs.scaled) {
            Some(v) => Some(Amount { scaled: v }),
            None => None,
        }
    }
}


/// Whether an integer fits the scaled range of an [`Amount`].
pub open spec fn fits(v: int) -> bool {
    i64::MIN <= v <= i64::MAX
}

/// The scaled value of the decimal number mantissa / 10^scale: the count of
/// ten-thousandths that is exactly that number, where there is one and it fits.
/// A number with a non-zero digit beyond the fourth fractional place has none.
pub open spec fn scaled_of_decimal(mantissa: int, scale: nat) -> Option<int> {
    let numerator = mantissa * FRACTION;
    let denominator = pow10(scale) as int;
    if numerator % denominator == 0 && fits(numerator / denominator) {
        Some(numerator / denominator)
    } else {
        None
    }
}

/// The text without its sign, where it begins with one.
pub open spec fn unsigned_part(text: Seq<char>) -> Seq<char> {
    if text.len() > 0 && (text[0] == '+' || text[0] == '-') {
        text.skip(1)
    } else {
        text
    }
}

/// Whether the text has the shape of a decimal number: an optional sign, then
/// digits, then optionally a point and more digits, with at least one digit in all.
/// Neither part of the digits need be there: ".5" and "5." have the shape. Blanks,
/// a second sign, a second point, an exponent or a separator do not fit it.
pub open spec fn is_decimal_text(text: Seq<char>) -> bool {
    let body = unsigned_part(text);
    let whole = leading_digits(body) as int;
    if whole == body.len() {
        whole > 0
    } else {
        body[whole] == '.' && all_digits(body.skip(whole + 1)) && body.len() >= 2
    }
}

/// The digits before the point of a text that has the shape of a decimal number.
pub open spec fn whole_part(text: Seq<char>) -> Seq<char> {
    let body = unsigned_part(text);
    body.take(leading_digits(body) as int)
}

/// The digits after the point of a text that has the shape of a decimal number.
pub open spec fn fraction_part(text: Seq<char>) -> Seq<char> {
    let body = unsigned_part(text);
    let whole = leading_digits(body) as int;
    if whole >= body.len() {
        Seq::empty()
    } else {
        body.skip(whole + 1)
    }
}

/// A text that has the shape of a decimal number, without the zeros that say
/// nothing: those that its whole part begins with and those that its fraction ends
/// with. A plus sign goes too, and so does a point that nothing follows. Where no
/// digit is left the digits are "0". The stripped text denotes the same number;
/// it is what the decimal reader is handed.
pub open spec fn stripped(text: Seq<char>) -> Seq<char> {
    let sign = if text.len() > 0 && text[0] == '-' {
        seq!['-']
    } else {
        Seq::empty()
    };
    let whole = without_leading(whole_part(text), '0');
    let fraction = without_trailing(fraction_part(text), '0');
    if fraction.len() > 0 {
        sign + whole + seq!['.'] + fraction
    } else if whole.len() > 0 {
        sign + whole
    } else {
        sign + seq!['0']
    }
}

/// The scaled value that a text denotes: the text must have the shape of a decimal
/// number, and the number that its digits spell at their places must be a whole
/// number of ten-thousandths that fits. A text with a digit other than zero beyond
/// the fourth place after the point denotes no amount: nothing is rounded.
pub open spec fn parsed_value(text: Seq<char>) -> Option<int> {
    if is_decimal_text(text) {
        scaled_of_decimal(numeral_mantissa(text), numeral_scale(text))
    } else {
        None
    }
}

/// The amount that a text denotes, if it denotes one.
pub open spec fn amount_of_text(text: Seq<char>) -> Option<Amount> {
    match parsed_value(text) {
        Some(scaled) => Some(Amount::with_scaled(scaled)),
        None => None,
    }
}

/// The fractional digits of `fraction` / (10 * `unit`), most significant first,
/// without trailing zeros. `unit` is the weight of the first digit.
pub open spec fn fraction_digits(fraction: nat, unit: nat) -> Seq<char>
    decreases unit,
{
    if fraction == 0 || unit == 0 {
        Seq::empty()
    } else {
        seq![digit_char((fraction / unit) as int)] + fraction_digits(fraction % unit, unit / 10)
    }
}

/// A non-negative scaled value in canonical form: the whole part without leading
/// zeros, then, only where the fraction is not zero, a point and the fractional
/// digits without trailing zeros.
pub open spec fn canonical_unsigned(magnitude: nat) -> Seq<char> {
    let whole = decimal_digits(magnitude / (FRACTION as nat));
    let fraction = magnitude % (FRACTION as nat);
    if fraction == 0 {
        whole
    } else {
        whole + seq!['.'] + fraction_digits(fraction, 1000)
    }
}

/// The canonical form of a scaled value: a minus sign where it is negative, then
/// the canonical form of its magnitude. Zero is "0".
pub open spec fn canonical_text(scaled: int) -> Seq<char> {
    if scaled < 0 {
        seq!['-'] + canonical_unsigned((-scaled) as nat)
    } else {
        canonical_unsigned(scaled as nat)
    }
}

/// A product with a positive factor is divisible by that factor, exactly.
proof fn lemma_exact_quotient(x: int, d: int)
    requires
        d > 0,
    ensures
        (x * d) % d == 0,
        (x * d) / d == x,
{
    lemma_mod_multiples_basic(x, d);
    lemma_div_multiples_vanish(x, d);
    assert(x * d == d * x) by (nonlinear_arith);
}

/// The scaled value of value * 10^shift / 10^scale where shift + scale is four.
proof fn lemma_scaled_of_short(mantissa: int, scale: nat, factor: int)
    requires
        scale <= 4,
        factor == pow10((4 - scale) as nat),
    ensures
        scaled_of_decimal(mantissa, scale) == (if fits(mantissa * factor) {
            Some(mantissa * factor)
        } else {
            None
        }),
{
    lemma_pow10_add((4 - scale) as nat, scale);
    lemma_pow10_positive(scale);
    assert(pow10(4) == 10_000) by {
        reveal_with_fuel(pow10, 5);
    }
    let d = pow10(scale) as int;
    assert(mantissa * FRACTION == (mantissa * factor) * d) by (nonlinear_arith)
        requires
            factor * d == 10_000,
            FRACTION == 10_000,
    ;
    lemma_exact_quotient(mantissa * factor, d);
}

/// The scaled value of a decimal number whose mantissa ends in all the zeros that
/// its scale has beyond four.
proof fn lemma_scaled_of_long(mantissa: int, scale: nat, quotient: int)
    requires
        scale > 4,
        mantissa == quotient * pow10((scale - 4) as nat),
    ensures
        scaled_of_decimal(mantissa, scale) == (if fits(quotient) {
            Some(quotient)
        } else {
            None
        }),
{
    lemma_pow10_add((scale - 4) as nat, 4);
    lemma_pow10_positive(scale);
    assert(pow10(4) == 10_000) by {
        reveal_with_fuel(pow10, 5);
    }
    let d = pow10(scale) as int;
    let e = pow10((scale - 4) as nat) as int;
    assert(mantissa * FRACTION == quotient * d) by (nonlinear_arith)
        requires
            mantissa == quotient * e,
            d == e * 10_000,
            FRACTION == 10_000,
    ;
    lemma_exact_quotient(quotient, d);
}

/// A decimal number has no scaled value where its mantissa, stripped of `stripped`
/// trailing zeros, ends in a digit that is not zero, and its scale asks for more
/// than `stripped` + 4 fractional places.
proof fn lemma_no_scaled_value(mantissa: int, scale: nat, rest: int, stripped: nat)
    requires
        scale > 4 + stripped,
        mantissa == rest * pow10(stripped),
        rest % 10 != 0,
    ensures
        scaled_of_decimal(mantissa, scale) is None,
{
    let d = pow10(scale) as int;
    let numerator = mantissa * FRACTION;
    lemma_pow10_positive(scale);
    lemma_pow10_positive(stripped);
    if numerator % d == 0 {
        let t = numerator / d;
        lemma_fundamental_div_mod(numerator, d);
        assert(numerator == d * t);
        let more = (scale - 4 - stripped - 1) as nat;
        lemma_pow10_add(stripped, (more + 1) as nat);
        lemma_pow10_add((stripped + more + 1) as nat, 4);
        assert(pow10(4) == 10_000) by {
            reveal_with_fuel(pow10, 5);
        }
        assert(pow10((more + 1) as nat) == 10 * pow10(more));
        let p = pow10(stripped) as int;
        let q = pow10(more) as int;
        assert(d == p * (10 * q) * 10_000);
        assert(rest == t * q * 10) by (nonlinear_arith)
            requires
                (rest * p) * 10_000 == (p * (10 * q) * 10_000) * t,
                p > 0,
        ;
        lemma_mod_multiples_basic(t * q, 10);
        assert(false);
    }
}

/// A number whose magnitude is a product is the product with its sign on the
/// first factor.
proof fn lemma_signed_product(number: int, negative: bool, rest: int, power: int)
    by (nonlinear_arith)
    requires
        (if negative {
            -number
        } else {
            number
        }) == rest * power,
    ensures
        number == (if negative {
            -rest
        } else {
            rest
        }) * power,
{
}

impl Amount {
    /// The amount that is exactly the decimal number `mantissa` / 10^`scale`, where
    /// there is one. A number that would have to be rounded is refused, and so is
    /// one out of range.
    pub fn from_decimal(mantissa: i128, scale: u32) -> (r: Result<Amount, ParseError>)
        ensures
            match r {
                Ok(amount) => scaled_of_decimal(mantissa as int, scale as nat) == Some(amount@),
                Err(_) => scaled_of_decimal(mantissa as int, scale as nat) is None,
            },
    {
        let negative = mantissa < 0;
        let magnitude: u128 = if negative {
            (-(mantissa + 1)) as u128 + 1
        } else {
            mantissa as u128
        };
        let mut rest: u128 = magnitude;
        if scale <= 4 {
            let factor: u128 = if scale == 0 {
                10_000
            } else if scale == 1 {
                1_000
            } else if scale == 2 {
                100
            } else if scale == 3 {
                10
            } else {
                1
            };
            proof {
                reveal_with_fuel(pow10, 5);
                lemma_scaled_of_short(mantissa as int, scale as nat, factor as int);
                assert(fits(mantissa * factor) ==> magnitude <= 0x8000_0000_0000_0000) by (nonlinear_arith)
                    requires
                        factor >= 1,
                        magnitude == mantissa || magnitude == -mantissa,
                ;
            }
            if magnitude > 0x8000_0000_0000_0000 {
                return Err(ParseError);
            }
            assert(magnitude * factor <= 0x8000_0000_0000_0000 * 10_000) by (nonlinear_arith)
                requires
                    magnitude <= 0x8000_0000_0000_0000,
                    factor <= 10_000,
            ;
            rest = magnitude * factor;
            assert(mantissa * factor == (if negative {
                -(rest as int)
            } else {
                rest as int
            })) by (nonlinear_arith)
                requires
                    rest == magnitude * factor,
                    magnitude == (if negative {
                        -mantissa
                    } else {
                        mantissa as int
                    }),
            ;
        } else if magnitude == 0 {
            proof {
                lemma_scaled_of_long(0, scale as nat, 0);
            }
        } else {
            let mut stripped: u32 = 0;
            assert(pow10(0) == 1);
            assert(rest * 1 == rest);
            while stripped < scale - 4
                invariant
                    scale > 4,
                    stripped <= scale - 4,
                    rest > 0,
                    magnitude == rest * pow10(stripped as nat),
                    magnitude == (if negative {
                        -mantissa
                    } else {
                        mantissa as int
                    }),
                decreases scale - 4 - stripped,
            {
                if rest % 10 != 0 {
                    proof {
                        let signed_rest = if negative {
                            -(rest as int)
                        } else {
                            rest as int
                        };
                        lemma_signed_product(
                            mantissa as int,
                            negative,
                            rest as int,
                            pow10(stripped as nat) as int,
                        );
                        assert(signed_rest % 10 != 0);
                        lemma_no_scaled_value(
                            mantissa as int,
                            scale as nat,
                            signed_rest,
                            stripped as nat,
                        );
                    }
                    return Err(ParseError);
                }
                proof {
                    let p = pow10(stripped as nat) as int;
                    assert(pow10((stripped + 1) as nat) == 10 * p);
                    assert((rest / 10) * (10 * p) == rest * p) by (nonlinear_arith)
                        requires
                            rest == 10 * (rest / 10),
                    ;
                }
                rest = rest / 10;
                stripped = stripped + 1;
            }
            proof {
                let signed_rest = if negative {
                    -(rest as int)
                } else {
                    rest as int
                };
                lemma_signed_product(
                    mantissa as int,
                    negative,
                    rest as int,
                    pow10((scale - 4) as nat) as int,
                );
                lemma_scaled_of_long(mantissa as int, scale as nat, signed_rest);
            }
        }
        // Here the number is exactly `rest` ten-thousandths, with the sign of `mantissa`.
        if negative {
            if rest > 0x8000_0000_0000_0000 {
                Err(ParseError)
            } else if rest == 0 {
                Ok(Amount { scaled: 0 })
            } else {
                Ok(Amount { scaled: -((rest - 1) as i64) - 1 })
            }
        } else {
            if rest > 0x7fff_ffff_ffff_ffff {
                Err(ParseError)
            } else {
                Ok(Amount { scaled: rest as i64 })
            }
        }
    }
}


/// A text with the shape of a decimal number is made of a sign, digits and a point,
/// all of which are ASCII characters.
pub proof fn lemma_decimal_text_is_ascii(text: Seq<char>)
    requires
        is_decimal_text(text),
    ensures
        vstd::utf8::is_ascii_chars(text),
{
    let body = unsigned_part(text);
    let whole = leading_digits(body) as int;
    lemma_leading_digits(body);
    assert forall|i: int| 0 <= i < body.len() implies '\0' <= #[trigger] body[i] <= '\u{7f}' by {
        if i < whole {
            assert(is_digit(body[i]));
        } else if i == whole {
        } else {
            assert(body.skip(whole + 1)[i - whole - 1] == body[i]);
            assert(is_digit(body.skip(whole + 1)[i - whole - 1]));
        }
    }
    assert forall|i: int| 0 <= i < text.len() implies '\0' <= #[trigger] text[i] <= '\u{7f}' by {
        if body.len() == text.len() {
            assert(body == text);
        } else {
            if i > 0 {
                assert(body[i - 1] == text[i]);
            }
        }
    }
}

/// Whether a text is stripped: an optional minus sign, digits that do not begin
/// with a zero unless they are "0", and optionally a point and digits that do not
/// end with a zero. Where there is a point, the digits before it may be missing.
pub open spec fn is_stripped(text: Seq<char>) -> bool {
    &&& is_decimal_text(text)
    &&& text[0] != '+'
    &&& all_digits(whole_part(text))
    &&& all_digits(fraction_part(text))
    &&& numeral_digits(text) == whole_part(text) + fraction_part(text)
    &&& numeral_scale(text) == fraction_part(text).len()
    &&& text.len() <= 2 + whole_part(text).len() + fraction_part(text).len()
    &&& fraction_part(text).len() > 0 ==> fraction_part(text).last() != '0'
    &&& whole_part(text).len() > 1 ==> whole_part(text)[0] != '0'
    &&& whole_part(text).len() == 1 && whole_part(text)[0] == '0' ==> fraction_part(text).len()
        == 0
}

/// A decimal number has the same scaled value with as without zeros at the end of
/// its digits that its scale counts.
proof fn lemma_scaled_cancel(mantissa: int, scale: nat, zeros: nat)
    ensures
        scaled_of_decimal(mantissa * pow10(zeros), scale + zeros) == scaled_of_decimal(
            mantissa,
            scale,
        ),
{
    lemma_pow10_positive(scale);
    lemma_pow10_positive(zeros);
    lemma_pow10_add(scale, zeros);
    let d = pow10(scale) as int;
    let p = pow10(zeros) as int;
    let n = mantissa * FRACTION;
    let big = (mantissa * p) * FRACTION;
    assert(big == n * p) by (nonlinear_arith)
        requires
            big == (mantissa * p) * FRACTION,
            n == mantissa * FRACTION,
    ;
    assert(d * p > 0) by (nonlinear_arith)
        requires
            d > 0,
            p > 0,
    ;
    if n % d == 0 {
        let q = n / d;
        lemma_fundamental_div_mod(n, d);
        assert(big == q * (d * p)) by (nonlinear_arith)
            requires
                big == n * p,
                n == d * q,
        ;
        lemma_exact_quotient(q, d * p);
    }
    if big % (d * p) == 0 {
        let t = big / (d * p);
        lemma_fundamental_div_mod(big, d * p);
        assert(n == t * d) by (nonlinear_arith)
            requires
                n * p == (d * p) * t,
                p > 0,
        ;
        lemma_exact_quotient(t, d);
    }
}

/// A text made of an optional minus sign, digits, and optionally a point and more
/// digits has the shape of a decimal number, and these are its parts.
proof fn lemma_numeral_of_parts(negative: bool, whole: Seq<char>, fraction: Seq<char>)
    requires
        all_digits(whole),
        all_digits(fraction),
        whole.len() + fraction.len() > 0,
    ensures
        ({
            let sign = if negative {
                seq!['-']
            } else {
                Seq::<char>::empty()
            };
            let text = if fraction.len() > 0 {
                sign + whole + seq!['.'] + fraction
            } else {
                sign + whole
            };
            &&& is_decimal_text(text)
            &&& (text[0] == '-') == negative
            &&& text[0] != '+'
            &&& whole_part(text) == whole
            &&& fraction_part(text) == fraction
            &&& numeral_digits(text) == whole + fraction
            &&& numeral_scale(text) == fraction.len()
        }),
{
    let sign = if negative {
        seq!['-']
    } else {
        Seq::<char>::empty()
    };
    let body = if fraction.len() > 0 {
        whole + seq!['.'] + fraction
    } else {
        whole
    };
    let text = if fraction.len() > 0 {
        sign + whole + seq!['.'] + fraction
    } else {
        sign + whole
    };
    assert(text =~= sign + body);
    assert(body.len() > 0);
    assert forall|i: int| 0 <= i < whole.len() implies is_digit(#[trigger] body[i]) by {
        assert(body[i] == whole[i]);
    }
    if whole.len() < body.len() {
        assert(body[whole.len() as int] == '.');
    }
    assert(body[0] != '+' && body[0] != '-') by {
        if whole.len() > 0 {
            assert(is_digit(body[0]));
        }
    }
    assert(unsigned_part(text) =~= body) by {
        if negative {
            assert(text[0] == '-');
            assert(text.skip(1) =~= body);
        } else {
            assert(text =~= body);
        }
    }
    lemma_leading_digits_count(body, whole.len() as int);
    assert(body.take(whole.len() as int) =~= whole);
    if fraction.len() > 0 {
        assert(body.skip(whole.len() as int + 1) =~= fraction);
    } else {
        assert(whole + fraction =~= whole);
    }
}

/// The stripped form of a text that has the shape of a decimal number is stripped,
/// and denotes the same amount or like the text none.
pub proof fn lemma_stripped_denotes(text: Seq<char>)
    requires
        is_decimal_text(text),
    ensures
        is_stripped(stripped(text)),
        parsed_value(stripped(text)) == parsed_value(text),
        whole_part(stripped(text)).len() <= 1 + without_leading(whole_part(text), '0').len(),
        whole_part(stripped(text)).len() >= without_leading(whole_part(text), '0').len(),
        fraction_part(stripped(text)) == without_trailing(fraction_part(text), '0'),
{
    let body = unsigned_part(text);
    let k = leading_digits(body) as int;
    lemma_leading_digits(body);
    let whole = whole_part(text);
    let fraction = fraction_part(text);
    assert forall|i: int| 0 <= i < whole.len() implies is_digit(#[trigger] whole[i]) by {
        assert(whole[i] == body[i]);
    }
    assert(all_digits(fraction));
    let digits = whole + fraction;
    assert(numeral_digits(text) =~= digits) by {
        if k >= body.len() {
            assert(whole =~= body);
        }
    }
    lemma_digits_value_concat(whole, fraction);
    let from = lemma_without_leading(whole, '0');
    let to = lemma_without_trailing(fraction, '0');
    let kept_whole = without_leading(whole, '0');
    let kept_fraction = without_trailing(fraction, '0');
    assert forall|i: int| 0 <= i < from implies #[trigger] digits[i] == '0' by {
        assert(digits[i] == whole[i]);
    }
    assert forall|i: int| whole.len() + to <= i < digits.len() implies #[trigger] digits[i]
        == '0' by {
        assert(digits[i] == fraction[i - whole.len()]);
    }
    lemma_zeros_around(digits, from, whole.len() + to);
    assert(digits.subrange(from, whole.len() + to) =~= kept_whole + kept_fraction);
    let zeros = (fraction.len() - to) as nat;
    let negative = text.len() > 0 && text[0] == '-';
    let shown = if kept_whole.len() == 0 && kept_fraction.len() == 0 {
        seq!['0']
    } else {
        kept_whole
    };
    assert(all_digits(kept_whole) && all_digits(kept_fraction)) by {
        assert forall|i: int| 0 <= i < kept_whole.len() implies is_digit(
            #[trigger] kept_whole[i],
        ) by {
            assert(kept_whole[i] == whole[i + from]);
        }
        assert forall|i: int| 0 <= i < kept_fraction.len() implies is_digit(
            #[trigger] kept_fraction[i],
        ) by {
            assert(kept_fraction[i] == fraction[i]);
        }
    }
    assert(digits_value(shown + kept_fraction) == digits_value(kept_whole + kept_fraction)) by {
        if kept_whole.len() == 0 && kept_fraction.len() == 0 {
            assert(shown + kept_fraction =~= seq!['0']);
            assert(kept_whole + kept_fraction =~= Seq::<char>::empty());
            assert(seq!['0'].drop_last() =~= Seq::<char>::empty());
            assert(digits_value(seq!['0']) == 0);
        }
    }
    lemma_numeral_of_parts(negative, shown, kept_fraction);
    let reduced = stripped(text);
    assert(reduced =~= (if negative {
        seq!['-']
    } else {
        Seq::<char>::empty()
    }) + (if kept_fraction.len() > 0 {
        shown + seq!['.'] + kept_fraction
    } else {
        shown
    }));
    assert(reduced =~= if kept_fraction.len() > 0 {
        (if negative {
            seq!['-']
        } else {
            Seq::<char>::empty()
        }) + shown + seq!['.'] + kept_fraction
    } else {
        (if negative {
            seq!['-']
        } else {
            Seq::<char>::empty()
        }) + shown
    });
    if kept_whole.len() > 0 {
        assert(kept_whole[0] == whole[from]);
    }
    if kept_fraction.len() > 0 {
        assert(kept_fraction.last() == fraction[to - 1]);
    }
    let less = if negative {
        -(digits_value(kept_whole + kept_fraction) as int)
    } else {
        digits_value(kept_whole + kept_fraction) as int
    };
    assert(numeral_mantissa(reduced) == less);
    assert(numeral_mantissa(text) == less * pow10(zeros)) by (nonlinear_arith)
        requires
            numeral_mantissa(text) == (if negative {
                -(digits_value(digits) as int)
            } else {
                digits_value(digits) as int
            }),
            digits_value(digits) == digits_value(kept_whole + kept_fraction) * pow10(zeros),
            less == (if negative {
                -(digits_value(kept_whole + kept_fraction) as int)
            } else {
                digits_value(kept_whole + kept_fraction) as int
            }),
    ;
    assert(numeral_scale(text) == kept_fraction.len() + zeros);
    lemma_scaled_cancel(less, kept_fraction.len(), zeros);
}

/// A stripped text with more than four digits after the point denotes no amount:
/// its last digit is not zero and stands beyond the fourth place.
proof fn lemma_too_fine(text: Seq<char>)
    requires
        is_stripped(text),
        fraction_part(text).len() > 4,
    ensures
        parsed_value(text) is None,
{
    let whole = whole_part(text);
    let fraction = fraction_part(text);
    let digits = whole + fraction;
    lemma_digits_value_concat(whole, fraction);
    lemma_digits_value_bounds(digits);
    assert(digits.last() == fraction.last());
    assert(is_digit(fraction.last()));
    let mantissa = numeral_mantissa(text);
    assert(mantissa % 10 != 0);
    assert(pow10(0) == 1);
    assert(mantissa == mantissa * pow10(0)) by (nonlinear_arith)
        requires
            pow10(0) == 1,
    ;
    lemma_no_scaled_value(mantissa, fraction.len(), mantissa, 0);
}

/// A stripped text with more than nineteen digits before the point and at most
/// four after it denotes no amount: the number is out of range.
proof fn lemma_too_large(text: Seq<char>)
    requires
        is_stripped(text),
        fraction_part(text).len() <= 4,
        whole_part(text).len() > 19,
    ensures
        parsed_value(text) is None,
{
    let whole = whole_part(text);
    let fraction = fraction_part(text);
    let scale = fraction.len();
    lemma_digits_value_concat(whole, fraction);
    lemma_digits_value_bounds(whole);
    lemma_pow10_add(19, (whole.len() - 1 - 19) as nat);
    lemma_pow10_positive((whole.len() - 1 - 19) as nat);
    lemma_pow10_positive(scale);
    lemma_pow10_positive((4 - scale) as nat);
    assert(pow10(19) == 10_000_000_000_000_000_000) by {
        reveal_with_fuel(pow10, 20);
    }
    let value = digits_value(whole + fraction) as int;
    let factor = pow10((4 - scale) as nat) as int;
    assert(value * factor >= 10_000_000_000_000_000_000) by (nonlinear_arith)
        requires
            value == digits_value(whole) * pow10(scale) + digits_value(fraction),
            digits_value(whole) >= pow10(19) * pow10((whole.len() - 1 - 19) as nat),
            pow10(19) == 10_000_000_000_000_000_000,
            pow10((whole.len() - 1 - 19) as nat) >= 1,
            pow10(scale) >= 1,
            factor >= 1,
    ;
    let mantissa = numeral_mantissa(text);
    lemma_scaled_of_short(mantissa, scale, factor);
    assert(mantissa * factor == value * factor || mantissa * factor == -(value * factor))
        by (nonlinear_arith)
        requires
            mantissa == value || mantissa == -value,
    ;
}

/// A stripped text with at most nineteen digits before the point and at most four
/// after it is short, and within what the decimal reader takes.
proof fn lemma_within_reach(text: Seq<char>)
    requires
        is_stripped(text),
        fraction_part(text).len() <= 4,
        whole_part(text).len() <= 20,
    ensures
        text.len() <= 26,
        numeral_scale(text) <= 4,
        digits_value(numeral_digits(text)) < 0x1_0000_0000_0000_0000_0000_0000,
{
    let digits = whole_part(text) + fraction_part(text);
    lemma_digits_value_concat(whole_part(text), fraction_part(text));
    lemma_digits_value_bounds(digits);
    lemma_pow10_add(digits.len(), (24 - digits.len()) as nat);
    lemma_pow10_positive((24 - digits.len()) as nat);
    assert(pow10(24) == 1_000_000_000_000_000_000_000_000) by {
        reveal_with_fuel(pow10, 25);
    }
    assert(pow10(digits.len()) <= pow10(24)) by (nonlinear_arith)
        requires
            pow10(24) == pow10(digits.len()) * pow10((24 - digits.len()) as nat),
            pow10((24 - digits.len()) as nat) >= 1,
            pow10(digits.len()) >= 0,
    ;
}

/// Whether the text has the shape of a decimal number.
pub fn has_decimal_shape(text: &str) -> (r: bool)
    ensures
        r == is_decimal_text(text@),
{
    match ascii_bytes(text) {
        Some(bytes) => scan_decimal(text, bytes).is_some(),
        None => {
            proof {
                if is_decimal_text(text@) {
                    lemma_decimal_text_is_ascii(text@);
                }
            }
            false
        },
    }
}

/// Where the digits of an ASCII text begin and where its whole part ends, if the
/// text, given with its bytes, has the shape of a decimal number.
fn scan_decimal(text: &str, bytes: &[u8]) -> (r: Option<(usize, usize)>)
    requires
        is_ascii(text),
        bytes@ == bytes_of(text@),
    ensures
        r is Some == is_decimal_text(text@),
        r matches Some((start, point)) ==> {
            &&& start <= point <= text@.len()
            &&& unsigned_part(text@) == text@.skip(start as int)
            &&& point - start == leading_digits(unsigned_part(text@))
        },
{
    let n = bytes.len();
    let start: usize = if n > 0 && (bytes[0] == 43 || bytes[0] == 45) {
        1
    } else {
        0
    };
    let ghost body = unsigned_part(text@);
    assert(forall|j: int| 0 <= j < n ==> '\0' <= #[trigger] text@[j] <= '\u{7f}');
    assert(forall|j: int| 0 <= j < n ==> bytes@[j] == #[trigger] text@[j] as u8);
    assert(n > 0 ==> (bytes@[0] == 43 <==> text@[0] == '+'));
    assert(n > 0 ==> (bytes@[0] == 45 <==> text@[0] == '-'));
    assert(body == text@.skip(start as int));
    assert(forall|j: int| 0 <= j < n - start ==> #[trigger] body[j] == text@[j + start]);
    let mut i: usize = start;
    while i < n && 48 <= bytes[i] && bytes[i] <= 57
        invariant
            start <= i <= n,
            n == bytes@.len(),
            n == text@.len(),
            body.len() == n - start,
            forall|j: int| 0 <= j < n ==> '\0' <= #[trigger] text@[j] <= '\u{7f}',
            forall|j: int| 0 <= j < n ==> bytes@[j] == #[trigger] text@[j] as u8,
            forall|j: int| 0 <= j < n - start ==> #[trigger] body[j] == text@[j + start],
            forall|j: int| 0 <= j < i - start ==> is_digit(#[trigger] body[j]),
        decreases n - i,
    {
        assert(body[i - start] == text@[i as int]);
        i = i + 1;
    }
    proof {
        if i < n {
            assert(body[i - start] == text@[i as int]);
        }
        lemma_leading_digits_count(body, i - start);
    }
    if i == n {
        return if i > start {
            Some((start, i))
        } else {
            None
        };
    }
    if bytes[i] != 46 {
        assert(body[i - start] == text@[i as int]);
        return None;
    }
    assert(body[i - start] == text@[i as int]);
    let ghost tail = body.skip(i - start + 1);
    let mut j: usize = i + 1;
    while j < n
        invariant
            start <= i < j <= n,
            n == bytes@.len(),
            n == text@.len(),
            body.len() == n - start,
            tail == body.skip(i - start + 1),
            body == unsigned_part(text@),
            leading_digits(body) == i - start,
            body[i - start] == '.',
            forall|k: int| 0 <= k < n ==> '\0' <= #[trigger] text@[k] <= '\u{7f}',
            forall|k: int| 0 <= k < n ==> bytes@[k] == #[trigger] text@[k] as u8,
            forall|k: int| 0 <= k < n - start ==> #[trigger] body[k] == text@[k + start],
            forall|k: int| 0 <= k < j - i - 1 ==> is_digit(#[trigger] tail[k]),
        decreases n - j,
    {
        assert(tail[j - i - 1] == body[j - start]);
        assert(body[j - start] == text@[j as int]);
        if bytes[j] < 48 || bytes[j] > 57 {
            assert(!is_digit(tail[j - i - 1]));
            return None;
        }
        j = j + 1;
    }
    assert(all_digits(tail));
    if n - start >= 2 {
        Some((start, i))
    } else {
        None
    }
}

/// Writes an ASCII text that has the shape of a decimal number, given with its
/// bytes and with the places that [`scan_decimal`] found, without the zeros that
/// say nothing.
fn strip_zeros(text: &str, bytes: &[u8], start: usize, point: usize) -> (r: (
    String,
    usize,
    usize,
))
    requires
        is_ascii(text),
        bytes@ == bytes_of(text@),
        is_decimal_text(text@),
        start <= point <= text@.len(),
        unsigned_part(text@) == text@.skip(start as int),
        point - start == leading_digits(unsigned_part(text@)),
    ensures
        r.0@ == stripped(text@),
        r.1 == without_leading(whole_part(text@), '0').len(),
        r.2 == without_trailing(fraction_part(text@), '0').len(),
{
    let n = bytes.len();
    let from: usize = if point < n {
        point + 1
    } else {
        n
    };
    let ghost whole = text@.subrange(start as int, point as int);
    let ghost fraction = text@.subrange(from as int, n as int);
    proof {
        let body = unsigned_part(text@);
        assert(whole_part(text@) =~= whole);
        assert(fraction_part(text@) =~= fraction);
        assert(forall|j: int| 0 <= j < n ==> '\0' <= #[trigger] text@[j] <= '\u{7f}');
        assert(forall|j: int| 0 <= j < n ==> bytes@[j] == #[trigger] text@[j] as u8);
    }
    let mut a: usize = start;
    while a < point && bytes[a] == 48
        invariant
            is_ascii(text),
            bytes@ == bytes_of(text@),
            start <= a <= point <= bytes@.len(),
            without_leading(text@.subrange(start as int, point as int), '0') == without_leading(
                text@.subrange(a as int, point as int),
                '0',
            ),
        decreases point - a,
    {
        proof {
            let rest = text@.subrange(a as int, point as int);
            assert('\0' <= text@[a as int] <= '\u{7f}');
            assert(bytes@[a as int] == text@[a as int] as u8);
            assert(rest[0] == text@[a as int]);
            assert(rest[0] == '0');
            assert(rest.skip(1) =~= text@.subrange(a + 1, point as int));
        }
        a = a + 1;
    }
    proof {
        let rest = text@.subrange(a as int, point as int);
        if a < point {
            assert('\0' <= text@[a as int] <= '\u{7f}');
            assert(bytes@[a as int] == text@[a as int] as u8);
            assert(rest[0] == text@[a as int]);
            assert(rest[0] != '0');
        }
        assert(without_leading(rest, '0') == rest);
    }
    let mut b: usize = n;
    while from < b && bytes[b - 1] == 48
        invariant
            is_ascii(text),
            bytes@ == bytes_of(text@),
            from <= b <= n,
            n == bytes@.len(),
            without_trailing(text@.subrange(from as int, n as int), '0') == without_trailing(
                text@.subrange(from as int, b as int),
                '0',
            ),
        decreases b - from,
    {
        proof {
            let rest = text@.subrange(from as int, b as int);
            assert('\0' <= text@[b - 1] <= '\u{7f}');
            assert(bytes@[b - 1] == text@[b - 1] as u8);
            assert(rest.last() == text@[b - 1]);
            assert(rest.last() == '0');
            assert(rest.drop_last() =~= text@.subrange(from as int, b - 1));
        }
        b = b - 1;
    }
    proof {
        let rest = text@.subrange(from as int, b as int);
        if from < b {
            assert('\0' <= text@[b - 1] <= '\u{7f}');
            assert(bytes@[b - 1] == text@[b - 1] as u8);
            assert(rest.last() == text@[b - 1]);
            assert(rest.last() != '0');
        }
        assert(without_trailing(rest, '0') == rest);
    }
    let mut out = String::new();
    if n > 0 && bytes[0] == 45 {
        assert('\0' <= text@[0] <= '\u{7f}');
        out.push('-');
    } else if n > 0 {
        assert('\0' <= text@[0] <= '\u{7f}');
    }
    let ghost sign = out@;
    assert(sign =~= if text@.len() > 0 && text@[0] == '-' {
        seq!['-']
    } else {
        Seq::<char>::empty()
    });
    if from < b {
        out.append(text.substring_ascii(a, point));
        out.push('.');
        out.append(text.substring_ascii(from, b));
    } else if a < point {
        out.append(text.substring_ascii(a, point));
    } else {
        out.push('0');
    }
    assert(out@ =~= stripped(text@));
    (out, point - a, b - from)
}

impl Amount {
    /// Reads an amount from text.
    ///
    /// The text must have the shape of a decimal number: an optional sign, digits,
    /// and optionally a point and more digits, with at least one digit. The amount
    /// is the number that the digits spell at their places, which must be a whole
    /// number of ten-thousandths in range: a text that could only be taken by
    /// rounding is refused. Zeros that say nothing, before the whole part or after
    /// the fraction, are never in the way, however many they are.
    pub fn from_str(text: &str) -> (r: Result<Amount, ParseError>)
        ensures
            match r {
                Ok(amount) => parsed_value(text@) == Some(amount@),
                Err(_) => parsed_value(text@) is None,
            },
            r == match amount_of_text(text@) {
                Some(amount) => Ok::<Amount, ParseError>(amount),
                None => Err::<Amount, ParseError>(ParseError),
            },
    {
        broadcast use Amount::lemma_with_scaled;

        let bytes = match ascii_bytes(text) {
            Some(bytes) => bytes,
            None => {
                proof {
                    if is_decimal_text(text@) {
                        lemma_decimal_text_is_ascii(text@);
                    }
                }
                return Err(ParseError);
            },
        };
        let (start, point) = match scan_decimal(text, bytes) {
            Some(places) => places,
            None => {
                return Err(ParseError);
            },
        };
        let (reduced, whole_length, fraction_length) = strip_zeros(text, bytes, start, point);
        proof {
            lemma_stripped_denotes(text@);
        }
        if fraction_length > 4 {
            // a digit that counts stands beyond the fourth place
            proof {
                lemma_too_fine(stripped(text@));
            }
            return Err(ParseError);
        }
        if whole_length > 19 {
            // the number is out of range whatever its digits are
            proof {
                lemma_too_large(stripped(text@));
            }
            return Err(ParseError);
        }
        proof {
            lemma_within_reach(stripped(text@));
        }
        match parse_decimal(reduced.as_str()) {
            Some((mantissa, scale)) => match Amount::from_decimal(mantissa, scale) {
                Ok(amount) => Ok(amount),
                Err(_) => Err(ParseError),
            },
            None => Err(ParseError),
        }
    }

    /// Writes the amount in canonical form: no sign but a minus, no leading zeros
    /// before a whole part that is at least "0", no point where the amount is whole,
    /// and no trailing zeros after the point.
    pub fn to_string(&self) -> (text: String)
        ensures
            text@ == canonical_text(self@),
    {
        let mut out = String::new();
        let magnitude: u64 = if self.scaled < 0 {
            out.push('-');
            (-(self.scaled + 1)) as u64 + 1
        } else {
            self.scaled as u64
        };
        let ghost sign = out@;
        assert(sign =~= if self.scaled < 0 {
            seq!['-']
        } else {
            Seq::<char>::empty()
        });
        push_decimal(&mut out, magnitude / 10_000);
        let mut fraction: u64 = magnitude % 10_000;
        let ghost target = canonical_text(self@);
        assert(sign + canonical_unsigned(magnitude as nat) =~= target);
        if fraction != 0 {
            out.push('.');
            let mut unit: u64 = 1000;
            assert(out@ + fraction_digits(fraction as nat, unit as nat) =~= target);
            while fraction != 0
                invariant
                    fraction == 0 || fraction < 10 * unit,
                    unit == 1000 || unit == 100 || unit == 10 || unit == 1 || unit == 0,
                    out@ + fraction_digits(fraction as nat, unit as nat) == target,
                decreases unit,
            {
                let ghost before = out@;
                let ghost rest = fraction_digits((fraction % unit) as nat, (unit / 10) as nat);
                assert(fraction / unit <= 9) by (nonlinear_arith)
                    requires
                        fraction < 10 * unit,
                        unit > 0,
                ;
                push_digit(&mut out, (fraction / unit) as u8);
                assert(before + (seq![digit_char((fraction / unit) as int)] + rest) =~= before.push(
                    digit_char((fraction / unit) as int),
                ) + rest);
                fraction = fraction % unit;
                unit = unit / 10;
            }
            assert(out@ + Seq::<char>::empty() =~= out@);
        } else {
            assert(out@ =~= target);
        }
        out
    }
}


/// The digits of a text that has the shape of a decimal number, without its sign
/// and its point.
pub open spec fn numeral_digits(text: Seq<char>) -> Seq<char> {
    let body = unsigned_part(text);
    let whole = leading_digits(body) as int;
    if whole >= body.len() {
        body
    } else {
        body.take(whole) + body.skip(whole + 1)
    }
}

/// How many digits a text that has the shape of a decimal number has after its point.
pub open spec fn numeral_scale(text: Seq<char>) -> nat {
    let body = unsigned_part(text);
    let whole = leading_digits(body) as int;
    if whole >= body.len() {
        0
    } else {
        (body.len() - whole - 1) as nat
    }
}

/// The number that the digits of a decimal text denote, with the sign of the text.
/// The text stands for this number divided by ten to the power of its scale.
pub open spec fn numeral_mantissa(text: Seq<char>) -> int {
    let magnitude = digits_value(numeral_digits(text)) as int;
    if text.len() > 0 && text[0] == '-' {
        -magnitude
    } else {
        magnitude
    }
}

/// How many digits a fraction has whose first digit has the weight `unit`.
pub open spec fn places(unit: nat) -> nat {
    if unit == 1000 {
        4
    } else if unit == 100 {
        3
    } else if unit == 10 {
        2
    } else if unit == 1 {
        1
    } else {
        0
    }
}

/// The fractional digits are digits, at most as many as there are places, and
/// denote the fraction once the places that they leave out are filled with zeros.
/// A fraction that is not zero has a digit, and its last digit is not a zero.
pub proof fn lemma_fraction_digits(fraction: nat, unit: nat)
    requires
        unit == 1000 || unit == 100 || unit == 10 || unit == 1 || unit == 0,
        fraction < 10 * unit || fraction == 0,
    ensures
        all_digits(fraction_digits(fraction, unit)),
        fraction_digits(fraction, unit).len() <= places(unit),
        digits_value(fraction_digits(fraction, unit)) * pow10(
            (places(unit) - fraction_digits(fraction, unit).len()) as nat,
        ) == fraction,
        fraction > 0 ==> fraction_digits(fraction, unit).len() > 0 && fraction_digits(
            fraction,
            unit,
        ).last() != '0',
    decreases unit,
{
    let digits = fraction_digits(fraction, unit);
    if fraction == 0 || unit == 0 {
        assert(digits =~= Seq::<char>::empty());
        assert(digits_value(digits) == 0);
        assert(0 * pow10((places(unit) - 0) as nat) == 0) by (nonlinear_arith);
    } else {
        let first = (fraction / unit) as int;
        let rest = fraction_digits(fraction % unit, unit / 10);
        assert(0 <= first <= 9) by (nonlinear_arith)
            requires
                first == fraction / unit,
                fraction < 10 * unit,
                unit > 0,
        ;
        lemma_digit_char(first);
        lemma_fraction_digits(fraction % unit, unit / 10);
        let head = seq![digit_char(first)];
        assert(head.drop_last() =~= Seq::<char>::empty());
        assert(digits_value(head) == first) by {
            assert(digits_value(head.drop_last()) == 0);
            assert(head.last() == digit_char(first));
        }
        lemma_digits_value_concat(head, rest);
        assert(digits == head + rest);
        let k = places(unit);
        assert(unit == pow10((k - 1) as nat)) by {
            reveal_with_fuel(pow10, 5);
        }
        lemma_pow10_add(rest.len(), (k - 1 - rest.len()) as nat);
        let pr = pow10(rest.len()) as int;
        let pz = pow10((k - 1 - rest.len()) as nat) as int;
        let vr = digits_value(rest) as int;
        assert((first * pr + vr) * pz == first * (pr * pz) + vr * pz) by (nonlinear_arith);
        assert(fraction == first * unit + fraction % unit) by {
            lemma_fundamental_div_mod(fraction as int, unit as int);
            assert(unit * first == first * unit) by (nonlinear_arith);
        }
        assert(places(unit / 10) == k - 1);
        if rest.len() == 0 {
            assert(digits =~= head);
            assert(first != 0) by {
                if first == 0 {
                    assert(fraction % unit == 0);
                }
            }
        } else {
            assert(digits.last() == rest.last());
        }
    }
}

/// The canonical form of a scaled value has the shape of a decimal number, and
/// read as one it stands for exactly that value: its digits and its scale give
/// the scaled value back. So an amount that is written and read again, by a
/// reader that takes digits at their places, is the same amount.
pub proof fn lemma_canonical_text_denotes(scaled: int)
    requires
        fits(scaled),
    ensures
        is_decimal_text(canonical_text(scaled)),
        numeral_scale(canonical_text(scaled)) <= 4,
        scaled_of_decimal(
            numeral_mantissa(canonical_text(scaled)),
            numeral_scale(canonical_text(scaled)),
        ) == Some(scaled),
{
    let text = canonical_text(scaled);
    let magnitude = (if scaled < 0 {
        -scaled
    } else {
        scaled
    }) as nat;
    let whole = decimal_digits(magnitude / 10_000);
    let fraction = magnitude % 10_000;
    let places_text = fraction_digits(fraction, 1000);
    let body = canonical_unsigned(magnitude);
    lemma_decimal_digits(magnitude / 10_000);
    lemma_fraction_digits(fraction, 1000);
    assert(is_digit(whole[0])) by {
        assert(all_digits(whole));
    }
    assert(body[0] == whole[0]);
    assert(unsigned_part(text) =~= body) by {
        if scaled < 0 {
            assert(text[0] == '-');
            assert(text.skip(1) =~= body);
        } else {
            assert(text =~= body);
            assert(text[0] == whole[0]);
        }
    }
    assert(text.len() > 0 && (text[0] == '-' <==> scaled < 0)) by {
        if scaled >= 0 {
            assert(text[0] == whole[0]);
        }
    }
    assert forall|i: int| 0 <= i < whole.len() implies is_digit(#[trigger] body[i]) by {
        assert(body[i] == whole[i]);
    }
    if fraction == 0 {
        lemma_leading_digits_count(body, whole.len() as int);
        assert(numeral_digits(text) == whole);
        assert(pow10(4) == 10_000) by {
            reveal_with_fuel(pow10, 5);
        }
        lemma_scaled_of_short(numeral_mantissa(text), 0, 10_000);
        lemma_fundamental_div_mod(magnitude as int, 10_000);
        assert(-0x8000_0000_0000_0000 <= numeral_mantissa(text) <= 0x8000_0000_0000_0000);
    } else {
        assert(body[whole.len() as int] == '.');
        lemma_leading_digits_count(body, whole.len() as int);
        assert(body.take(whole.len() as int) =~= whole);
        assert(body.skip(whole.len() as int + 1) =~= places_text);
        assert(numeral_digits(text) == whole + places_text);
        let count = places_text.len();
        assert(numeral_scale(text) == count);
        lemma_digits_value_concat(whole, places_text);
        let factor = pow10((4 - count) as nat) as int;
        let mantissa = numeral_mantissa(text);
        lemma_scaled_of_short(mantissa, count, factor);
        lemma_pow10_add(count, (4 - count) as nat);
        assert(pow10(4) == 10_000) by {
            reveal_with_fuel(pow10, 5);
        }
        lemma_fundamental_div_mod(magnitude as int, 10_000);
        let w = (magnitude / 10_000) as int;
        let pc = pow10(count) as int;
        let vf = digits_value(places_text) as int;
        assert((w * pc + vf) * factor == w * 10_000 + fraction) by (nonlinear_arith)
            requires
                pc * factor == 10_000,
                vf * factor == fraction,
        ;
        assert(mantissa * factor == scaled) by (nonlinear_arith)
            requires
                (w * pc + vf) * factor == magnitude,
                mantissa == (if scaled < 0 {
                    -(w * pc + vf)
                } else {
                    w * pc + vf
                }),
                magnitude == (if scaled < 0 {
                    -scaled
                } else {
                    scaled
                }),
        ;
        lemma_pow10_positive((4 - count) as nat);
        assert(-0x8000_0000_0000_0000 <= mantissa <= 0x8000_0000_0000_0000) by (nonlinear_arith)
            requires
                mantissa * factor == scaled,
                factor >= 1,
                -0x8000_0000_0000_0000 <= scaled <= 0x8000_0000_0000_0000,
        ;
    }
}


/// The canonical form is canonical: it has a sign only where the value is
/// negative, and then a minus; its whole part has no leading zero, but is "0"
/// where the value is less than a unit; it has a point only where the value is not
/// whole, and then it ends in a digit that is not zero. Zero is "0".
pub proof fn lemma_canonical_form(scaled: int)
    ensures
        canonical_text(0) == seq!['0'],
        canonical_text(scaled).len() > 0,
        canonical_text(scaled)[0] == '-' <==> scaled < 0,
        canonical_text(scaled)[0] != '+',
        canonical_text(scaled)[0] == '-' || is_digit(canonical_text(scaled)[0]),
        scaled % 10_000 == 0 ==> all_digits(unsigned_part(canonical_text(scaled))),
        scaled % 10_000 != 0 ==> is_digit(canonical_text(scaled).last()) && canonical_text(
            scaled,
        ).last() != '0',
        scaled >= 10_000 || scaled <= -10_000 ==> unsigned_part(canonical_text(scaled))[0] != '0',
{
    let text = canonical_text(scaled);
    let magnitude = (if scaled < 0 {
        -scaled
    } else {
        scaled
    }) as nat;
    let whole = decimal_digits(magnitude / 10_000);
    let fraction = magnitude % 10_000;
    let places_text = fraction_digits(fraction, 1000);
    let body = canonical_unsigned(magnitude);
    lemma_decimal_digits(magnitude / 10_000);
    lemma_fraction_digits(fraction, 1000);
    assert(canonical_text(0) =~= seq!['0']) by {
        assert(decimal_digits(0) =~= seq!['0']);
    }
    assert(is_digit(whole[0]));
    assert(body[0] == whole[0]);
    if scaled < 0 {
        assert(text[0] == '-');
        assert(text.skip(1) =~= body);
    } else {
        assert(text =~= body);
    }
    assert(unsigned_part(text) =~= body);
    if fraction == 0 {
        assert(body == whole);
    } else {
        assert(text.last() == places_text.last());
        assert(is_digit(places_text.last()));
    }
    if magnitude >= 10_000 {
        assert(magnitude / 10_000 > 0);
    }
}


/// Reading what was written gives the amount back, for every amount, the smallest
/// and the largest among them. And what is written for the amount that a text
/// denotes is a text that denotes the same amount: its canonical form.
pub proof fn lemma_round_trip(amount: Amount, text: Seq<char>)
    ensures
        amount_of_text(canonical_text(amount@)) == Some(amount),
        amount_of_text(text) == Some(amount) ==> parsed_value(text) == parsed_value(
            canonical_text(amount@),
        ),
{
    broadcast use Amount::lemma_with_scaled;
    broadcast use Amount::lemma_view_in_range;

    lemma_canonical_text_denotes(amount@);
}

} // verus!
