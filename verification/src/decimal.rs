//! Arbitrary-precision decimal numbers.
//!
//! A number is kept as the digits of an integer and a scale: its value is the
//! integer divided by ten to the power of the scale. Reading a number from
//! text, writing it as text and stripping trailing zeros are the work of the
//! `bigdecimal` crate.

use vstd::prelude::*;
use bigdecimal::num_bigint::BigInt;
use bigdecimal::BigDecimal;
use std::str::FromStr;

verus! {

/// A decimal number: the decimal digits of an integer, with a leading `-` for
/// a negative one, and the number of those digits that follow the decimal
/// point.
#[derive(Clone, Debug, PartialEq, Eq)]
pub struct Decimal {
    pub unscaled: String,
    pub scale: i64,
}

/// A decimal number as contracts see it.
pub struct DecimalModel {
    pub unscaled: Seq<char>,
    pub scale: int,
}

impl View for Decimal {
    type V = DecimalModel;

    open spec fn view(&self) -> DecimalModel {
        DecimalModel { unscaled: self.unscaled@, scale: self.scale as int }
    }
}

/// The number that `bigdecimal` reads from `text`, if it reads one.
pub uninterp spec fn parsed_decimal(text: Seq<char>) -> Option<DecimalModel>;

/// The text that `bigdecimal` writes for a number, if its digits are those of
/// an integer.
pub uninterp spec fn decimal_text(number: DecimalModel) -> Option<Seq<char>>;

/// The number that `bigdecimal` makes of a number by stripping the trailing
/// zeros of its digits, if its digits are those of an integer.
pub uninterp spec fn normalized_decimal(number: DecimalModel) -> Option<DecimalModel>;

/// `BigDecimal::from_str`: reads a decimal number from text. The result is
/// the number that the crate reads, split into the digits of its integer and
/// its scale, or `None` where the crate reports a parse error.
#[verifier::external_body]
pub(crate) fn parse_decimal(text: &str) -> (r: Option<Decimal>)
    ensures
        match r {
            Some(d) => parsed_decimal(text@) == Some(d@),
            None => parsed_decimal(text@) is None,
        },
{
    match BigDecimal::from_str(text) {
        Ok(d) => {
            let (digits, scale) = d.into_bigint_and_exponent();
            Some(Decimal { unscaled: digits.to_string(), scale })
        },
        Err(_) => None,
    }
}

/// `BigDecimal`'s `Display`: writes a number as text. The result is the text
/// that the crate, as it was built, writes for the number with these digits
/// and this scale, or `None` where the digits are not those of an integer.
#[verifier::external_body]
pub(crate) fn render_decimal(d: &Decimal) -> (r: Option<String>)
    ensures
        match r {
            Some(t) => decimal_text(d@) == Some(t@),
            None => decimal_text(d@) is None,
        },
{
    match BigInt::from_str(d.unscaled.as_str()) {
        Ok(digits) => Some(BigDecimal::new(digits, d.scale).to_string()),
        Err(_) => None,
    }
}

/// `BigDecimal::normalized`: strips the trailing zeros of a number's digits
/// and lowers the scale by their count. The call is left out where the scale
/// could fall below the least `i64`.
#[verifier::external_body]
pub(crate) fn normalize_decimal(d: &Decimal) -> (r: Option<Decimal>)
    requires
        d.scale - d.unscaled@.len() >= i64::MIN,
    ensures
        match r {
            Some(n) => normalized_decimal(d@) == Some(n@),
            None => normalized_decimal(d@) is None,
        },
{
    match BigInt::from_str(d.unscaled.as_str()) {
        Ok(digits) => {
            let (digits, scale) = BigDecimal::new(digits, d.scale).normalized().into_bigint_and_exponent();
            Some(Decimal { unscaled: digits.to_string(), scale })
        },
        Err(_) => None,
    }
}

impl Decimal {
    /// Whether both numbers have the same digits and the same scale.
    pub fn same(&self, other: &Decimal) -> (r: bool)
        ensures
            r == (self@ == other@),
    {
        self.scale == other.scale && self.unscaled == other.unscaled
    }

    /// A second number with the same digits and scale.
    pub fn duplicate(&self) -> (r: Decimal)
        ensures
            r@ == self@,
    {
        Decimal { unscaled: self.unscaled.clone(), scale: self.scale }
    }

    /// The number that `text` spells, if it spells one.
    pub fn parse(text: &str) -> (r: Option<Decimal>)
        ensures
            match r {
                Some(d) => parsed_decimal(text@) == Some(d@),
                None => parsed_decimal(text@) is None,
            },
    {
        parse_decimal(text)
    }

    /// The number as text; the empty text where its digits are not those of
    /// an integer.
    pub fn to_text(&self) -> (r: String)
        ensures
            r@ == spec_decimal_display(self@),
    {
        match render_decimal(self) {
            Some(t) => t,
            None => String::new(),
        }
    }

    /// A hundredth of the number with trailing zeros stripped, where the
    /// scale has room for two more digits.
    pub fn hundredth(&self) -> (r: Option<Decimal>)
        ensures
            match r {
                Some(d) => spec_hundredth(self@) == Some(d@),
                None => spec_hundredth(self@) is None,
            },
    {
        if self.scale > i64::MAX - 2 {
            return None;
        }
        let shifted = Decimal { unscaled: self.unscaled.clone(), scale: self.scale + 2 };
        let digits = shifted.unscaled.as_str().unicode_len();
        if shifted.scale as i128 - (digits as i128) < i64::MIN as i128 {
            return None;
        }
        normalize_decimal(&shifted)
    }
}

/// The text of a number, empty where it has none.
pub open spec fn spec_decimal_display(d: DecimalModel) -> Seq<char> {
    match decimal_text(d) {
        Some(t) => t,
        None => Seq::empty(),
    }
}

/// A hundredth of a number: two more digits behind the decimal point, then
/// trailing zeros stripped.
pub open spec fn spec_hundredth(d: DecimalModel) -> Option<DecimalModel> {
    if d.scale > i64::MAX - 2 || d.scale + 2 - d.unscaled.len() < i64::MIN {
        None
    } else {
        normalized_decimal(DecimalModel { unscaled: d.unscaled, scale: d.scale + 2 })
    }
}

} // verus!
