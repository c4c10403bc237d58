//! Why a text is not an immediate of the kind asked for.

use vstd::prelude::*;

verus! {

/// A reason for refusing the text of an immediate operand.
#[derive(Clone, Copy, Debug, PartialEq, Eq, Structural)]
pub enum ParseError {
    /// More than 16 hexadecimal digits in an integer.
    TooManyHexadecimalDigits,
    /// A character other than a digit or `_` in a hexadecimal integer.
    InvalidHexadecimalCharacter,
    /// A decimal integer above 2^64 - 1.
    TooLargeDecimal,
    /// A character other than a digit or `_` in a decimal integer.
    InvalidDecimalCharacter,
    /// An integer without any digit.
    NoDigitsInNumber,
    /// A negative integer below -2^63.
    NegativeTooSmall,
    /// A `Uimm32` outside 0 ..= 2^32 - 1.
    Uimm32OutOfRange,
    /// An offset without a leading sign.
    OffsetWithoutSign,
    /// An offset outside the range of `i32`.
    OffsetOutOfRange,
    /// A float that is neither hexadecimal nor one of the special forms.
    FloatNotHexadecimal,
    /// A quiet NaN payload that is not a hexadecimal number below the quiet bit.
    InvalidNanPayload,
    /// A signaling NaN payload that is not a nonzero hexadecimal number below the quiet bit.
    InvalidSnanPayload,
    /// A second `.` in a hexadecimal float.
    MultipleRadixPoints,
    /// An exponent after `p` that is not a decimal `i16`.
    BadExponent,
    /// More than 16 hexadecimal digits in a float.
    TooManyDigits,
    /// A character other than a digit, `.` or `p` in a hexadecimal float.
    InvalidCharacter,
    /// A hexadecimal float without any digit.
    NoDigits,
    /// A significand with more bits than the format holds.
    TooManySignificantBits,
    /// A magnitude above the largest finite number of the format.
    MagnitudeTooLarge,
    /// A subnormal magnitude whose low bits would be lost.
    SubnormalUnderflow,
    /// A magnitude below the smallest subnormal number of the format.
    MagnitudeTooSmall,
}

impl ParseError {
    /// The message that describes this error.
    pub fn message(&self) -> (m: &'static str)
        ensures
            m@ == self.message_text(),
    {
        match self {
            ParseError::TooManyHexadecimalDigits => "Too many hexadecimal digits",
            ParseError::InvalidHexadecimalCharacter => "Invalid character in hexadecimal number",
            ParseError::TooLargeDecimal => "Too large decimal number",
            ParseError::InvalidDecimalCharacter => "Invalid character in decimal number",
            ParseError::NoDigitsInNumber => "No digits in number",
            ParseError::NegativeTooSmall => "Negative number too small",
            ParseError::Uimm32OutOfRange => "Uimm32 out of range",
            ParseError::OffsetWithoutSign => "Offset must begin with sign",
            ParseError::OffsetOutOfRange => "Offset out of range",
            ParseError::FloatNotHexadecimal => "Float must be hexadecimal",
            ParseError::InvalidNanPayload => "Invalid NaN payload",
            ParseError::InvalidSnanPayload => "Invalid sNaN payload",
            ParseError::MultipleRadixPoints => "Multiple radix points",
            ParseError::BadExponent => "Bad exponent",
            ParseError::TooManyDigits => "Too many digits",
            ParseError::InvalidCharacter => "Invalid character",
            ParseError::NoDigits => "No digits",
            ParseError::TooManySignificantBits => "Too many significant bits",
            ParseError::MagnitudeTooLarge => "Magnitude too large",
            ParseError::SubnormalUnderflow => "Subnormal underflow",
            ParseError::MagnitudeTooSmall => "Magnitude too small",
        }
    }

    /// The text of the message of this error.
    pub open spec fn message_text(&self) -> Seq<char> {
        match self {
            ParseError::TooManyHexadecimalDigits => "Too many hexadecimal digits"@,
            ParseError::InvalidHexadecimalCharacter => "Invalid character in hexadecimal number"@,
            ParseError::TooLargeDecimal => "Too large decimal number"@,
            ParseError::InvalidDecimalCharacter => "Invalid character in decimal number"@,
            ParseError::NoDigitsInNumber => "No digits in number"@,
            ParseError::NegativeTooSmall => "Negative number too small"@,
            ParseError::Uimm32OutOfRange => "Uimm32 out of range"@,
            ParseError::OffsetWithoutSign => "Offset must begin with sign"@,
            ParseError::OffsetOutOfRange => "Offset out of range"@,
            ParseError::FloatNotHexadecimal => "Float must be hexadecimal"@,
            ParseError::InvalidNanPayload => "Invalid NaN payload"@,
            ParseError::InvalidSnanPayload => "Invalid sNaN payload"@,
            ParseError::MultipleRadixPoints => "Multiple radix points"@,
            ParseError::BadExponent => "Bad exponent"@,
            ParseError::TooManyDigits => "Too many digits"@,
            ParseError::InvalidCharacter => "Invalid character"@,
            ParseError::NoDigits => "No digits"@,
            ParseError::TooManySignificantBits => "Too many significant bits"@,
            ParseError::MagnitudeTooLarge => "Magnitude too large"@,
            ParseError::SubnormalUnderflow => "Subnormal underflow"@,
            ParseError::MagnitudeTooSmall => "Magnitude too small"@,
        }
    }
}

} // verus!
