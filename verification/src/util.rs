use vstd::prelude::*;

verus! {

// Grammar punctuation bytes, written as their ASCII codes
// (Verus does not accept byte-character literals).
/// `[`
pub const ARRAY_OPEN: u8 = 91;
/// `]`
pub const ARRAY_CLOSE: u8 = 93;
/// `,`
pub const ARRAY_DELIMITER: u8 = 44;
/// `{`
pub const OBJECT_OPEN: u8 = 123;
/// `}`
pub const OBJECT_CLOSE: u8 = 125;
/// `,`
pub const OBJECT_ENTRY_DELIMITER: u8 = 44;
/// `:`
pub const OBJECT_KV_DELIMITER: u8 = 58;
/// `"`
pub const STRING_BOUNDARY: u8 = 34;
/// `\`
pub const ESCAPE: u8 = 92;
/// `.`
pub const NUMBER_DECIMAL_DELIMITER: u8 = 46;
/// `-`
pub const NEGATIVE: u8 = 45;
/// `+`
pub const POSITIVE: u8 = 43;
/// `e`
pub const EXPONENT: u8 = 101;

// First bytes of the three literals `true`, `false` and `null`.
/// `t`
pub const TRUE_IDENT: u8 = 116;
/// `f`
pub const FALSE_IDENT: u8 = 102;
/// `n`
pub const NULL_IDENT: u8 = 110;

// The four whitespace bytes: space, newline, carriage return, tab.
/// ` `
pub const SPACE: u8 = 32;
/// `\n`
pub const NEWLINE: u8 = 10;
/// `\r`
pub const CARRIAGE_RETURN: u8 = 13;
/// `\t`
pub const TAB: u8 = 9;

/// `0`
pub const DIGIT_ZERO: u8 = 48;
/// `9`
pub const DIGIT_NINE: u8 = 57;

/// The four whitespace bytes the parser skips: space, newline, carriage return, tab.
pub open spec fn is_whitespace_byte(b: u8) -> bool {
    b == SPACE || b == NEWLINE || b == CARRIAGE_RETURN || b == TAB
}

/// An ASCII decimal digit.
pub open spec fn is_digit_byte(b: u8) -> bool {
    DIGIT_ZERO <= b <= DIGIT_NINE
}

/// A byte that may continue a numeric token: a digit, the decimal point,
/// the exponent marker or the minus sign.
pub open spec fn is_numeric_like_byte(b: u8) -> bool {
    is_digit_byte(b) || b == NUMBER_DECIMAL_DELIMITER || b == EXPONENT || b == NEGATIVE
}

/// A byte that may open a numeric token: a digit or the minus sign.
pub open spec fn is_numeric_or_negative_byte(b: u8) -> bool {
    is_digit_byte(b) || b == NEGATIVE
}

/// A byte of the full numeric accumulation set, the plus sign included
/// (a plus is only ever valid directly after the exponent marker).
pub open spec fn is_number_token_byte(b: u8) -> bool {
    is_numeric_like_byte(b) || b == POSITIVE
}

/// Whether `input` is a digit, the decimal point, the exponent marker or the minus sign.
pub fn is_numeric_like(input: u8) -> (r: bool)
    ensures
        r == is_numeric_like_byte(input),
{
    (DIGIT_ZERO <= input && input <= DIGIT_NINE) || input == NUMBER_DECIMAL_DELIMITER
        || input == EXPONENT || input == NEGATIVE
}

/// Whether `input` is a digit or the minus sign.
pub fn is_numeric_or_negative(input: u8) -> (r: bool)
    ensures
        r == is_numeric_or_negative_byte(input),
{
    (DIGIT_ZERO <= input && input <= DIGIT_NINE) || input == NEGATIVE
}

/// Whether `input` is an ASCII decimal digit.
pub fn is_digit(input: u8) -> (r: bool)
    ensures
        r == is_digit_byte(input),
{
    DIGIT_ZERO <= input && input <= DIGIT_NINE
}

/// Whether `input` belongs to the full numeric accumulation set.
pub fn is_number_token(input: u8) -> (r: bool)
    ensures
        r == is_number_token_byte(input),
{
    is_numeric_like(input) || input == POSITIVE
}

/// Whether `input` is one of the four whitespace bytes.
pub fn is_whitespace(input: u8) -> (r: bool)
    ensures
        r == is_whitespace_byte(input),
{
    input == SPACE || input == NEWLINE || input == CARRIAGE_RETURN || input == TAB
}

} // verus!
