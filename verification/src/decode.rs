//! Record decoder: converts a value byte-slice in the fixed textual form
//! `[-]D[D].D` (one or two integer digits, exactly one fractional digit,
//! optional leading minus) into a scaled integer (`decimal value * 10`).

use vstd::prelude::*;

verus! {

/// ASCII `'0'`.
pub const DIGIT_ZERO: u8 = 48;

/// ASCII `'9'`.
pub const DIGIT_NINE: u8 = 57;

/// ASCII `'.'`.
pub const DOT: u8 = 46;

/// ASCII `'-'`.
pub const MINUS: u8 = 45;

/// Errors of the parsing pipeline.
///
/// `MalformedRecord`: a byte range was exhausted without finding the field
/// delimiter before a key could be completed.
/// `InvalidNumberFormat`: a value slice's length or characters do not match
/// the fixed form `[-]D[D].D`.
#[derive(Clone, Copy, Debug, PartialEq, Eq, Structural)]
pub enum ParseError {
    MalformedRecord,
    InvalidNumberFormat,
}

/// An ASCII decimal digit.
pub open spec fn is_digit(b: u8) -> bool {
    DIGIT_ZERO <= b && b <= DIGIT_NINE
}

/// The value slice matches the fixed form `[-]D[D].D`.
pub open spec fn valid_value(v: Seq<u8>) -> bool {
    if v.len() == 3 {
        is_digit(v[0]) && v[1] == DOT && is_digit(v[2])
    } else if v.len() == 4 {
        ||| (v[0] == MINUS && is_digit(v[1]) && v[2] == DOT && is_digit(v[3]))
        ||| (is_digit(v[0]) && is_digit(v[1]) && v[2] == DOT && is_digit(v[3]))
    } else if v.len() == 5 {
        v[0] == MINUS && is_digit(v[1]) && is_digit(v[2]) && v[3] == DOT && is_digit(v[4])
    } else {
        false
    }
}

/// The scaled integer denoted by a valid value slice: the decimal value
/// times ten, so `"45.1"` denotes `451` and `"-5.5"` denotes `-55`.
pub open spec fn decoded_value(v: Seq<u8>) -> int {
    if v.len() == 3 {
        (v[0] - DIGIT_ZERO) * 10 + (v[2] - DIGIT_ZERO)
    } else if v.len() == 4 && v[0] == MINUS {
        -((v[1] - DIGIT_ZERO) * 10 + (v[3] - DIGIT_ZERO))
    } else if v.len() == 4 {
        (v[0] - DIGIT_ZERO) * 100 + (v[1] - DIGIT_ZERO) * 10 + (v[3] - DIGIT_ZERO)
    } else {
        -((v[1] - DIGIT_ZERO) * 100 + (v[2] - DIGIT_ZERO) * 10 + (v[4] - DIGIT_ZERO))
    }
}

/// Every valid value slice denotes a scaled integer in `[-999, 999]`.
pub proof fn lemma_decoded_value_bounds(v: Seq<u8>)
    requires
        valid_value(v),
    ensures
        -999 <= decoded_value(v) <= 999,
{
}

/// Decodes a value byte-slice of the fixed form `[-]D[D].D` into the scaled
/// integer it denotes; length-dispatched, with no general numeric parser.
/// Rejects every other slice with `InvalidNumberFormat`.
pub fn parse_temp_fast(bytes: &[u8]) -> (r: Result<i32, ParseError>)
    ensures
        valid_value(bytes@) ==> r == Ok::<i32, ParseError>(decoded_value(bytes@) as i32),
        !valid_value(bytes@) ==> r == Err::<i32, ParseError>(ParseError::InvalidNumberFormat),
{
    let len = bytes.len();
    if len == 3 {
        let d1 = bytes[0];
        let dot = bytes[1];
        let d0 = bytes[2];
        if DIGIT_ZERO <= d1 && d1 <= DIGIT_NINE && dot == DOT && DIGIT_ZERO <= d0 && d0 <= DIGIT_NINE {
            Ok((d1 - DIGIT_ZERO) as i32 * 10 + (d0 - DIGIT_ZERO) as i32)
        } else {
            Err(ParseError::InvalidNumberFormat)
        }
    } else if len == 4 {
        let b0 = bytes[0];
        let d1 = bytes[1];
        let dot = bytes[2];
        let d0 = bytes[3];
        if b0 == MINUS && DIGIT_ZERO <= d1 && d1 <= DIGIT_NINE && dot == DOT && DIGIT_ZERO <= d0 && d0 <= DIGIT_NINE {
            Ok(-((d1 - DIGIT_ZERO) as i32 * 10 + (d0 - DIGIT_ZERO) as i32))
        } else if DIGIT_ZERO <= b0 && b0 <= DIGIT_NINE && DIGIT_ZERO <= d1 && d1 <= DIGIT_NINE && dot == DOT && DIGIT_ZERO <= d0
            && d0 <= DIGIT_NINE {
            Ok((b0 - DIGIT_ZERO) as i32 * 100 + (d1 - DIGIT_ZERO) as i32 * 10 + (d0 - DIGIT_ZERO) as i32)
        } else {
            Err(ParseError::InvalidNumberFormat)
        }
    } else if len == 5 {
        let b0 = bytes[0];
        let d2 = bytes[1];
        let d1 = bytes[2];
        let dot = bytes[3];
        let d0 = bytes[4];
        if b0 == MINUS && DIGIT_ZERO <= d2 && d2 <= DIGIT_NINE && DIGIT_ZERO <= d1 && d1 <= DIGIT_NINE && dot == DOT
            && DIGIT_ZERO <= d0 && d0 <= DIGIT_NINE {
            Ok(-((d2 - DIGIT_ZERO) as i32 * 100 + (d1 - DIGIT_ZERO) as i32 * 10 + (d0 - DIGIT_ZERO) as i32))
        } else {
            Err(ParseError::InvalidNumberFormat)
        }
    } else {
        Err(ParseError::InvalidNumberFormat)
    }
}

} // verus!
