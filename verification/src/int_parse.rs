//! Parsing of decimal and hexadecimal integers with `_` separators.

use vstd::prelude::*;
use crate::chars::{is_dec_digit, is_hex_digit, hex_value, hex_digit_value, chars_of};
use crate::error::ParseError;
use crate::render::pow16;

verus! {

/// Scans the hexadecimal digits of `s` from position `i` on, with `value` and
/// `digits` gathered so far: underscores are skipped, any other non-digit is
/// refused, and a 17th digit is refused.
pub open spec fn scan_hex_int(s: Seq<char>, i: nat, value: nat, digits: nat) -> Result<
    (nat, nat),
    ParseError,
>
    decreases s.len() - i,
{
    if i >= s.len() {
        Ok((value, digits))
    } else if is_hex_digit(s[i as int]) {
        if digits + 1 > 16 {
            Err(ParseError::TooManyHexadecimalDigits)
        } else {
            scan_hex_int(s, i + 1, value * 16 + hex_value(s[i as int]), digits + 1)
        }
    } else if s[i as int] == '_' {
        scan_hex_int(s, i + 1, value, digits)
    } else {
        Err(ParseError::InvalidHexadecimalCharacter)
    }
}

/// Scans the decimal digits of `s` from position `i` on, with `value` and
/// `digits` gathered so far: underscores are skipped, any other non-digit is
/// refused, and a value above 2^64 - 1 is refused.
pub open spec fn scan_dec_int(s: Seq<char>, i: nat, value: nat, digits: nat) -> Result<
    (nat, nat),
    ParseError,
>
    decreases s.len() - i,
{
    if i >= s.len() {
        Ok((value, digits))
    } else if is_dec_digit(s[i as int]) {
        if value * 10 + hex_value(s[i as int]) > u64::MAX {
            Err(ParseError::TooLargeDecimal)
        } else {
            scan_dec_int(s, i + 1, value * 10 + hex_value(s[i as int]), digits + 1)
        }
    } else if s[i as int] == '_' {
        scan_dec_int(s, i + 1, value, digits)
    } else {
        Err(ParseError::InvalidDecimalCharacter)
    }
}

/// The length of the sign that starts `s`: 1 for `-` or `+`, else 0.
pub open spec fn sign_len(s: Seq<char>) -> nat {
    if s.len() > 0 && (s[0] == '-' || s[0] == '+') {
        1
    } else {
        0
    }
}

/// `s` holds `0x` at position `i`.
pub open spec fn has_hex_prefix(s: Seq<char>, i: nat) -> bool {
    s.len() >= i + 2 && s[i as int] == '0' && s[i + 1int] == 'x'
}

/// The magnitude of the integer `s` and its number of digits: after an
/// optional sign, `0x` and hexadecimal digits, or decimal digits.
pub open spec fn scan_magnitude(s: Seq<char>) -> Result<(nat, nat), ParseError> {
    let b = sign_len(s);
    if has_hex_prefix(s, b) {
        scan_hex_int(s, b + 2, 0, 0)
    } else {
        scan_dec_int(s, b, 0, 0)
    }
}

/// The `i64` whose two's complement bits are those of the `u64` value `v`.
pub open spec fn wrap_i64(v: nat) -> int {
    if v < 0x8000_0000_0000_0000 {
        v as int
    } else {
        v - 0x1_0000_0000_0000_0000
    }
}

/// The number that the text `s` denotes: a magnitude up to 2^64 - 1, taken
/// modulo 2^64 as an `i64`, or the negation of a magnitude up to 2^63.
pub open spec fn parse_i64_spec(s: Seq<char>) -> Result<i64, ParseError> {
    match scan_magnitude(s) {
        Err(e) => Err(e),
        Ok((v, n)) => if n == 0 {
            Err(ParseError::NoDigitsInNumber)
        } else if s.len() > 0 && s[0] == '-' {
            if v > 0x8000_0000_0000_0000 {
                Err(ParseError::NegativeTooSmall)
            } else {
                Ok((0 - v) as i64)
            }
        } else {
            Ok(wrap_i64(v) as i64)
        },
    }
}

pub proof fn lemma_pow16_bound(k: nat)
    requires
        k <= 16,
    ensures
        pow16(k) <= 0x1_0000_0000_0000_0000,
        pow16(k) >= 1,
    decreases 16 - k,
{
    if k == 16 {
        reveal_with_fuel(pow16, 17);
    } else {
        lemma_pow16_bound(k + 1);
        assert(pow16(k + 1) == 16 * pow16(k));
    }
}

/// Scans hexadecimal digits from position `start` to the end of `cs`.
fn scan_hex(cs: &Vec<char>, start: usize) -> (r: Result<(u64, u64), ParseError>)
    requires
        start <= cs.len(),
    ensures
        match r {
            Ok((v, n)) => scan_hex_int(cs@, start as nat, 0, 0) == Ok::<(nat, nat), ParseError>((v as nat, n as nat)),
            Err(e) => scan_hex_int(cs@, start as nat, 0, 0) == Err::<(nat, nat), ParseError>(e),
        },
{
    let mut i = start;
    let mut value: u64 = 0;
    let mut digits: u64 = 0;
    proof {
        reveal_with_fuel(pow16, 1);
    }
    while i < cs.len()
        invariant
            start <= i <= cs.len(),
            digits <= 16,
            value < pow16(digits as nat),
            scan_hex_int(cs@, start as nat, 0, 0) == scan_hex_int(
                cs@,
                i as nat,
                value as nat,
                digits as nat,
            ),
        decreases cs.len() - i,
    {
        let c = cs[i];
        match hex_digit_value(c) {
            Some(d) => {
                if digits + 1 > 16 {
                    return Err(ParseError::TooManyHexadecimalDigits);
                }
                proof {
                    lemma_pow16_bound(digits as nat + 1);
                    assert(pow16(digits as nat + 1) == 16 * pow16(digits as nat));
                    assert(value * 16 + d < pow16(digits as nat + 1)) by (nonlinear_arith)
                        requires
                            value < pow16(digits as nat),
                            d < 16,
                            pow16(digits as nat + 1) == 16 * pow16(digits as nat),
                    ;
                }
                value = value * 16 + d;
                digits = digits + 1;
            },
            None => {
                if c != '_' {
                    return Err(ParseError::InvalidHexadecimalCharacter);
                }
            },
        }
        i = i + 1;
    }
    Ok((value, digits))
}

/// Scans decimal digits from position `start` to the end of `cs`.
fn scan_dec(cs: &Vec<char>, start: usize) -> (r: Result<(u64, u64), ParseError>)
    requires
        start <= cs.len(),
    ensures
        match r {
            Ok((v, n)) => scan_dec_int(cs@, start as nat, 0, 0) == Ok::<(nat, nat), ParseError>((v as nat, n as nat)),
            Err(e) => scan_dec_int(cs@, start as nat, 0, 0) == Err::<(nat, nat), ParseError>(e),
        },
{
    let mut i = start;
    let mut value: u64 = 0;
    let mut digits: u64 = 0;
    while i < cs.len()
        invariant
            start <= i <= cs.len(),
            digits <= i - start,
            scan_dec_int(cs@, start as nat, 0, 0) == scan_dec_int(
                cs@,
                i as nat,
                value as nat,
                digits as nat,
            ),
        decreases cs.len() - i,
    {
        let c = cs[i];
        if '0' <= c && c <= '9' {
            let d = (c as u32 - '0' as u32) as u64;
            match value.checked_mul(10) {
                None => return Err(ParseError::TooLargeDecimal),
                Some(v) => value = v,
            }
            match value.checked_add(d) {
                None => return Err(ParseError::TooLargeDecimal),
                Some(v) => value = v,
            }
            digits = digits + 1;
        } else if c != '_' {
            return Err(ParseError::InvalidDecimalCharacter);
        }
        i = i + 1;
    }
    Ok((value, digits))
}

/// Parses a 64-bit number: an optional sign, then `0x` and up to 16
/// hexadecimal digits, or decimal digits, with `_` allowed among the digits.
/// The range is -2^63 ..= 2^64 - 1; magnitudes above 2^63 - 1 wrap around to
/// negative numbers.
pub fn parse_i64(s: &str) -> (r: Result<i64, ParseError>)
    ensures
        r == parse_i64_spec(s@),
{
    let cs = chars_of(s);
    let negative = cs.len() > 0 && cs[0] == '-';
    let b: usize = if cs.len() > 0 && (cs[0] == '-' || cs[0] == '+') {
        1
    } else {
        0
    };
    let scanned = if cs.len() >= b + 2 && cs[b] == '0' && cs[b + 1] == 'x' {
        scan_hex(&cs, b + 2)
    } else {
        scan_dec(&cs, b)
    };
    let (value, digits) = match scanned {
        Err(e) => {
            return Err(e);
        },
        Ok(p) => p,
    };
    if digits == 0 {
        return Err(ParseError::NoDigitsInNumber);
    }
    if negative {
        // Don't allow large negative values to wrap around and become positive.
        if value > 0x8000_0000_0000_0000 {
            return Err(ParseError::NegativeTooSmall);
        }
        if value == 0x8000_0000_0000_0000 {
            Ok(i64::MIN)
        } else {
            Ok(0 - value as i64)
        }
    } else if value < 0x8000_0000_0000_0000 {
        Ok(value as i64)
    } else {
        Ok((value - 0x8000_0000_0000_0000) as i64 + i64::MIN)
    }
}

} // verus!
