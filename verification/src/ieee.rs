//! The floating point immediates `Ieee32` and `Ieee64`: IEEE 754 bit patterns.

use vstd::prelude::*;
use vstd::arithmetic::power2::{pow2, lemma2_to64};
use crate::error::ParseError;
use crate::ieee_format::{float_text, format_float};
use crate::ieee_parse::{parse_float, parse_float_spec};

verus! {

/// An IEEE binary32 immediate floating point value, represented as a u32
/// containing the bit pattern.
///
/// All bit patterns are allowed.
#[derive(Copy, Clone, Debug, Eq, PartialEq, Hash, Structural)]
pub struct Ieee32(u32);

/// An IEEE binary64 immediate floating point value, represented as a u64
/// containing the bit pattern.
///
/// All bit patterns are allowed.
#[derive(Copy, Clone, Debug, Eq, PartialEq, Hash, Structural)]
pub struct Ieee64(u64);

impl View for Ieee32 {
    type V = u32;

    closed spec fn view(&self) -> u32 {
        self.0
    }
}

impl View for Ieee64 {
    type V = u64;

    closed spec fn view(&self) -> u64 {
        self.0
    }
}

/// The text of a binary32 bit pattern.
pub open spec fn ieee32_text(bits: u32) -> Seq<char> {
    float_text(bits as u64, 8, 23)
}

/// The text of a binary64 bit pattern.
pub open spec fn ieee64_text(bits: u64) -> Seq<char> {
    float_text(bits, 11, 52)
}

impl Ieee32 {
    /// Two `Ieee32` values with the same view are the same value.
    pub proof fn lemma_view_determines(a: Ieee32, b: Ieee32)
        requires
            a@ == b@,
        ensures
            a == b,
    {
    }

    /// Create a new `Ieee32` containing the bits of `x`.
    pub fn with_bits(x: u32) -> (r: Ieee32)
        ensures
            r@ == x,
    {
        Ieee32(x)
    }

    /// Create an `Ieee32` number representing `2.0^n`: biased exponent
    /// `n + 127` above a zero trailing significand.
    pub fn pow2(n: i32) -> (r: Ieee32)
        requires
            -126 <= n <= 127,
        ensures
            r@ == (n + 127) * 0x80_0000,
    {
        let w: u32 = 8;
        let t: u32 = 23;
        let wm1: u32 = w - 1;
        let p: i32 = 1i32 << wm1;
        assert(p == 128) by (bit_vector)
            requires
                wm1 == 7,
                p == 1i32 << wm1,
        ;
        let bias: i32 = p - 1;
        let exponent = (n + bias) as u32;
        assert(exponent << t == exponent * 0x80_0000) by (bit_vector)
            requires
                t == 23,
                exponent <= 256,
        ;
        Ieee32(exponent << t)
    }

    /// Return self negated: the sign bit flipped.
    pub fn neg(self) -> (r: Ieee32)
        ensures
            r@ == (if self@ >= 0x8000_0000 {
                self@ - 0x8000_0000
            } else {
                self@ + 0x8000_0000
            }),
    {
        let x = self.0;
        assert((x >= 0x8000_0000u32 ==> (x ^ 0x8000_0000u32) + 0x8000_0000u32 == x) && (x
            < 0x8000_0000u32 ==> (x ^ 0x8000_0000u32) == x + 0x8000_0000u32)) by (bit_vector);
        let sign: u32 = 1u32 << 31u32;
        assert(sign == 0x8000_0000u32) by (bit_vector)
            requires
                sign == 1u32 << 31u32,
        ;
        Ieee32(x ^ sign)
    }

    /// Get the bitwise representation.
    pub fn bits(self) -> (r: u32)
        ensures
            r == self@,
    {
        self.0
    }

    /// The text of this number, in the format of `format_float`.
    pub fn to_string(&self) -> (s: String)
        ensures
            s@ == ieee32_text(self@),
    {
        format_float(self.0 as u64, 8, 23)
    }

    /// Parse a binary32 number from the text that `to_string` writes.
    pub fn parse(s: &str) -> (r: Result<Ieee32, ParseError>)
        ensures
            match r {
                Ok(v) => parse_float_spec(s@, 8, 23) == Ok::<u64, ParseError>(v@ as u64),
                Err(e) => parse_float_spec(s@, 8, 23) == Err::<u64, ParseError>(e),
            },
    {
        match parse_float(s, 8, 23) {
            Ok(b) => {
                proof {
                    lemma2_to64();
                }
                Ok(Ieee32(b as u32))
            },
            Err(e) => Err(e),
        }
    }
}

impl Ieee64 {
    /// Two `Ieee64` values with the same view are the same value.
    pub proof fn lemma_view_determines(a: Ieee64, b: Ieee64)
        requires
            a@ == b@,
        ensures
            a == b,
    {
    }

    /// Create a new `Ieee64` containing the bits of `x`.
    pub fn with_bits(x: u64) -> (r: Ieee64)
        ensures
            r@ == x,
    {
        Ieee64(x)
    }

    /// Create an `Ieee64` number representing `2.0^n`: biased exponent
    /// `n + 1023` above a zero trailing significand.
    pub fn pow2(n: i64) -> (r: Ieee64)
        requires
            -1022 <= n <= 1023,
        ensures
            r@ == (n + 1023) * 0x10_0000_0000_0000,
    {
        let w: u64 = 11;
        let t: u64 = 52;
        let wm1: u64 = w - 1;
        let p: i64 = 1i64 << wm1;
        assert(p == 1024) by (bit_vector)
            requires
                wm1 == 10,
                p == 1i64 << wm1,
        ;
        let bias: i64 = p - 1;
        let exponent = (n + bias) as u64;
        assert(exponent << t == exponent * 0x10_0000_0000_0000) by (bit_vector)
            requires
                t == 52,
                exponent <= 2048,
        ;
        Ieee64(exponent << t)
    }

    /// Return self negated: the sign bit flipped.
    pub fn neg(self) -> (r: Ieee64)
        ensures
            r@ == (if self@ >= 0x8000_0000_0000_0000 {
                self@ - 0x8000_0000_0000_0000
            } else {
                self@ + 0x8000_0000_0000_0000
            }),
    {
        let x = self.0;
        assert((x >= 0x8000_0000_0000_0000u64 ==> (x ^ 0x8000_0000_0000_0000u64)
            + 0x8000_0000_0000_0000u64 == x) && (x < 0x8000_0000_0000_0000u64 ==> (x
            ^ 0x8000_0000_0000_0000u64) == x + 0x8000_0000_0000_0000u64)) by (bit_vector);
        let sign: u64 = 1u64 << 63u64;
        assert(sign == 0x8000_0000_0000_0000u64) by (bit_vector)
            requires
                sign == 1u64 << 63u64,
        ;
        Ieee64(x ^ sign)
    }

    /// Get the bitwise representation.
    pub fn bits(self) -> (r: u64)
        ensures
            r == self@,
    {
        self.0
    }

    /// The text of this number, in the format of `format_float`.
    pub fn to_string(&self) -> (s: String)
        ensures
            s@ == ieee64_text(self@),
    {
        format_float(self.0, 11, 52)
    }

    /// Parse a binary64 number from the text that `to_string` writes.
    pub fn parse(s: &str) -> (r: Result<Ieee64, ParseError>)
        ensures
            match r {
                Ok(v) => parse_float_spec(s@, 11, 52) == Ok::<u64, ParseError>(v@),
                Err(e) => parse_float_spec(s@, 11, 52) == Err::<u64, ParseError>(e),
            },
    {
        match parse_float(s, 11, 52) {
            Ok(b) => Ok(Ieee64(b)),
            Err(e) => Err(e),
        }
    }
}

impl core::str::FromStr for Ieee32 {
    type Err = &'static str;

    /// Reads `s` as `parse` does; a refused text gives the error's message.
    fn from_str(s: &str) -> (r: Result<Ieee32, &'static str>)
        ensures
            match r {
                Ok(v) => parse_float_spec(s@, 8, 23) == Ok::<u64, ParseError>(v@ as u64),
                Err(m) => parse_float_spec(s@, 8, 23) matches Err(e) && m@ == e.message_text(),
            },
    {
        match Ieee32::parse(s) {
            Ok(v) => Ok(v),
            Err(e) => Err(e.message()),
        }
    }
}

impl core::str::FromStr for Ieee64 {
    type Err = &'static str;

    /// Reads `s` as `parse` does; a refused text gives the error's message.
    fn from_str(s: &str) -> (r: Result<Ieee64, &'static str>)
        ensures
            match r {
                Ok(v) => parse_float_spec(s@, 11, 52) == Ok::<u64, ParseError>(v@),
                Err(m) => parse_float_spec(s@, 11, 52) matches Err(e) && m@ == e.message_text(),
            },
    {
        match Ieee64::parse(s) {
            Ok(v) => Ok(v),
            Err(e) => Err(e.message()),
        }
    }
}

} // verus!
