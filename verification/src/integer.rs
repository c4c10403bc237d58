//! The integer immediates `Imm64`, `Uimm32` and `Offset32`, and their text.

use vstd::prelude::*;
use vstd::std_specs::bits::axiom_u64_leading_zeros;
use crate::error::ParseError;
use crate::int_parse::{parse_i64, parse_i64_spec};
use crate::render::{dec_min, dec_signed, hex_padded, push_dec_min, push_dec_signed, push_hex_padded};

verus! {

/// Hexadecimal digits in groups of four separated by `_`, the leading group
/// zero-padded too: `fff0`, `0001_ffff`, `ffff_ffff_fff8_4400`.
pub open spec fn grouped_hex(u: nat) -> Seq<char>
    decreases u,
{
    if u < 0x1_0000 {
        hex_padded(u, 4)
    } else {
        grouped_hex(u / 0x1_0000) + seq!['_'] + hex_padded(u % 0x1_0000, 4)
    }
}

/// The value of the two's complement bits of `x`, read as unsigned.
pub open spec fn u64_bits(x: i64) -> nat {
    if x >= 0 {
        x as nat
    } else {
        (x + 0x1_0000_0000_0000_0000) as nat
    }
}

/// Appends `0x` and the bits of the nonzero `x` in grouped hexadecimal.
pub fn write_hex(out: &mut String, x: i64)
    requires
        x != 0,
    ensures
        final(out)@ == old(out)@ + seq!['0', 'x'] + grouped_hex(u64_bits(x)),
{
    let ghost start = out@;
    let u: u64 = if x >= 0 {
        x as u64
    } else {
        (x as i128 + 0x1_0000_0000_0000_0000i128) as u64
    };
    let lz: u32 = u.leading_zeros();
    proof {
        axiom_u64_leading_zeros(u);
    }
    let mut pos: u64 = ((64 - lz - 1) & 0xf0) as u64;
    let lzb: u64 = lz as u64;
    let top: u64 = 63 - lzb;
    let above: u64 = 64 - lzb;
    assert((u >> top) & 1u64 != 0u64 && u >> above == 0);
    assert((u >> pos) != 0 && (u >> pos) < 0x1_0000 && pos <= 48 && pos % 16 == 0) by (bit_vector)
        requires
            lzb < 64,
            top == 63 - lzb,
            above == 64 - lzb,
            (u >> top) & 1u64 != 0u64,
            u >> above == 0,
            pos == (top & 0xf0u64),
    ;
    proof {
        reveal_strlit("0x");
    }
    out.append("0x");
    push_hex_padded(out, (u >> pos) & 0xffff, 4);
    assert((u >> pos) & 0xffff == u >> pos) by (bit_vector)
        requires
            (u >> pos) < 0x1_0000,
    ;
    assert(out@ =~= start + seq!['0', 'x'] + grouped_hex((u >> pos) as nat));
    while pos > 0
        invariant
            pos <= 48,
            pos % 16 == 0,
            (u >> pos) != 0,
            out@ =~= start + seq!['0', 'x'] + grouped_hex((u >> pos) as nat),
        decreases pos,
    {
        let ghost high = u >> pos;
        let ghost old_pos = pos;
        pos = pos - 16;
        let g = (u >> pos) & 0xffff;
        assert((u >> pos) / 0x1_0000 == high && (u >> pos) % 0x1_0000 == g
            && (u >> pos) >= 0x1_0000) by (bit_vector)
            requires
                pos <= 32,
                old_pos == pos + 16,
                high == u >> old_pos,
                high != 0,
                g == (u >> pos) & 0xffff,
        ;
        proof {
            reveal_strlit("_");
        }
        out.append("_");
        push_hex_padded(out, g, 4);
        assert(out@ =~= start + seq!['0', 'x'] + grouped_hex((u >> pos) as nat));
    }
    assert(u >> 0u64 == u) by (bit_vector);
}

/// The text of a 64-bit immediate: decimal for small numbers, grouped
/// hexadecimal of its bits otherwise.
pub open spec fn imm64_text(x: i64) -> Seq<char> {
    if -10_000 < x && x < 10_000 {
        dec_signed(x as int)
    } else {
        seq!['0', 'x'] + grouped_hex(u64_bits(x))
    }
}

/// The text of an unsigned 32-bit immediate: decimal below 10000, grouped
/// hexadecimal otherwise.
pub open spec fn uimm32_text(x: u32) -> Seq<char> {
    if x < 10_000 {
        dec_min(x as nat)
    } else {
        seq!['0', 'x'] + grouped_hex(x as nat)
    }
}

/// The text of an offset: empty for zero, else a sign and the magnitude, in
/// decimal below 10000 and in grouped hexadecimal otherwise.
pub open spec fn offset32_text(x: i32) -> Seq<char> {
    if x == 0 {
        Seq::empty()
    } else {
        let mag: nat = if x < 0 { (-x) as nat } else { x as nat };
        (if x < 0 { seq!['-'] } else { seq!['+'] }) + if mag < 10_000 {
            dec_min(mag)
        } else {
            seq!['0', 'x'] + grouped_hex(mag)
        }
    }
}

/// What the text `s` gives as a `Uimm32`: a number of `parse_i64_spec` in
/// 0 ..= 2^32 - 1.
pub open spec fn parse_uimm32_spec(s: Seq<char>) -> Result<u32, ParseError> {
    match parse_i64_spec(s) {
        Err(e) => Err(e),
        Ok(x) => if 0 <= x && x <= u32::MAX {
            Ok(x as u32)
        } else {
            Err(ParseError::Uimm32OutOfRange)
        },
    }
}

/// What the text `s` gives as an `Offset32`: a number of `parse_i64_spec`
/// that starts with a sign and lies in the range of `i32`.
pub open spec fn parse_offset32_spec(s: Seq<char>) -> Result<i32, ParseError> {
    if !(s.len() > 0 && (s[0] == '-' || s[0] == '+')) {
        Err(ParseError::OffsetWithoutSign)
    } else {
        match parse_i64_spec(s) {
            Err(e) => Err(e),
            Ok(x) => if i32::MIN <= x && x <= i32::MAX {
                Ok(x as i32)
            } else {
                Err(ParseError::OffsetOutOfRange)
            },
        }
    }
}

/// 64-bit immediate integer operand.
///
/// An `Imm64` operand can also be used to represent immediate values of smaller integer types by
/// sign-extending to `i64`.
#[derive(Copy, Clone, PartialEq, Eq, Debug, Hash, Structural)]
pub struct Imm64(i64);

impl View for Imm64 {
    type V = i64;

    closed spec fn view(&self) -> i64 {
        self.0
    }
}

impl Imm64 {
    /// Two `Imm64` values with the same view are the same value.
    pub proof fn lemma_view_determines(a: Imm64, b: Imm64)
        requires
            a@ == b@,
        ensures
            a == b,
    {
    }

    /// Create a new `Imm64` representing the signed number `x`.
    pub fn new(x: i64) -> (r: Imm64)
        ensures
            r@ == x,
    {
        Imm64(x)
    }

    /// The signed number this immediate holds.
    pub fn value(self) -> (r: i64)
        ensures
            r == self@,
    {
        self.0
    }

    /// The text of this immediate: decimal when it lies strictly between
    /// -10000 and 10000, otherwise `0x` and the hexadecimal digits of its bits
    /// in groups of four separated by `_`.
    pub fn to_string(&self) -> (s: String)
        ensures
            s@ == imm64_text(self@),
    {
        let mut out = String::new();
        let x = self.0;
        if -10_000 < x && x < 10_000 {
            push_dec_signed(&mut out, x);
        } else {
            write_hex(&mut out, x);
        }
        out
    }

    /// Parse a decimal or hexadecimal `Imm64`, formatted as by `to_string`.
    pub fn parse(s: &str) -> (r: Result<Imm64, ParseError>)
        ensures
            match r {
                Ok(v) => parse_i64_spec(s@) == Ok::<i64, ParseError>(v@),
                Err(e) => parse_i64_spec(s@) == Err::<i64, ParseError>(e),
            },
    {
        match parse_i64(s) {
            Ok(x) => Ok(Imm64::new(x)),
            Err(e) => Err(e),
        }
    }
}

/// 8-bit unsigned integer immediate operand.
///
/// This is used to indicate lane indexes typically.
pub type Uimm8 = u8;

/// A 32-bit unsigned integer immediate operand.
///
/// This is used to represent sizes of memory objects.
#[derive(Copy, Clone, PartialEq, Eq, Debug, Hash, Structural)]
pub struct Uimm32(u32);

impl View for Uimm32 {
    type V = u32;

    closed spec fn view(&self) -> u32 {
        self.0
    }
}

impl Uimm32 {
    /// Two `Uimm32` values with the same view are the same value.
    pub proof fn lemma_view_determines(a: Uimm32, b: Uimm32)
        requires
            a@ == b@,
        ensures
            a == b,
    {
    }

    /// Create a new `Uimm32` representing `x`.
    pub fn new(x: u32) -> (r: Uimm32)
        ensures
            r@ == x,
    {
        Uimm32(x)
    }

    /// The number this immediate holds.
    pub fn value(self) -> (r: u32)
        ensures
            r == self@,
    {
        self.0
    }

    /// The text of this immediate: decimal below 10000, otherwise `0x` and
    /// hexadecimal digits in groups of four separated by `_`.
    pub fn to_string(&self) -> (s: String)
        ensures
            s@ == uimm32_text(self@),
    {
        let mut out = String::new();
        if self.0 < 10_000 {
            push_dec_min(&mut out, self.0 as u64);
        } else {
            write_hex(&mut out, self.0 as i64);
        }
        out
    }

    /// Parse a decimal or hexadecimal `Uimm32`, formatted as by `to_string`.
    pub fn parse(s: &str) -> (r: Result<Uimm32, ParseError>)
        ensures
            match r {
                Ok(v) => parse_uimm32_spec(s@) == Ok::<u32, ParseError>(v@),
                Err(e) => parse_uimm32_spec(s@) == Err::<u32, ParseError>(e),
            },
    {
        match parse_i64(s) {
            Ok(x) => if 0 <= x && x <= u32::MAX as i64 {
                Ok(Uimm32(x as u32))
            } else {
                Err(ParseError::Uimm32OutOfRange)
            },
            Err(e) => Err(e),
        }
    }
}

/// 32-bit signed immediate offset.
///
/// This is used to encode an immediate offset for load/store instructions. All supported ISAs have
/// a maximum load/store offset that fits in an `i32`.
#[derive(Copy, Clone, PartialEq, Eq, Debug, Hash, Structural)]
pub struct Offset32(i32);

impl View for Offset32 {
    type V = i32;

    closed spec fn view(&self) -> i32 {
        self.0
    }
}

impl Offset32 {
    /// Two `Offset32` values with the same view are the same value.
    pub proof fn lemma_view_determines(a: Offset32, b: Offset32)
        requires
            a@ == b@,
        ensures
            a == b,
    {
    }

    /// Create a new `Offset32` representing the signed number `x`.
    pub fn new(x: i32) -> (r: Offset32)
        ensures
            r@ == x,
    {
        Offset32(x)
    }

    /// The signed number this offset holds.
    pub fn value(self) -> (r: i32)
        ensures
            r == self@,
    {
        self.0
    }

    /// The text of this offset: empty for 0; otherwise always a sign, then
    /// the magnitude in decimal below 10000 and as `0x` and grouped
    /// hexadecimal digits otherwise.
    pub fn to_string(&self) -> (s: String)
        ensures
            s@ == offset32_text(self@),
    {
        let mut out = String::new();
        // 0 displays as an empty offset.
        if self.0 == 0 {
            return out;
        }
        // Always include a sign.
        if self.0 < 0 {
            proof {
                reveal_strlit("-");
            }
            out.append("-");
        } else {
            proof {
                reveal_strlit("+");
            }
            out.append("+");
        }
        let val: i64 = if self.0 < 0 {
            -(self.0 as i64)
        } else {
            self.0 as i64
        };
        if val < 10_000 {
            push_dec_min(&mut out, val as u64);
        } else {
            write_hex(&mut out, val);
        }
        assert(out@ =~= offset32_text(self@));
        out
    }

    /// Parse a decimal or hexadecimal `Offset32`, formatted as by `to_string`:
    /// the text must start with a sign.
    pub fn parse(s: &str) -> (r: Result<Offset32, ParseError>)
        ensures
            match r {
                Ok(v) => parse_offset32_spec(s@) == Ok::<i32, ParseError>(v@),
                Err(e) => parse_offset32_spec(s@) == Err::<i32, ParseError>(e),
            },
    {
        let cs = crate::chars::chars_of(s);
        if !(cs.len() > 0 && (cs[0] == '-' || cs[0] == '+')) {
            return Err(ParseError::OffsetWithoutSign);
        }
        match parse_i64(s) {
            Ok(x) => if i32::MIN as i64 <= x && x <= i32::MAX as i64 {
                Ok(Offset32::new(x as i32))
            } else {
                Err(ParseError::OffsetOutOfRange)
            },
            Err(e) => Err(e),
        }
    }
}

impl From<i64> for Imm64 {
    /// The immediate holding `x`.
    fn from(x: i64) -> (r: Self)
        ensures
            r@ == x,
    {
        Imm64(x)
    }
}

impl vstd::std_specs::convert::FromSpecImpl<i64> for Imm64 {
    open spec fn obeys_from_spec() -> bool {
        true
    }

    closed spec fn from_spec(v: i64) -> Self {
        Imm64(v)
    }
}

impl From<Imm64> for i64 {
    /// The number `x` holds.
    fn from(x: Imm64) -> (r: Self)
        ensures
            r == x@,
    {
        x.0
    }
}

impl vstd::std_specs::convert::FromSpecImpl<Imm64> for i64 {
    open spec fn obeys_from_spec() -> bool {
        true
    }

    closed spec fn from_spec(v: Imm64) -> Self {
        v.0
    }
}

impl core::str::FromStr for Imm64 {
    type Err = &'static str;

    /// Reads `s` as `parse` does; a refused text gives the error's message.
    fn from_str(s: &str) -> (r: Result<Imm64, &'static str>)
        ensures
            match r {
                Ok(v) => parse_i64_spec(s@) == Ok::<i64, ParseError>(v@),
                Err(m) => parse_i64_spec(s@) matches Err(e) && m@ == e.message_text(),
            },
    {
        match Imm64::parse(s) {
            Ok(v) => Ok(v),
            Err(e) => Err(e.message()),
        }
    }
}

impl From<u32> for Uimm32 {
    /// The immediate holding `x`.
    fn from(x: u32) -> (r: Self)
        ensures
            r@ == x,
    {
        Uimm32(x)
    }
}

impl vstd::std_specs::convert::FromSpecImpl<u32> for Uimm32 {
    open spec fn obeys_from_spec() -> bool {
        true
    }

    closed spec fn from_spec(v: u32) -> Self {
        Uimm32(v)
    }
}

impl From<Uimm32> for u32 {
    /// The number `x` holds.
    fn from(x: Uimm32) -> (r: Self)
        ensures
            r == x@,
    {
        x.0
    }
}

impl vstd::std_specs::convert::FromSpecImpl<Uimm32> for u32 {
    open spec fn obeys_from_spec() -> bool {
        true
    }

    closed spec fn from_spec(v: Uimm32) -> Self {
        v.0
    }
}

impl core::str::FromStr for Uimm32 {
    type Err = &'static str;

    /// Reads `s` as `parse` does; a refused text gives the error's message.
    fn from_str(s: &str) -> (r: Result<Uimm32, &'static str>)
        ensures
            match r {
                Ok(v) => parse_uimm32_spec(s@) == Ok::<u32, ParseError>(v@),
                Err(m) => parse_uimm32_spec(s@) matches Err(e) && m@ == e.message_text(),
            },
    {
        match Uimm32::parse(s) {
            Ok(v) => Ok(v),
            Err(e) => Err(e.message()),
        }
    }
}

impl From<i32> for Offset32 {
    /// The immediate holding `x`.
    fn from(x: i32) -> (r: Self)
        ensures
            r@ == x,
    {
        Offset32(x)
    }
}

impl vstd::std_specs::convert::FromSpecImpl<i32> for Offset32 {
    open spec fn obeys_from_spec() -> bool {
        true
    }

    closed spec fn from_spec(v: i32) -> Self {
        Offset32(v)
    }
}

impl From<Offset32> for i32 {
    /// The number `x` holds.
    fn from(x: Offset32) -> (r: Self)
        ensures
            r == x@,
    {
        x.0
    }
}

impl vstd::std_specs::convert::FromSpecImpl<Offset32> for i32 {
    open spec fn obeys_from_spec() -> bool {
        true
    }

    closed spec fn from_spec(v: Offset32) -> Self {
        v.0
    }
}

impl core::str::FromStr for Offset32 {
    type Err = &'static str;

    /// Reads `s` as `parse` does; a refused text gives the error's message.
    fn from_str(s: &str) -> (r: Result<Offset32, &'static str>)
        ensures
            match r {
                Ok(v) => parse_offset32_spec(s@) == Ok::<i32, ParseError>(v@),
                Err(m) => parse_offset32_spec(s@) matches Err(e) && m@ == e.message_text(),
            },
    {
        match Offset32::parse(s) {
            Ok(v) => Ok(v),
            Err(e) => Err(e.message()),
        }
    }
}

impl From<Uimm32> for i64 {
    /// The number `x` holds, widened.
    fn from(x: Uimm32) -> (r: Self)
        ensures
            r == x@ as i64,
    {
        x.0 as i64
    }
}

impl vstd::std_specs::convert::FromSpecImpl<Uimm32> for i64 {
    open spec fn obeys_from_spec() -> bool {
        true
    }

    closed spec fn from_spec(v: Uimm32) -> Self {
        v.0 as i64
    }
}

impl From<Offset32> for i64 {
    /// The number `x` holds, widened.
    fn from(x: Offset32) -> (r: Self)
        ensures
            r == x@ as i64,
    {
        x.0 as i64
    }
}

impl vstd::std_specs::convert::FromSpecImpl<Offset32> for i64 {
    open spec fn obeys_from_spec() -> bool {
        true
    }

    closed spec fn from_spec(v: Offset32) -> Self {
        v.0 as i64
    }
}

} // verus!
