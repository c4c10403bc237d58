//! Parsing of IEEE 754 bit patterns from the text that `format_float` writes.

use vstd::prelude::*;
use vstd::arithmetic::power2::{pow2, lemma_pow2_adds, lemma_pow2_strictly_increases, lemma2_to64, lemma_pow2_pos, lemma_pow2_unfold};
use vstd::arithmetic::mul::{lemma_mul_inequality, lemma_mul_strict_inequality, lemma_mul_inequality_converse, lemma_mul_strict_inequality_converse};
use vstd::arithmetic::div_mod::{lemma_fundamental_div_mod, lemma_fundamental_div_mod_converse};
use vstd::std_specs::bits::axiom_u64_leading_zeros;
use crate::ieee_format::exponent_bias;
use crate::bitfield::{lemma_shr, lemma_one_shl, lemma_shl, lemma_low_mask, lemma_pow2_bound};
use crate::chars::{is_hex_digit, hex_value, hex_digit_value, rest_is, rest_starts_with};
use crate::error::ParseError;
use crate::chars::chars_of;
use crate::int_parse::{has_hex_prefix, sign_len};
use crate::num_text::{parse_hex_u64, parse_hex_u64_spec, parse_i16, parse_i16_spec};
use crate::render::pow16;

verus! {

/// The value of a special (non-hexadecimal) float text `s2` that follows the
/// sign: `0.0`, `Inf`, `NaN`, `NaN:0x` with a payload below the quiet bit, or
/// `sNaN:0x` with a nonzero payload below the quiet bit. `sign` is the value
/// of the sign bit.
pub open spec fn special_value(s2: Seq<char>, sign: nat, w: nat, t: nat) -> Result<u64, ParseError> {
    let max_e = (pow2(w) - 1) * pow2(t);
    let quiet = pow2((t - 1) as nat);
    if s2 == seq!['0', '.', '0'] {
        Ok(sign as u64)
    } else if s2 == seq!['I', 'n', 'f'] {
        Ok((sign + max_e) as u64)
    } else if s2 == seq!['N', 'a', 'N'] {
        Ok((sign + max_e + quiet) as u64)
    } else if s2.len() >= 6 && s2.take(6) == seq!['N', 'a', 'N', ':', '0', 'x'] {
        match parse_hex_u64_spec(s2.skip(6)) {
            Some(p) => if p < quiet {
                Ok((sign + max_e + quiet + p) as u64)
            } else {
                Err(ParseError::InvalidNanPayload)
            },
            None => Err(ParseError::InvalidNanPayload),
        }
    } else if s2.len() >= 7 && s2.take(7) == seq!['s', 'N', 'a', 'N', ':', '0', 'x'] {
        match parse_hex_u64_spec(s2.skip(7)) {
            Some(p) => if 0 < p && p < quiet {
                Ok((sign + max_e + p) as u64)
            } else {
                Err(ParseError::InvalidSnanPayload)
            },
            None => Err(ParseError::InvalidSnanPayload),
        }
    } else {
        Err(ParseError::FloatNotHexadecimal)
    }
}

/// Scans the digits of a hexadecimal float from position `i` on, with the
/// number of digits, the number of digits before the radix point (once one was
/// seen) and the significand gathered so far. A `p` ends the digits and must be
/// followed by a decimal `i16` exponent. Gives the significand, the digit
/// count, the radix point position and the exponent.
pub open spec fn scan_float(s: Seq<char>, i: nat, digits: nat, point: Option<nat>, sig: nat) -> Result<
    (nat, nat, Option<nat>, int),
    ParseError,
>
    decreases s.len() - i,
{
    if i >= s.len() {
        Ok((sig, digits, point, 0))
    } else if s[i as int] == '.' {
        if point is Some {
            Err(ParseError::MultipleRadixPoints)
        } else {
            scan_float(s, i + 1, digits, Some(digits), sig)
        }
    } else if s[i as int] == 'p' {
        match parse_i16_spec(s.skip(i + 1int)) {
            Some(e) => Ok((sig, digits, point, e as int)),
            None => Err(ParseError::BadExponent),
        }
    } else if is_hex_digit(s[i as int]) {
        if digits + 1 > 16 {
            Err(ParseError::TooManyDigits)
        } else {
            scan_float(s, i + 1, digits + 1, point, sig * 16 + hex_value(s[i as int]))
        }
    } else {
        Err(ParseError::InvalidCharacter)
    }
}

/// The radix point position as a natural number.
pub open spec fn point_nat(p: Option<u8>) -> Option<nat> {
    match p {
        Some(d) => Some(d as nat),
        None => None,
    }
}

/// Scans the hexadecimal float digits of `cs` from `start` on.
fn scan_hex_float(cs: &Vec<char>, start: usize) -> (r: Result<(u64, u8, Option<u8>, i32), ParseError>)
    requires
        start <= cs.len(),
    ensures
        match r {
            Ok((sig, digits, point, e)) => {
                &&& scan_float(cs@, start as nat, 0, None, 0) == Ok::<(nat, nat, Option<nat>, int), ParseError>(
                    (sig as nat, digits as nat, point_nat(point), e as int),
                )
                &&& digits <= 16
                &&& point matches Some(d) ==> d <= digits
                &&& -32768 <= e <= 32767
            },
            Err(err) => scan_float(cs@, start as nat, 0, None, 0) == Err::<
                (nat, nat, Option<nat>, int),
                ParseError,
            >(err),
        },
{
    let mut i = start;
    let mut digits: u8 = 0;
    let mut point: Option<u8> = None;
    let mut significand: u64 = 0;
    proof {
        reveal_with_fuel(pow16, 1);
    }
    while i < cs.len()
        invariant
            start <= i <= cs.len(),
            digits <= 16,
            point matches Some(d) ==> d <= digits,
            significand < pow16(digits as nat),
            scan_float(cs@, start as nat, 0, None, 0) == scan_float(
                cs@,
                i as nat,
                digits as nat,
                point_nat(point),
                significand as nat,
            ),
        decreases cs.len() - i,
    {
        let ch = cs[i];
        if ch == '.' {
            // This is the radix point. There can only be one.
            if point.is_some() {
                return Err(ParseError::MultipleRadixPoints);
            } else {
                point = Some(digits);
            }
        } else if ch == 'p' {
            // The following exponent is a decimal number.
            match parse_i16(cs, i + 1) {
                Some(e) => {
                    return Ok((significand, digits, point, e as i32));
                },
                None => {
                    return Err(ParseError::BadExponent);
                },
            }
        } else {
            match hex_digit_value(ch) {
                Some(digit) => {
                    if digits + 1 > 16 {
                        return Err(ParseError::TooManyDigits);
                    }
                    proof {
                        crate::int_parse::lemma_pow16_bound(digits as nat + 1);
                        assert(pow16(digits as nat + 1) == 16 * pow16(digits as nat));
                        assert(significand * 16 + digit < pow16(digits as nat + 1)) by (nonlinear_arith)
                            requires
                                significand < pow16(digits as nat),
                                digit < 16,
                                pow16(digits as nat + 1) == 16 * pow16(digits as nat),
                        ;
                    }
                    significand = significand * 16 + digit;
                    digits = digits + 1;
                },
                None => {
                    return Err(ParseError::InvalidCharacter);
                },
            }
        }
        i = i + 1;
    }
    Ok((significand, digits, point, 0))
}

/// Reads a special float text (`0.0`, `Inf`, a NaN form) from position `b`.
fn parse_special(cs: &Vec<char>, b: usize, sign_bit: u64, w: u8, t: u8) -> (r: Result<u64, ParseError>)
    requires
        b <= cs.len(),
        0 < w <= 16,
        1 <= t,
        1 + w + t <= 64,
        sign_bit == 0 || sign_bit == pow2((t + w) as nat),
    ensures
        r == special_value(cs@.skip(b as int), sign_bit as nat, w as nat, t as nat),
        r matches Ok(v) ==> (v as nat) < 2 * pow2((t + w) as nat),
{
    let wl = w as u64;
    let tl = t as u64;
    proof {
        lemma_one_shl(wl);
        lemma_one_shl(tl);
        lemma_one_shl((tl - 1) as u64);
        lemma_one_shl((tl + wl) as u64);
        lemma_pow2_adds(tl as nat, wl as nat);
        lemma_pow2_adds((tl - 1) as nat, 1);
        lemma2_to64();
        lemma_pow2_bound((tl + wl) as nat);
        vstd::arithmetic::mul::lemma_mul_strict_inequality(
            pow2(wl as nat) - 1,
            pow2(wl as nat) as int,
            pow2(tl as nat) as int,
        );
        lemma_shl(((1u64 << wl) - 1) as u64, tl);
    }
    let max_e_bits = ((1u64 << wl) - 1) << tl;
    let quiet_bit = 1u64 << (tl - 1);
    let ghost m: u64 = ((1u64 << wl) - 1) as u64;
    let ghost tw: u64 = (tl + wl) as u64;
    let ghost k: u64 = (tl - 1) as u64;
    let ghost tmask: u64 = ((1u64 << tl) - 1) as u64;
    assert(sign_bit | max_e_bits == sign_bit + max_e_bits
        && (sign_bit | max_e_bits) & tmask == 0
        && sign_bit + max_e_bits + tmask < (1u64 << tw) + (1u64 << tw)) by (bit_vector)
        requires
            tl < 63,
            tw == tl + wl,
            tw < 64,
            k == tl - 1,
            m == (1u64 << wl) - 1,
            max_e_bits == m << tl,
            sign_bit == 0 || sign_bit == 1u64 << tw,
            tmask + 1 == 1u64 << tl,
    ;
    let base = sign_bit | max_e_bits;
    // The only decimal encoding allowed is 0.
    if rest_is(cs, b, &['0', '.', '0']) {
        return Ok(sign_bit);
    }
    if rest_is(cs, b, &['I', 'n', 'f']) {
        // +/- infinity: e = max, t = 0.
        return Ok(sign_bit | max_e_bits);
    }
    if rest_is(cs, b, &['N', 'a', 'N']) {
        // Canonical quiet NaN: e = max, t = quiet.
        assert(base | quiet_bit == base + quiet_bit) by (bit_vector)
            requires
                base & tmask == 0,
                tmask + 1 == 1u64 << tl,
                tl < 64,
                k == tl - 1,
                quiet_bit == 1u64 << k,
        ;
        return Ok(sign_bit | max_e_bits | quiet_bit);
    }
    if rest_starts_with(cs, b, &['N', 'a', 'N', ':', '0', 'x']) {
        // Quiet NaN with payload.
        assert(cs@.skip(b as int).skip(6) =~= cs@.skip(b + 6));
        return match parse_hex_u64(cs, b + 6) {
            Some(payload) => {
                if payload < quiet_bit {
                    assert(base | quiet_bit | payload == base + quiet_bit + payload) by (bit_vector)
                        requires
                            base & tmask == 0,
                tmask + 1 == 1u64 << tl,
                            tl < 64,
                            k == tl - 1,
                            quiet_bit == 1u64 << k,
                            payload < quiet_bit,
                    ;
                    Ok(sign_bit | max_e_bits | quiet_bit | payload)
                } else {
                    Err(ParseError::InvalidNanPayload)
                }
            },
            None => Err(ParseError::InvalidNanPayload),
        };
    }
    if rest_starts_with(cs, b, &['s', 'N', 'a', 'N', ':', '0', 'x']) {
        // Signaling NaN with payload.
        assert(cs@.skip(b as int).skip(7) =~= cs@.skip(b + 7));
        return match parse_hex_u64(cs, b + 7) {
            Some(payload) => {
                if 0 < payload && payload < quiet_bit {
                    assert(base | payload == base + payload) by (bit_vector)
                        requires
                            base & tmask == 0,
                tmask + 1 == 1u64 << tl,
                            tl < 64,
                            k == tl - 1,
                            quiet_bit == 1u64 << k,
                            payload < quiet_bit,
                    ;
                    Ok(sign_bit | max_e_bits | payload)
                } else {
                    Err(ParseError::InvalidSnanPayload)
                }
            },
            None => Err(ParseError::InvalidSnanPayload),
        };
    }
    Err(ParseError::FloatNotHexadecimal)
}

/// The number of bits of `n`: the position of its highest set bit plus one.
pub open spec fn bit_length(n: nat) -> nat
    decreases n,
{
    if n == 0 {
        0
    } else {
        1 + bit_length(n / 2)
    }
}

/// A number in `2^(k-1) .. 2^k` has `k` bits.
pub proof fn lemma_bit_length(n: nat, k: nat)
    requires
        1 <= k,
        pow2((k - 1) as nat) <= n < pow2(k),
    ensures
        bit_length(n) == k,
    decreases k,
{
    lemma_pow2_unfold(k);
    if k == 1 {
        lemma2_to64();
        reveal_with_fuel(bit_length, 2);
    } else {
        lemma_pow2_unfold((k - 1) as nat);
        lemma_bit_length(n / 2, (k - 1) as nat);
    }
}

/// The number of significant bits of the nonzero `x`.
fn significant_bits(x: u64) -> (b: u8)
    requires
        x != 0,
    ensures
        b == bit_length(x as nat),
        1 <= b <= 64,
        pow2((b - 1) as nat) <= x < pow2(b as nat),
{
    let lz = x.leading_zeros();
    proof {
        axiom_u64_leading_zeros(x);
    }
    let lzb: u64 = lz as u64;
    let top: u64 = 63 - lzb;
    assert((x >> top) & 1u64 != 0u64);
    proof {
        lemma_one_shl(top);
        assert(x >= (1u64 << top)) by (bit_vector)
            requires
                (x >> top) & 1u64 != 0u64,
                top < 64,
        ;
        lemma2_to64();
        if lzb > 0 {
            let above: u64 = (64 - lzb) as u64;
            assert(x >> above == 0);
            lemma_one_shl(above);
            assert(x < (1u64 << above)) by (bit_vector)
                requires
                    x >> above == 0,
                    above < 64,
            ;
        }
        lemma_bit_length(x as nat, (64 - lzb) as nat);
    }
    (64 - lz) as u8
}

/// The significand `sig` (nonzero) and exponent `exp` of the value
/// `sig * 2^exp`, rescaled so that the significand has exactly `t + 1` bits;
/// refused when that would drop set bits.
pub open spec fn normalize(sig: nat, exp: int, t: nat) -> Result<(nat, int), ParseError> {
    let b = bit_length(sig);
    if b > t + 1 {
        let adj = (b - (t + 1)) as nat;
        if sig % pow2(adj) != 0 {
            Err(ParseError::TooManySignificantBits)
        } else {
            Ok((sig / pow2(adj), exp + adj))
        }
    } else {
        let adj = (t + 1 - b) as nat;
        Ok((sig * pow2(adj), exp - adj))
    }
}

/// The bits of the value `sig * 2^exp` (with `sig` nonzero) in the format
/// with a `w`-bit exponent and a `t`-bit trailing significand, and sign bit
/// value `sign`: a normal number when the biased exponent is in range, a
/// subnormal number when the value is an exact multiple of the smallest
/// subnormal, and refused otherwise.
pub open spec fn encode_float(sign: nat, sig: nat, exp: int, w: nat, t: nat) -> Result<u64, ParseError> {
    match normalize(sig, exp, t) {
        Err(e) => Err(e),
        Ok((m, e1)) => {
            let biased = e1 + exponent_bias(w) + t;
            if biased > pow2(w) - 2 {
                Err(ParseError::MagnitudeTooLarge)
            } else if biased > 0 {
                Ok((sign + biased * pow2(t) + (m - pow2(t))) as u64)
            } else if 1 - biased <= t {
                let adj = (1 - biased) as nat;
                if m % pow2(adj) != 0 {
                    Err(ParseError::SubnormalUnderflow)
                } else {
                    Ok((sign + m / pow2(adj)) as u64)
                }
            } else {
                Err(ParseError::MagnitudeTooSmall)
            }
        },
    }
}

/// Rescales the nonzero significand to `t + 1` bits.
fn normalize_significand(significand: u64, exponent: i32, t: u8) -> (r: Result<(u64, i32), ParseError>)
    requires
        significand != 0,
        t <= 62,
        -40000 <= exponent <= 40000,
    ensures
        match r {
            Ok((m, e)) => {
                &&& normalize(significand as nat, exponent as int, t as nat) == Ok::<(nat, int), ParseError>(
                    (m as nat, e as int),
                )
                &&& pow2(t as nat) <= m < pow2((t + 1) as nat)
                &&& -40100 <= e <= 40100
            },
            Err(err) => normalize(significand as nat, exponent as int, t as nat) == Err::<
                (nat, int),
                ParseError,
            >(err),
        },
{
    let significant_bits = significant_bits(significand);
    let ghost b = significant_bits as nat;
    if significant_bits > t + 1 {
        let adjust = significant_bits - (t + 1);
        let ghost adj = adjust as nat;
        proof {
            lemma_one_shl(adjust as u64);
        }
        let mask: u64 = (1u64 << adjust as u64) - 1;
        proof {
            lemma_low_mask(significand, mask, adj);
        }
        if significand & mask != 0 {
            return Err(ParseError::TooManySignificantBits);
        }
        proof {
            lemma_shr(significand, adjust as u64);
            let p = pow2(adj);
            let m = significand as nat / p;
            lemma_fundamental_div_mod(significand as int, p as int);
            lemma_pow2_adds(t as nat, adj);
            lemma_pow2_adds((t + 1) as nat, adj);
            assert(significand == m * p);
            lemma_mul_inequality_converse(pow2(t as nat) as int, m as int, p as int);
            lemma_mul_strict_inequality_converse(m as int, pow2((t + 1) as nat) as int, p as int);
        }
        Ok((significand >> adjust as u64, exponent + adjust as i32))
    } else {
        let adjust = t + 1 - significant_bits;
        let ghost adj = adjust as nat;
        proof {
            let p = pow2(adj);
            lemma_pow2_pos(adj);
            lemma_pow2_adds((b - 1) as nat, adj);
            lemma_pow2_adds(b, adj);
            lemma_mul_inequality(pow2((b - 1) as nat) as int, significand as int, p as int);
            lemma_mul_strict_inequality(significand as int, pow2(b) as int, p as int);
            lemma_pow2_bound((t + 1) as nat);
            lemma_shl(significand, adjust as u64);
        }
        Ok((significand << adjust as u64, exponent - adjust as i32))
    }
}

/// Builds the bits of `sig * 2^exp` with the sign bit `sign_bit`.
fn encode(sign_bit: u64, sig: u64, exponent: i32, w: u8, t: u8) -> (r: Result<u64, ParseError>)
    requires
        0 < w <= 16,
        1 + w + t <= 64,
        sig != 0,
        -40000 <= exponent <= 40000,
        sign_bit == 0 || sign_bit == pow2((t + w) as nat),
    ensures
        r == encode_float(sign_bit as nat, sig as nat, exponent as int, w as nat, t as nat),
        r matches Ok(v) ==> (v as nat) < 2 * pow2((t + w) as nat),
{
    let (significand, mut exponent) = match normalize_significand(sig, exponent, t) {
        Err(e) => {
            return Err(e);
        },
        Ok(p) => p,
    };
    let wl = w as u64;
    let tl = t as u64;
    let ghost m = significand as nat;
    proof {
        lemma_one_shl(tl);
        lemma_one_shl(wl);
        lemma_one_shl((wl - 1) as u64);
        lemma_one_shl((tl + wl) as u64);
        lemma2_to64();
        if w < 16 {
            lemma_pow2_strictly_increases(w as nat, 16);
        }
    }
    // Trailing significand excludes the high bit.
    let t_mask: u64 = (1u64 << tl) - 1;
    let t_bits = significand & t_mask;
    proof {
        lemma_low_mask(significand, t_mask, t as nat);
        lemma_pow2_unfold((t + 1) as nat);
        lemma_fundamental_div_mod_converse(m as int, pow2(t as nat) as int, 1, m - pow2(t as nat));
    }
    let max_exp: i32 = ((1u64 << wl) - 2) as i32;
    let bias: i32 = ((1u64 << (wl - 1)) - 1) as i32;
    exponent = exponent + bias + t as i32;
    if exponent > max_exp {
        Err(ParseError::MagnitudeTooLarge)
    } else if exponent > 0 {
        // This is a normal number.
        let ex: u64 = exponent as u64;
        proof {
            lemma_pow2_adds(wl as nat, tl as nat);
            lemma_mul_strict_inequality(ex as int, pow2(wl as nat) as int, pow2(tl as nat) as int);
            lemma_pow2_bound((tl + wl) as nat);
            lemma_shl(ex, tl);
        }
        let e_bits = ex << tl;
        let ghost tw: u64 = (tl + wl) as u64;
        assert((sign_bit | e_bits) | t_bits == sign_bit + e_bits + t_bits
            && sign_bit + e_bits + t_bits < (1u64 << tw) + (1u64 << tw)) by (bit_vector)
            requires
                tw == tl + wl,
                tw < 64,
                t_bits < (1u64 << tl),
                e_bits == ex << tl,
                ex + 1 < (1u64 << wl),
                sign_bit == 0 || sign_bit == 1u64 << tw,
        ;
        Ok(sign_bit | e_bits | t_bits)
    } else if 1 - exponent <= t as i32 {
        // This is a subnormal number: e = 0, t = significand bits.
        // Renormalize significand for exponent = 1.
        let adjust: u64 = (1 - exponent) as u64;
        proof {
            lemma_one_shl(adjust);
        }
        let mask: u64 = (1u64 << adjust) - 1;
        proof {
            lemma_low_mask(significand, mask, adjust as nat);
        }
        if significand & mask != 0 {
            Err(ParseError::SubnormalUnderflow)
        } else {
            let q = significand >> adjust;
            proof {
                lemma_shr(significand, adjust);
                vstd::arithmetic::div_mod::lemma_div_is_ordered_by_denominator(m as int, 1, pow2(adjust as nat) as int);
                if w > 1 {
                    lemma_pow2_strictly_increases((t + 1) as nat, (tl + wl) as nat);
                }
            }
            let ghost tw: u64 = (tl + wl) as u64;
            assert(sign_bit | q == sign_bit + q && sign_bit + q < (1u64 << tw) + (1u64 << tw)) by (bit_vector)
                requires
                    tw < 64,
                    q < (1u64 << tw),
                    sign_bit == 0 || sign_bit == 1u64 << tw,
            ;
            Ok(sign_bit | q)
        }
    } else {
        Err(ParseError::MagnitudeTooSmall)
    }
}

/// The bits that the text `s` denotes in the format with a `w`-bit exponent
/// and a `t`-bit trailing significand: after an optional sign, either a
/// special form (`special_value`), or `0x` and hexadecimal digits with at most
/// one radix point and an optional `p` exponent, read exactly
/// (`encode_float`).
pub open spec fn parse_float_spec(s: Seq<char>, w: nat, t: nat) -> Result<u64, ParseError> {
    let sign: nat = if s.len() > 0 && s[0] == '-' {
        pow2(t + w)
    } else {
        0
    };
    let b = sign_len(s);
    if !has_hex_prefix(s, b) {
        special_value(s.skip(b as int), sign, w, t)
    } else {
        match scan_float(s, b + 2, 0, None, 0) {
            Err(e) => Err(e),
            Ok((sig, digits, point, e)) => if digits == 0 {
                Err(ParseError::NoDigits)
            } else if sig == 0 {
                Ok(sign as u64)
            } else {
                // Number of bits appearing after the radix point.
                let exp = match point {
                    None => e,
                    Some(d) => e - 4 * (digits - d),
                };
                encode_float(sign, sig, exp, w, t)
            },
        }
    }
}

/// Parse a float using the same format as `format_float`.
///
/// `w` is the exponent field width in bits, `t` the trailing significand field width in bits.
pub fn parse_float(s: &str, w: u8, t: u8) -> (r: Result<u64, ParseError>)
    requires
        0 < w <= 16,
        1 + w + t <= 64,
        t >= 1 || has_hex_prefix(s@, sign_len(s@)),
    ensures
        r == parse_float_spec(s@, w as nat, t as nat),
        r matches Ok(v) ==> (v as nat) < pow2((1 + w + t) as nat),
{
    let cs = chars_of(s);
    let wl = w as u64;
    let tl = t as u64;
    proof {
        lemma_one_shl((tl + wl) as u64);
        lemma_pow2_unfold((1 + w + t) as nat);
    }
    let b: usize = if cs.len() > 0 && (cs[0] == '-' || cs[0] == '+') {
        1
    } else {
        0
    };
    let sign_bit: u64 = if cs.len() > 0 && cs[0] == '-' {
        1u64 << (tl + wl)
    } else {
        0
    };
    if !(cs.len() >= b + 2 && cs[b] == '0' && cs[b + 1] == 'x') {
        return parse_special(&cs, b, sign_bit, w, t);
    }
    let (significand, digits, point, mut exponent) = match scan_hex_float(&cs, b + 2) {
        Err(e) => {
            return Err(e);
        },
        Ok(x) => x,
    };
    if digits == 0 {
        return Err(ParseError::NoDigits);
    }
    if significand == 0 {
        // This is +/- 0.0.
        return Ok(sign_bit);
    }
    // Number of bits appearing after the radix point.
    match point {
        None => {},
        Some(d) => {
            exponent = exponent - 4 * (digits - d) as i32;
        },
    }
    encode(sign_bit, significand, exponent, w, t)
}

} // verus!
