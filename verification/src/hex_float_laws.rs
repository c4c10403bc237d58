//! What a hexadecimal float text denotes: all its digits read as one
//! hexadecimal significand, scaled by two to the `p` exponent less four bits
//! for each digit after the radix point.

use vstd::prelude::*;
use vstd::arithmetic::power2::{pow2, lemma2_to64, lemma2_to64_rest, lemma_pow2_adds, lemma_pow2_pos, lemma_pow2_strictly_increases, lemma_pow2_unfold};
use vstd::arithmetic::mul::{lemma_mul_equality_converse, lemma_mul_is_associative, lemma_mul_is_commutative};
use vstd::arithmetic::div_mod::{lemma_basic_div, lemma_fundamental_div_mod, lemma_fundamental_div_mod_converse, lemma_small_mod};
use crate::chars::is_hex_digit;
use crate::error::ParseError;
use crate::ieee_format::{exponent_bias, exponent_field, sign_field, trailing_field};
use crate::ieee_laws::{lemma_normalize_range, lemma_normalize_scale, lemma_parse_dec_signed, lemma_scan_float_run};
use crate::ieee_parse::{bit_length, encode_float, normalize, parse_float_spec, scan_float};
use crate::int_parse::{has_hex_prefix, sign_len};
use crate::num_text::{all_hex, digits_value};
use crate::render::{dec_signed, pow16};

verus! {

/// The float text `0x` `ip` `.` `fp` `p` `e`.
pub open spec fn hex_float_text(ip: Seq<char>, fp: Seq<char>, e: int) -> Seq<char> {
    seq!['0', 'x'] + ip + seq!['.'] + fp + seq!['p'] + dec_signed(e)
}

/// The float text `0x` `ip` `p` `e`, without a radix point.
pub open spec fn hex_int_float_text(ip: Seq<char>, e: int) -> Seq<char> {
    seq!['0', 'x'] + ip + seq!['p'] + dec_signed(e)
}

/// The digits `a` followed by the digits `b` are worth `a` shifted left by
/// the digits of `b`, plus `b`.
pub proof fn lemma_digits_value_concat(a: Seq<char>, b: Seq<char>)
    ensures
        digits_value(a + b, 16) == digits_value(a, 16) * pow16(b.len()) + digits_value(b, 16),
    decreases b.len(),
{
    if b.len() == 0 {
        assert(a + b =~= a);
        assert(pow16(0) == 1);
        assert(digits_value(a, 16) * 1 == digits_value(a, 16));
    } else {
        let b1 = b.drop_last();
        assert((a + b).drop_last() =~= a + b1);
        assert((a + b).last() == b.last());
        lemma_digits_value_concat(a, b1);
        let va = digits_value(a, 16);
        let vb1 = digits_value(b1, 16);
        let p1 = pow16(b1.len());
        assert(pow16(b.len()) == 16 * p1);
        assert((va * p1 + vb1) * 16 + crate::chars::hex_value(b.last()) == va * pow16(b.len()) + (vb1 * 16
            + crate::chars::hex_value(b.last()))) by (nonlinear_arith)
            requires
                pow16(b.len()) == 16 * p1,
        ;
    }
}

/// A hexadecimal float text `0x` `ip` `.` `fp` `p` `e` denotes the value
/// `sig * 2^(e - 4 |fp|)`, where `sig` is the value of all its digits `ip`
/// `fp` read as one hexadecimal number: every digit after the radix point
/// weighs four bits less, however many there are. Digits worth zero denote
/// zero.
pub proof fn law_hex_float_value(ip: Seq<char>, fp: Seq<char>, e: int, w: nat, t: nat)
    requires
        all_hex(ip),
        all_hex(fp),
        1 <= ip.len() + fp.len() <= 16,
        -32768 <= e <= 32767,
    ensures
        parse_float_spec(hex_float_text(ip, fp, e), w, t) == if digits_value(ip + fp, 16) == 0 {
            Ok::<u64, ParseError>(0)
        } else {
            encode_float(0, digits_value(ip + fp, 16), e - 4 * fp.len(), w, t)
        },
{
    let s = hex_float_text(ip, fp, e);
    let a = ip.len();
    let f = fp.len();
    let d = dec_signed(e);
    assert(s.len() == 4 + a + f + d.len());
    assert(s[0] == '0' && s[1] == 'x');
    assert(sign_len(s) == 0);
    assert(has_hex_prefix(s, 0));
    assert(s.subrange(2, (2 + a) as int) =~= ip);
    assert(s[(2 + a) as int] == '.');
    assert(s.subrange((3 + a) as int, (3 + a + f) as int) =~= fp);
    assert(s[(3 + a + f) as int] == 'p');
    assert(s.skip((4 + a + f) as int) =~= d);
    lemma_scan_float_run(s, 2, a, 0, None, 0);
    assert(0 * pow16(a) == 0) by (nonlinear_arith);
    let vi = digits_value(ip, 16);
    assert(scan_float(s, 2 + a, a, None, vi) == scan_float(s, 3 + a, a, Some(a), vi));
    lemma_scan_float_run(s, 3 + a, f, a, Some(a), vi);
    lemma_parse_dec_signed(e);
    lemma_digits_value_concat(ip, fp);
    let v = digits_value(ip + fp, 16);
    assert(scan_float(s, 3 + a + f, a + f, Some(a), v) == Ok::<(nat, nat, Option<nat>, int), ParseError>(
        (v, a + f, Some(a), e),
    ));
    assert(scan_float(s, 2, 0, None, 0) == Ok::<(nat, nat, Option<nat>, int), ParseError>(
        (v, a + f, Some(a), e),
    ));
}

/// A hexadecimal float text `0x` `ip` `p` `e` without a radix point denotes
/// the value `sig * 2^e`, where `sig` is the value of the digits `ip`.
/// Digits worth zero denote zero.
pub proof fn law_hex_int_float_value(ip: Seq<char>, e: int, w: nat, t: nat)
    requires
        all_hex(ip),
        1 <= ip.len() <= 16,
        -32768 <= e <= 32767,
    ensures
        parse_float_spec(hex_int_float_text(ip, e), w, t) == if digits_value(ip, 16) == 0 {
            Ok::<u64, ParseError>(0)
        } else {
            encode_float(0, digits_value(ip, 16), e, w, t)
        },
{
    let s = hex_int_float_text(ip, e);
    let a = ip.len();
    let d = dec_signed(e);
    assert(s.len() == 3 + a + d.len());
    assert(s[0] == '0' && s[1] == 'x');
    assert(sign_len(s) == 0);
    assert(has_hex_prefix(s, 0));
    assert(s.subrange(2, (2 + a) as int) =~= ip);
    assert(s[(2 + a) as int] == 'p');
    assert(s.skip((3 + a) as int) =~= d);
    lemma_scan_float_run(s, 2, a, 0, None, 0);
    assert(0 * pow16(a) == 0) by (nonlinear_arith);
    lemma_parse_dec_signed(e);
    let v = digits_value(ip, 16);
    assert(scan_float(s, 2, 0, None, 0) == Ok::<(nat, nat, Option<nat>, int), ParseError>(
        (v, a, None, e),
    ));
}

/// A hexadecimal float text without a `p` exponent denotes what it denotes
/// with the exponent `p0`.
pub proof fn law_hex_float_default_exponent(ip: Seq<char>, fp: Seq<char>, w: nat, t: nat)
    requires
        all_hex(ip),
        all_hex(fp),
        1 <= ip.len() + fp.len() <= 16,
    ensures
        parse_float_spec(seq!['0', 'x'] + ip + seq!['.'] + fp, w, t) == parse_float_spec(
            hex_float_text(ip, fp, 0),
            w,
            t,
        ),
{
    let s = seq!['0', 'x'] + ip + seq!['.'] + fp;
    let a = ip.len();
    let f = fp.len();
    assert(s.len() == 3 + a + f);
    assert(s[0] == '0' && s[1] == 'x');
    assert(sign_len(s) == 0);
    assert(has_hex_prefix(s, 0));
    assert(s.subrange(2, (2 + a) as int) =~= ip);
    assert(s[(2 + a) as int] == '.');
    assert(s.subrange((3 + a) as int, (3 + a + f) as int) =~= fp);
    lemma_scan_float_run(s, 2, a, 0, None, 0);
    assert(0 * pow16(a) == 0) by (nonlinear_arith);
    let vi = digits_value(ip, 16);
    assert(scan_float(s, 2 + a, a, None, vi) == scan_float(s, 3 + a, a, Some(a), vi));
    lemma_scan_float_run(s, 3 + a, f, a, Some(a), vi);
    lemma_digits_value_concat(ip, fp);
    let v = digits_value(ip + fp, 16);
    assert(scan_float(s, 2, 0, None, 0) == Ok::<(nat, nat, Option<nat>, int), ParseError>(
        (v, a + f, Some(a), 0),
    ));
    law_hex_float_value(ip, fp, 0, w, t);
}

/// Appending a zero digit to the fraction of a hexadecimal float text does
/// not change what it denotes.
pub proof fn law_hex_float_trailing_zero(ip: Seq<char>, fp: Seq<char>, e: int, w: nat, t: nat)
    requires
        all_hex(ip),
        all_hex(fp),
        1 <= ip.len() + fp.len() <= 15,
        -32768 <= e <= 32767,
    ensures
        parse_float_spec(hex_float_text(ip, fp.push('0'), e), w, t) == parse_float_spec(
            hex_float_text(ip, fp, e),
            w,
            t,
        ),
{
    let fp0 = fp.push('0');
    assert(all_hex(fp0)) by {
        assert forall|j: int| 0 <= j < fp0.len() implies #[trigger] is_hex_digit(fp0[j]) by {
            if j < fp.len() {
                assert(fp0[j] == fp[j]);
            }
        }
    }
    law_hex_float_value(ip, fp, e, w, t);
    law_hex_float_value(ip, fp0, e, w, t);
    let v = digits_value(ip + fp, 16);
    assert(ip + fp0 =~= (ip + fp).push('0'));
    assert((ip + fp).push('0').drop_last() =~= ip + fp);
    assert(digits_value(ip + fp0, 16) == v * 16);
    if v != 0 {
        lemma2_to64();
        assert(pow2(4) == 16);
        lemma_normalize_scale(v, e - 4 * fp.len(), 4, t);
        assert(e - 4 * fp0.len() == e - 4 * fp.len() - 4);
    }
}

/// Moving the radix point of a hexadecimal float text one digit to the left
/// while adding 4 to its exponent does not change what it denotes.
pub proof fn law_hex_float_shift_point(ip: Seq<char>, c: char, fp: Seq<char>, e: int, w: nat, t: nat)
    requires
        all_hex(ip),
        is_hex_digit(c),
        all_hex(fp),
        ip.len() + 1 + fp.len() <= 16,
        -32768 <= e,
        e + 4 <= 32767,
    ensures
        parse_float_spec(hex_float_text(ip, seq![c] + fp, e + 4), w, t) == parse_float_spec(
            hex_float_text(ip.push(c), fp, e),
            w,
            t,
        ),
{
    let ip1 = ip.push(c);
    let fp1 = seq![c] + fp;
    assert(all_hex(ip1)) by {
        assert forall|j: int| 0 <= j < ip1.len() implies #[trigger] is_hex_digit(ip1[j]) by {
            if j < ip.len() {
                assert(ip1[j] == ip[j]);
            }
        }
    }
    assert(all_hex(fp1)) by {
        assert forall|j: int| 0 <= j < fp1.len() implies #[trigger] is_hex_digit(fp1[j]) by {
            if j > 0 {
                assert(fp1[j] == fp[j - 1]);
            }
        }
    }
    law_hex_float_value(ip1, fp, e, w, t);
    law_hex_float_value(ip, fp1, e + 4, w, t);
    assert(ip1 + fp =~= ip + fp1);
}


/// `a * 2^ea` and `b * 2^eb` are the same number.
pub open spec fn same_value(a: nat, ea: int, b: nat, eb: int) -> bool {
    if ea >= eb {
        a * pow2((ea - eb) as nat) == b
    } else {
        a == b * pow2((eb - ea) as nat)
    }
}

/// The integer significand of a finite bit pattern: its trailing
/// significand, with the implicit leading bit of a normal number.
pub open spec fn finite_significand(bits: u64, w: nat, t: nat) -> nat {
    if exponent_field(bits, w, t) == 0 {
        trailing_field(bits, t)
    } else {
        pow2(t) + trailing_field(bits, t)
    }
}

/// The power of two that the integer significand of a finite bit pattern is
/// scaled by: `1 - bias - t` for a subnormal number, `E - bias - t` for a
/// normal one with biased exponent `E`.
pub open spec fn finite_exponent(bits: u64, w: nat, t: nat) -> int {
    if exponent_field(bits, w, t) == 0 {
        1 - exponent_bias(w) - t
    } else {
        exponent_field(bits, w, t) - exponent_bias(w) - t
    }
}

/// What a finite non-negative bit pattern is worth: its sign bit is clear,
/// its exponent field is not all ones, and its value is `v * 2^exp`.
pub open spec fn encodes_value(bits: u64, w: nat, t: nat, v: nat, exp: int) -> bool {
    &&& sign_field(bits, w, t) == 0
    &&& exponent_field(bits, w, t) < pow2(w) - 1
    &&& same_value(finite_significand(bits, w, t), finite_exponent(bits, w, t), v, exp)
}

/// Normalizing keeps the value.
proof fn lemma_normalize_exact(sig: nat, exp: int, t: nat)
    requires
        sig > 0,
    ensures
        normalize(sig, exp, t) matches Ok((m, e1)) ==> same_value(m, e1, sig, exp),
{
    lemma2_to64();
    let b = bit_length(sig);
    if b > t + 1 {
        let adj = (b - (t + 1)) as nat;
        let p = pow2(adj);
        lemma_pow2_pos(adj);
        if sig % p == 0 {
            lemma_fundamental_div_mod(sig as int, p as int);
            lemma_mul_is_commutative(p as int, (sig / p) as int);
            assert((exp + adj - exp) as nat == adj);
        }
    } else {
        let adj = (t + 1 - b) as nat;
        if adj == 0 {
            assert(sig * pow2(0) == sig);
        } else {
            assert((exp - (exp - adj)) as nat == adj);
        }
    }
}

/// Splitting `2^k` off a significand moves it into the exponent.
proof fn lemma_same_value_shift(m: nat, e1: int, sig: nat, exp: int, q: nat, k: nat)
    requires
        same_value(m, e1, sig, exp),
        m == q * pow2(k),
    ensures
        same_value(q, e1 + k, sig, exp),
{
    if e1 >= exp {
        let d = (e1 - exp) as nat;
        lemma_pow2_adds(k, d);
        assert((e1 + k - exp) as nat == k + d);
        lemma_mul_is_associative(q as int, pow2(k) as int, pow2(d) as int);
    } else if e1 + k >= exp {
        let d2 = (exp - e1) as nat;
        let d1 = (e1 + k - exp) as nat;
        assert(k == d1 + d2);
        lemma_pow2_adds(d1, d2);
        lemma_pow2_pos(d2);
        lemma_mul_is_associative(q as int, pow2(d1) as int, pow2(d2) as int);
        lemma_mul_is_commutative((q * pow2(d1)) as int, pow2(d2) as int);
        lemma_mul_is_commutative(sig as int, pow2(d2) as int);
        lemma_mul_equality_converse(pow2(d2) as int, (q * pow2(d1)) as int, sig as int);
    } else {
        let d = (exp - e1 - k) as nat;
        assert((exp - e1) as nat == d + k);
        lemma_pow2_adds(d, k);
        lemma_pow2_pos(k);
        lemma_mul_is_associative(sig as int, pow2(d) as int, pow2(k) as int);
        lemma_mul_is_commutative(q as int, pow2(k) as int);
        lemma_mul_is_commutative((sig * pow2(d)) as int, pow2(k) as int);
        lemma_mul_equality_converse(pow2(k) as int, q as int, (sig * pow2(d)) as int);
        assert((exp - (e1 + k)) as nat == d);
    }
}

/// The common powers of two of a format with a `w`-bit exponent and a
/// `t`-bit trailing significand.
proof fn lemma_format_powers(w: nat, t: nat)
    requires
        0 < w,
        1 + w + t <= 64,
    ensures
        pow2(t) > 0,
        pow2(w) >= 2,
        pow2(t + w) == pow2(t) * pow2(w),
        pow2(t + w) < 0x1_0000_0000_0000_0000,
        pow2(t + 1) == 2 * pow2(t),
{
    lemma2_to64();
    lemma2_to64_rest();
    lemma_pow2_pos(t);
    lemma_pow2_adds(t, w);
    lemma_pow2_strictly_increases(0, w);
    lemma_pow2_strictly_increases(t + w, 64);
    lemma_pow2_unfold(t + 1);
}

/// The bits of a normal number with significand `m` (of `t + 1` bits) and
/// biased exponent `e1 + bias + t` are worth `m * 2^e1`.
proof fn lemma_normal_bits(m: nat, e1: int, w: nat, t: nat)
    requires
        0 < w,
        1 + w + t <= 64,
        pow2(t) <= m < pow2(t + 1),
        0 < e1 + exponent_bias(w) + t <= pow2(w) - 2,
    ensures
        ({
            let bits = (0 + (e1 + exponent_bias(w) + t) * pow2(t) + (m - pow2(t))) as u64;
            &&& sign_field(bits, w, t) == 0
            &&& exponent_field(bits, w, t) < pow2(w) - 1
            &&& finite_significand(bits, w, t) == m
            &&& finite_exponent(bits, w, t) == e1
        }),
{
    lemma_format_powers(w, t);
    let pt = pow2(t);
    let pw = pow2(w);
    let p = pow2(t + w);
    let biased = e1 + exponent_bias(w) + t;
    let x = biased * pt + (m - pt);
    assert(x < p) by (nonlinear_arith)
        requires
            x == biased * pt + (m - pt),
            biased <= pw - 2,
            m < 2 * pt,
            p == pt * pw,
    ;
    assert(x >= 0) by (nonlinear_arith)
        requires
            x == biased * pt + (m - pt),
            biased >= 1,
            m >= pt,
    ;
    let bits = (0 + biased * pt + (m - pt)) as u64;
    assert(bits as nat == x);
    lemma_fundamental_div_mod_converse(x as int, pt as int, biased as int, (m - pt) as int);
    lemma_small_mod(biased as nat, pw);
    lemma_basic_div(x as int, p as int);
    assert(trailing_field(bits, t) == m - pt);
    assert(exponent_field(bits, w, t) == biased);
}

/// The bits of a subnormal number `m / 2^adj`, where `m` has `t + 1` bits and
/// `adj` is at least 1, are worth that number times `2^(1 - bias - t)`.
proof fn lemma_subnormal_bits(m: nat, adj: nat, w: nat, t: nat)
    requires
        0 < w,
        1 + w + t <= 64,
        m < pow2(t + 1),
        1 <= adj <= t,
        m % pow2(adj) == 0,
    ensures
        ({
            let bits = (0 + m / pow2(adj)) as u64;
            &&& sign_field(bits, w, t) == 0
            &&& exponent_field(bits, w, t) < pow2(w) - 1
            &&& finite_significand(bits, w, t) == m / pow2(adj)
            &&& finite_exponent(bits, w, t) == 1 - exponent_bias(w) - t
            &&& m == (m / pow2(adj)) * pow2(adj)
        }),
{
    lemma_format_powers(w, t);
    let pt = pow2(t);
    let p = pow2(t + w);
    let pa = pow2(adj);
    lemma_pow2_pos(adj);
    let q = m / pa;
    lemma_fundamental_div_mod(m as int, pa as int);
    lemma_mul_is_commutative(pa as int, q as int);
    let rest = (t + 1 - adj) as nat;
    lemma_pow2_adds(rest, adj);
    assert(rest + adj == t + 1);
    assert(q < pow2(rest)) by (nonlinear_arith)
        requires
            m == q * pa,
            m < pow2(rest) * pa,
            pa > 0,
    ;
    if rest < t {
        lemma_pow2_strictly_increases(rest, t);
    }
    assert(q < pt);
    assert(pt < p) by (nonlinear_arith)
        requires
            p == pt * pow2(w),
            pow2(w) >= 2,
            pt > 0,
    ;
    let bits = (0 + q) as u64;
    assert(bits as nat == q);
    lemma_small_mod(q, pt);
    lemma_basic_div(q as int, pt as int);
    lemma_basic_div(q as int, p as int);
    lemma_small_mod(0, pow2(w));
    assert(trailing_field(bits, t) == q);
    assert((bits as nat) / pt == 0);
    assert(exponent_field(bits, w, t) == 0);
}

/// The bits that `encode_float` gives for a nonzero value without sign are
/// those of a finite non-negative number worth exactly that value.
pub proof fn lemma_encode_exact(sig: nat, exp: int, w: nat, t: nat)
    requires
        sig > 0,
        0 < w,
        1 + w + t <= 64,
    ensures
        encode_float(0, sig, exp, w, t) matches Ok(bits) ==> encodes_value(bits, w, t, sig, exp),
{
    lemma_normalize_range(sig, exp, t);
    lemma_normalize_exact(sig, exp, t);
    if let Ok((m, e1)) = normalize(sig, exp, t) {
        let biased = e1 + exponent_bias(w) + t;
        if biased > pow2(w) - 2 {
        } else if biased > 0 {
            lemma_normal_bits(m, e1, w, t);
        } else if 1 - biased <= t {
            let adj = (1 - biased) as nat;
            if m % pow2(adj) == 0 {
                lemma_subnormal_bits(m, adj, w, t);
                lemma_same_value_shift(m, e1, sig, exp, m / pow2(adj), adj);
                assert(e1 + adj == 1 - exponent_bias(w) - t);
            }
        }
    }
}

/// The bits read from digits worth `v` scaled by `2^exp` (zero for `v == 0`)
/// are those of a finite non-negative number worth exactly `v * 2^exp`.
proof fn lemma_read_exact(v: nat, exp: int, w: nat, t: nat)
    requires
        0 < w,
        1 + w + t <= 64,
    ensures
        (if v == 0 {
            Ok::<u64, ParseError>(0)
        } else {
            encode_float(0, v, exp, w, t)
        }) matches Ok(bits) ==> encodes_value(bits, w, t, v, exp),
{
    if v == 0 {
        lemma2_to64();
        lemma_pow2_pos(t);
        lemma_pow2_pos(w + t);
        lemma_pow2_strictly_increases(0, w);
        lemma_basic_div(0, pow2(t) as int);
        lemma_basic_div(0, pow2(w + t) as int);
        lemma_small_mod(0, pow2(t));
        lemma_small_mod(0, pow2(w));
        lemma_small_mod(0, 2);
        let bits = 0u64;
        assert(trailing_field(bits, t) == 0);
        assert(exponent_field(bits, w, t) == 0);
        assert(sign_field(bits, w, t) == 0);
        let fe = finite_exponent(bits, w, t);
        if fe >= exp {
            assert(0 * pow2((fe - exp) as nat) == 0) by (nonlinear_arith);
        } else {
            assert(0 * pow2((exp - fe) as nat) == 0) by (nonlinear_arith);
        }
    } else {
        lemma_encode_exact(v, exp, w, t);
    }
}

/// Reading a hexadecimal float text `0x` `ip` `.` `fp` `p` `e` is exact:
/// the bits it gives are those of a finite non-negative number worth exactly
/// `sig * 2^(e - 4 |fp|)`, where `sig` is the value of the digits `ip` `fp`.
pub proof fn law_hex_float_exact(ip: Seq<char>, fp: Seq<char>, e: int, w: nat, t: nat)
    requires
        all_hex(ip),
        all_hex(fp),
        1 <= ip.len() + fp.len() <= 16,
        -32768 <= e <= 32767,
        0 < w,
        1 + w + t <= 64,
    ensures
        parse_float_spec(hex_float_text(ip, fp, e), w, t) matches Ok(bits) ==> encodes_value(
            bits,
            w,
            t,
            digits_value(ip + fp, 16),
            e - 4 * fp.len(),
        ),
{
    law_hex_float_value(ip, fp, e, w, t);
    lemma_read_exact(digits_value(ip + fp, 16), e - 4 * fp.len(), w, t);
}

/// Reading a hexadecimal float text `0x` `ip` `p` `e` is exact: the bits it
/// gives are those of a finite non-negative number worth exactly `sig * 2^e`,
/// where `sig` is the value of the digits `ip`.
pub proof fn law_hex_int_float_exact(ip: Seq<char>, e: int, w: nat, t: nat)
    requires
        all_hex(ip),
        1 <= ip.len() <= 16,
        -32768 <= e <= 32767,
        0 < w,
        1 + w + t <= 64,
    ensures
        parse_float_spec(hex_int_float_text(ip, e), w, t) matches Ok(bits) ==> encodes_value(
            bits,
            w,
            t,
            digits_value(ip, 16),
            e,
        ),
{
    law_hex_int_float_value(ip, e, w, t);
    lemma_read_exact(digits_value(ip, 16), e, w, t);
}

} // verus!
