//! What reading the text of an IEEE bit pattern gives back, and other laws of
//! the floating point immediates.

use vstd::prelude::*;
use vstd::arithmetic::power2::{pow2, lemma_pow2_adds, lemma_pow2_strictly_increases, lemma2_to64, lemma_pow2_pos, lemma_pow2_unfold};
use vstd::arithmetic::mul::{lemma_mul_inequality, lemma_mul_strict_inequality, lemma_mul_is_associative, lemma_mul_is_commutative};
use vstd::arithmetic::div_mod::{lemma_fundamental_div_mod, lemma_fundamental_div_mod_converse, lemma_div_denominator, lemma_mod_multiples_basic, lemma_div_by_multiple};
use crate::chars::{is_hex_digit, is_dec_digit, hex_value};
use crate::digit_facts::{lemma_dec_min, lemma_hex_min, lemma_hex_char, lemma_hex_padded};
use crate::error::ParseError;
use crate::ieee_format::{float_text, trailing_field, exponent_field, sign_field, exponent_bias, significand_digits, aligned_trailing, special_text};
use crate::ieee_parse::{parse_float_spec, special_value, scan_float, bit_length, lemma_bit_length, normalize, encode_float};
use crate::num_text::{all_hex, digits_value, parse_hex_u64_spec, parse_i16_spec, drop_plus};
use crate::render::{dec_min, dec_signed, hex_min, hex_padded, pow16};

verus! {

/// `16^k` is `2^(4k)`.
pub proof fn lemma_pow16_pow2(k: nat)
    ensures
        pow16(k) == pow2(4 * k),
    decreases k,
{
    lemma2_to64();
    if k > 0 {
        lemma_pow16_pow2((k - 1) as nat);
        lemma_pow2_adds(4 * (k - 1) as nat, 4);
        assert(4 * k == 4 * (k - 1) as nat + 4);
    }
}

/// A bit pattern of `1 + w + t` bits is its sign bit, exponent field and
/// trailing significand field put together.
pub proof fn lemma_fields(bits: u64, w: nat, t: nat)
    requires
        (bits as nat) < pow2(1 + w + t),
    ensures
        bits as nat == sign_field(bits, w, t) * pow2(w + t) + exponent_field(bits, w, t) * pow2(t)
            + trailing_field(bits, t),
        sign_field(bits, w, t) <= 1,
        exponent_field(bits, w, t) < pow2(w),
        trailing_field(bits, t) < pow2(t),
{
    let x = bits as nat;
    let pt = pow2(t);
    let pw = pow2(w);
    lemma_pow2_pos(t);
    lemma_pow2_pos(w);
    lemma_pow2_pos(w + t);
    lemma_pow2_adds(w, t);
    lemma_pow2_adds(1, w + t);
    lemma2_to64();
    let hi = x / pt;
    lemma_fundamental_div_mod(x as int, pt as int);
    lemma_fundamental_div_mod(hi as int, pw as int);
    lemma_div_denominator(x as int, pt as int, pw as int);
    lemma_mul_is_commutative(pt as int, pw as int);
    assert(hi / pw == x / pow2(w + t));
    let top = x / pow2(w + t);
    assert(top < 2) by {
        vstd::arithmetic::div_mod::lemma_multiply_divide_lt(x as int, pow2(w + t) as int, 2);
        lemma_mul_is_commutative(pow2(w + t) as int, 2);
    }
    assert(sign_field(bits, w, t) == top % 2);
    assert(top % 2 == top);
    assert(x == pt * hi + x % pt);
    assert(hi == pw * (hi / pw) + hi % pw);
    assert(x == pt * (pw * top + hi % pw) + x % pt);
    let r = hi % pw;
    vstd::arithmetic::mul::lemma_mul_is_distributive_add(pt as int, (pw * top) as int, r as int);
    lemma_mul_is_associative(pt as int, pw as int, top as int);
    lemma_mul_is_commutative((pt * pw) as int, top as int);
    lemma_mul_is_commutative(pt as int, r as int);
    assert(pt * (pw * top + r) == top * pow2(w + t) + r * pt);
}

/// The number of bits of a nonzero number bounds it by powers of two.
pub proof fn lemma_bit_length_bounds(n: nat)
    requires
        n > 0,
    ensures
        1 <= bit_length(n),
        pow2((bit_length(n) - 1) as nat) <= n < pow2(bit_length(n)),
    decreases n,
{
    lemma2_to64();
    if n == 1 {
        reveal_with_fuel(bit_length, 2);
    } else {
        lemma_bit_length_bounds(n / 2);
        let b = bit_length(n / 2);
        lemma_pow2_unfold(b);
        lemma_pow2_unfold(b + 1);
    }
}

/// Scaling a significand by `2^k` and its exponent by `-k` leaves its
/// normalized form unchanged.
pub proof fn lemma_normalize_scale(sig: nat, exp: int, k: nat, t: nat)
    requires
        sig > 0,
    ensures
        normalize(sig * pow2(k), exp - k, t) == normalize(sig, exp, t),
{
    let p = pow2(k);
    lemma_pow2_pos(k);
    lemma_bit_length_bounds(sig);
    let b = bit_length(sig);
    lemma_pow2_adds((b - 1) as nat, k);
    lemma_pow2_adds(b, k);
    lemma_mul_inequality(pow2((b - 1) as nat) as int, sig as int, p as int);
    lemma_mul_strict_inequality(sig as int, pow2(b) as int, p as int);
    assert((b - 1) as nat + k == (b + k - 1) as nat);
    lemma_bit_length(sig * p, b + k);
    let big = sig * p;
    assert(bit_length(big) == b + k);
    if b + k <= t + 1 {
        let adj = (t + 1 - b - k) as nat;
        lemma_pow2_adds(k, adj);
        lemma_mul_is_associative(sig as int, p as int, pow2(adj) as int);
        assert(k + adj == (t + 1 - b) as nat);
        assert(big * pow2(adj) == sig * pow2((t + 1 - b) as nat));
        assert(normalize(big, exp - k, t) == Ok::<(nat, int), ParseError>((sig * pow2((t + 1 - b) as nat), exp - (t + 1 - b))));
    } else if b <= t + 1 {
        let adj = (b + k - (t + 1)) as nat;
        let rest = (k - adj) as nat;
        lemma_pow2_adds(rest, adj);
        lemma_pow2_pos(adj);
        lemma_pow2_pos(rest);
        assert(p == pow2(rest) * pow2(adj));
        lemma_mul_is_associative(sig as int, pow2(rest) as int, pow2(adj) as int);
        lemma_mod_multiples_basic((sig * pow2(rest)) as int, pow2(adj) as int);
        lemma_div_by_multiple((sig * pow2(rest)) as int, pow2(adj) as int);
        assert(rest == (t + 1 - b) as nat);
        assert(big % pow2(adj) == 0);
        assert(big / pow2(adj) == sig * pow2(rest));
        assert(normalize(big, exp - k, t) == Ok::<(nat, int), ParseError>((sig * pow2((t + 1 - b) as nat), exp - (t + 1 - b))));
        assert(normalize(sig, exp, t) == Ok::<(nat, int), ParseError>((sig * pow2((t + 1 - b) as nat), exp - (t + 1 - b))));
    } else {
        let adj = (b - (t + 1)) as nat;
        lemma_pow2_adds(adj, k);
        lemma_pow2_pos(adj);
        let q = sig / pow2(adj);
        let r = sig % pow2(adj);
        lemma_fundamental_div_mod(sig as int, pow2(adj) as int);
        // sig * 2^k = (q * 2^adj + r) * 2^k = q * 2^(adj + k) + r * 2^k
        assert(big == q * pow2(adj + k) + r * p) by (nonlinear_arith)
            requires
                big == sig * p,
                sig == pow2(adj) * q + r,
                pow2(adj + k) == pow2(adj) * p,
        ;
        lemma_mul_strict_inequality(r as int, pow2(adj) as int, p as int);
        assert(r * p < pow2(adj + k));
        lemma_fundamental_div_mod_converse(big as int, pow2(adj + k) as int, q as int, (r * p) as int);
        assert(big / pow2(adj + k) == q);
        assert(big % pow2(adj + k) == r * p);
        assert((b + k - (t + 1)) as nat == adj + k);
        if r == 0 {
            assert(r * p == 0) by (nonlinear_arith)
                requires
                    r == 0,
            ;
            assert(big % pow2((b + k - (t + 1)) as nat) == 0);
            assert(big / pow2((b + k - (t + 1)) as nat) == q);
            assert(normalize(big, exp - k, t) == Ok::<(nat, int), ParseError>((q, exp + adj)));
            assert(normalize(sig, exp, t) == Ok::<(nat, int), ParseError>((q, exp + adj)));
        } else {
            assert(r * p > 0) by (nonlinear_arith)
                requires
                    r > 0,
                    p > 0,
            ;
        }
    }
}

/// Reading the decimal text of an `i16` value gives it back.
pub proof fn lemma_parse_dec_signed(e: int)
    requires
        -32768 <= e <= 32767,
    ensures
        parse_i16_spec(dec_signed(e)) == Some(e as i16),
{
    let s = dec_signed(e);
    if e < 0 {
        lemma_dec_min((-e) as nat);
        assert(s.drop_first() =~= dec_min((-e) as nat));
    } else {
        lemma_dec_min(e as nat);
        assert(is_dec_digit(s[0]));
    }
}

/// Reading the shortest hexadecimal text of a `u64` value gives it back.
pub proof fn lemma_parse_hex_min(p: nat)
    requires
        p <= u64::MAX,
    ensures
        parse_hex_u64_spec(hex_min(p)) == Some(p as u64),
{
    lemma_hex_min(p);
    assert(is_hex_digit(hex_min(p)[0]));
    assert(drop_plus(hex_min(p)) == hex_min(p));
}

/// Scanning a run of `k` hexadecimal digits of a float multiplies the
/// significand gathered so far by `16^k` and adds the run's value.
pub proof fn lemma_scan_float_run(s: Seq<char>, i: nat, k: nat, digits: nat, point: Option<nat>, sig: nat)
    requires
        i + k <= s.len(),
        all_hex(s.subrange(i as int, (i + k) as int)),
        digits + k <= 16,
    ensures
        scan_float(s, i, digits, point, sig) == scan_float(
            s,
            i + k,
            digits + k,
            point,
            sig * pow16(k) + digits_value(s.subrange(i as int, (i + k) as int), 16),
        ),
    decreases k,
{
    let run = s.subrange(i as int, (i + k) as int);
    if k == 0 {
        assert(run.len() == 0);
        assert(pow16(0) == 1);
    } else {
        let k1 = (k - 1) as nat;
        let run1 = s.subrange(i as int, (i + k1) as int);
        assert(run.drop_last() =~= run1);
        assert(run.last() == s[(i + k1) as int]);
        assert(is_hex_digit(run[k1 as int]));
        assert(all_hex(run1)) by {
            assert forall|j: int| 0 <= j < run1.len() implies #[trigger] is_hex_digit(run1[j]) by {
                assert(run1[j] == run[j]);
            }
        }
        lemma_scan_float_run(s, i, k1, digits, point, sig);
        let d1 = digits_value(run1, 16);
        let p1 = pow16(k1);
        let c = s[(i + k1) as int];
        assert(c != '.' && c != 'p');
        assert(pow16(k) == 16 * p1);
        assert((sig * p1 + d1) * 16 + hex_value(c) == sig * pow16(k) + (d1 * 16 + hex_value(c)))
            by (nonlinear_arith)
            requires
                pow16(k) == 16 * p1,
        ;
    }
}

/// Scanning `L.frac p e` (a lead digit `lead`, a radix point, the hexadecimal
/// digits `frac` and the exponent) gathers `lead * 16^|frac| + frac`.
pub proof fn lemma_scan_significand(s: Seq<char>, i: nat, lead: nat, frac: Seq<char>, e: int)
    requires
        lead < 16,
        1 + frac.len() <= 16,
        all_hex(frac),
        -32768 <= e <= 32767,
        s.len() == i + 3 + frac.len() + dec_signed(e).len(),
        s.subrange(i as int, (i + 2) as int) == seq![crate::render::hex_char(lead as int), '.'],
        s.subrange((i + 2) as int, (i + 2 + frac.len()) as int) == frac,
        s[(i + 2 + frac.len()) as int] == 'p',
        s.skip((i + 3 + frac.len()) as int) == dec_signed(e),
    ensures
        scan_float(s, i, 0, None, 0) == Ok::<(nat, nat, Option<nat>, int), ParseError>(
            (lead * pow16(frac.len()) + digits_value(frac, 16), 1 + frac.len(), Some(1nat), e),
        ),
{
    lemma_hex_char(lead as int);
    assert(s[i as int] == crate::render::hex_char(lead as int));
    assert(s[i + 1int] == '.');
    let k = frac.len();
    assert(scan_float(s, i, 0, None, 0) == scan_float(s, i + 1, 1, None, lead));
    assert(scan_float(s, i + 1, 1, None, lead) == scan_float(s, i + 2, 1, Some(1nat), lead));
    lemma_scan_float_run(s, i + 2, k, 1, Some(1nat), lead);
    lemma_parse_dec_signed(e);
}

/// Reading the text of an infinity or NaN gives back its bits.
proof fn lemma_special_roundtrip(tb: nat, sign: nat, w: nat, t: nat)
    requires
        1 <= t,
        0 < w,
        tb < pow2(t),
        sign + (pow2(w) - 1) * pow2(t) + tb <= u64::MAX,
    ensures
        special_value(special_text(tb, t), sign, w, t) == Ok::<u64, ParseError>(
            (sign + (pow2(w) - 1) * pow2(t) + tb) as u64,
        ),
{
    let q = pow2((t - 1) as nat);
    lemma_pow2_pos(w);
    lemma_pow2_unfold(t);
    lemma_pow2_pos((t - 1) as nat);
    let st = special_text(tb, t);
    if tb == 0 {
        assert(st =~= seq!['I', 'n', 'f']);
    } else {
        let payload = tb % q;
        lemma_fundamental_div_mod(tb as int, q as int);
        if tb >= q {
            lemma_fundamental_div_mod_converse(tb as int, q as int, 1, tb - q);
            assert(tb == q + payload);
            assert((pow2(w) - 1) * pow2(t) >= 0) by (nonlinear_arith)
                requires
                    pow2(w) >= 1,
            ;
            if payload != 0 {
                lemma_parse_hex_min(payload);
                lemma_hex_min(payload);
                let nan = seq!['N', 'a', 'N', ':', '0', 'x'];
                assert(st.len() >= 7);
                assert(st.take(6) =~= nan);
                assert(st.skip(6) =~= hex_min(payload));
                assert(st != seq!['0', '.', '0']);
                assert(st != seq!['I', 'n', 'f']);
                assert(st != seq!['N', 'a', 'N']);
            } else {
                assert(st =~= seq!['N', 'a', 'N']);
            }
        } else {
            lemma_fundamental_div_mod_converse(tb as int, q as int, 0, tb as int);
            assert(payload == tb);
            assert((pow2(w) - 1) * pow2(t) >= 0) by (nonlinear_arith)
                requires
                    pow2(w) >= 1,
            ;
            lemma_parse_hex_min(payload);
            lemma_hex_min(payload);
            let snan = seq!['s', 'N', 'a', 'N', ':', '0', 'x'];
            assert(st.len() >= 8);
            assert(st.take(7) =~= snan);
            assert(st.skip(7) =~= hex_min(payload));
            assert(st[0] == 's');
            assert(st.take(6)[0] == 's');
            assert(st != seq!['0', '.', '0']);
            assert(st != seq!['I', 'n', 'f']);
            assert(st != seq!['N', 'a', 'N']);
        }
    }
}

/// The significand digits of a finite nonzero number read back as the
/// trailing significand shifted into whole hexadecimal digits.
proof fn lemma_frac(bits: u64, t: nat)
    requires
        1 <= t <= 60,
        trailing_field(bits, t) < pow2(t),
    ensures
        ({
            let d = significand_digits(t);
            let sh = (4 * d - t) as nat;
            let left = aligned_trailing(bits, t);
            &&& 1 <= d <= 15
            &&& left == trailing_field(bits, t) * pow2(sh)
            &&& pow2(4 * d) == pow2(t) * pow2(sh)
            &&& pow16(d) == pow2(4 * d)
            &&& left < pow16(d)
            &&& hex_padded(left, d).len() == d
            &&& all_hex(hex_padded(left, d))
            &&& digits_value(hex_padded(left, d), 16) == left
        }),
{
    let d = significand_digits(t);
    let sh = (4 * d - t) as nat;
    let tb = trailing_field(bits, t);
    lemma_pow2_adds(t, sh);
    assert(t + sh == 4 * d);
    lemma_pow16_pow2(d);
    lemma_pow2_pos(sh);
    lemma_mul_strict_inequality(tb as int, pow2(t) as int, pow2(sh) as int);
    lemma_hex_padded(aligned_trailing(bits, t), d);
}

/// The value of the sign bit of `bits` in its place.
pub open spec fn sign_value(bits: u64, w: nat, t: nat) -> nat {
    if sign_field(bits, w, t) != 0 {
        pow2(t + w)
    } else {
        0
    }
}

/// A bit pattern is its sign value, biased exponent and trailing field put
/// together.
proof fn lemma_sign_value(bits: u64, w: nat, t: nat)
    requires
        (bits as nat) < pow2(1 + w + t),
    ensures
        bits as nat == sign_value(bits, w, t) + exponent_field(bits, w, t) * pow2(t)
            + trailing_field(bits, t),
        exponent_field(bits, w, t) < pow2(w),
        trailing_field(bits, t) < pow2(t),
{
    lemma_fields(bits, w, t);
    let sf = sign_field(bits, w, t);
    let p = pow2(w + t);
    if sf != 0 {
        assert(sf * p == p) by (nonlinear_arith)
            requires
                sf == 1,
        ;
    } else {
        assert(sf * p == 0) by (nonlinear_arith)
            requires
                sf == 0,
        ;
    }
    assert(w + t == t + w);
}

/// Reading the text of a zero, an infinity or a NaN gives back its bits.
#[verifier::rlimit(40)]
proof fn lemma_roundtrip_special(bits: u64, w: nat, t: nat)
    requires
        0 < w <= 16,
        1 <= t <= 60,
        1 + w + t <= 64,
        (bits as nat) < pow2(1 + w + t),
        (exponent_field(bits, w, t) == 0 && trailing_field(bits, t) == 0) || exponent_field(
            bits,
            w,
            t,
        ) == pow2(w) - 1,
    ensures
        parse_float_spec(float_text(bits, w, t), w, t) == Ok::<u64, ParseError>(bits),
{
    lemma_sign_value(bits, w, t);
    let tb = trailing_field(bits, t);
    let eb = exponent_field(bits, w, t);
    let negative = sign_field(bits, w, t) != 0;
    let sign = sign_value(bits, w, t);
    let s = float_text(bits, w, t);
    let pre: Seq<char> = if negative { seq!['-'] } else { Seq::empty() };
    let b = pre.len();
    lemma_pow2_pos(w);
    lemma2_to64();
    if w > 1 {
        lemma_pow2_strictly_increases(1, w);
    }
    if eb == 0 && tb == 0 {
        assert(s =~= pre + seq!['0', '.', '0']);
        assert(s.skip(b as int) =~= seq!['0', '.', '0']);
        assert(s[b as int] == '0');
        assert(s[b + 1int] == '.');
        assert(crate::int_parse::sign_len(s) == b);
        assert(!crate::int_parse::has_hex_prefix(s, b));
        assert(eb * pow2(t) == 0) by (nonlinear_arith)
            requires
                eb == 0,
        ;
        assert(bits as nat == sign);
    } else {
        lemma_roundtrip_infinite(bits, w, t);
    }
}

/// Reading the text of an infinity or a NaN gives back its bits.
#[verifier::rlimit(40)]
proof fn lemma_roundtrip_infinite(bits: u64, w: nat, t: nat)
    requires
        0 < w <= 16,
        1 <= t <= 60,
        1 + w + t <= 64,
        (bits as nat) < pow2(1 + w + t),
        exponent_field(bits, w, t) == pow2(w) - 1,
    ensures
        parse_float_spec(float_text(bits, w, t), w, t) == Ok::<u64, ParseError>(bits),
{
    lemma_sign_value(bits, w, t);
    let tb = trailing_field(bits, t);
    let negative = sign_field(bits, w, t) != 0;
    let sign = sign_value(bits, w, t);
    let s = float_text(bits, w, t);
    let pre: Seq<char> = if negative { seq!['-'] } else { Seq::empty() };
    let body = (if negative { Seq::empty() } else { seq!['+'] }) + special_text(tb, t);
    lemma2_to64();
    if w > 1 {
        lemma_pow2_strictly_increases(1, w);
    }
    assert(exponent_field(bits, w, t) != 0);
    assert(s =~= pre + body);
    assert(s.skip(1) =~= special_text(tb, t));
    lemma_special_roundtrip(tb, sign, w, t);
    assert(s[1] == special_text(tb, t)[0]);
    assert(crate::int_parse::sign_len(s) == 1);
}

/// The leading digit of the text of a finite nonzero number: 0 for
/// subnormals, 1 for normal numbers.
spec fn lead_digit(bits: u64, w: nat, t: nat) -> nat {
    if exponent_field(bits, w, t) == 0 {
        0
    } else {
        1
    }
}

/// The exponent written in the text of a finite nonzero number.
spec fn written_exponent(bits: u64, w: nat, t: nat) -> int {
    if exponent_field(bits, w, t) == 0 {
        1 - exponent_bias(w)
    } else {
        exponent_field(bits, w, t) - exponent_bias(w)
    }
}

/// The text of a finite nonzero number is a sign, `0x`, a lead digit, a
/// radix point, the significand digits, `p` and the exponent.
#[verifier::rlimit(40)]
proof fn lemma_finite_layout(bits: u64, w: nat, t: nat)
    requires
        0 < w <= 16,
        1 <= t <= 60,
        1 + w + t <= 64,
        (bits as nat) < pow2(1 + w + t),
        exponent_field(bits, w, t) != 0 || trailing_field(bits, t) != 0,
        exponent_field(bits, w, t) != pow2(w) - 1,
    ensures
        ({
            let s = float_text(bits, w, t);
            let b: nat = if sign_field(bits, w, t) != 0 { 1 } else { 0 };
            let d = significand_digits(t);
            let lead = lead_digit(bits, w, t);
            &&& s.len() == b + 5 + d + dec_signed(written_exponent(bits, w, t)).len()
            &&& (b == 1 ==> s[0] == '-')
            &&& s[b as int] == '0'
            &&& s[b + 1int] == 'x'
            &&& s.subrange((b + 2) as int, (b + 4) as int) == seq![crate::render::hex_char(lead as int), '.']
            &&& s.subrange((b + 4) as int, (b + 4 + d) as int) == hex_padded(aligned_trailing(bits, t), d)
            &&& s[(b + 4 + d) as int] == 'p'
            &&& s.skip((b + 5 + d) as int) == dec_signed(written_exponent(bits, w, t))
        }),
{
    lemma_sign_value(bits, w, t);
    let eb = exponent_field(bits, w, t);
    let negative = sign_field(bits, w, t) != 0;
    let s = float_text(bits, w, t);
    let pre: Seq<char> = if negative { seq!['-'] } else { Seq::empty() };
    let b = pre.len();
    lemma_pow2_pos(w);
    lemma2_to64();
    lemma_frac(bits, t);
    let d = significand_digits(t);
    let frac = hex_padded(aligned_trailing(bits, t), d);
    let lead = lead_digit(bits, w, t);
    let e = written_exponent(bits, w, t);
    let head = seq!['0', 'x', crate::render::hex_char(lead as int), '.'];
    assert(s =~= pre + head + frac + seq!['p'] + dec_signed(e));
    assert(s.subrange((b + 2) as int, (b + 4) as int) =~= seq![crate::render::hex_char(lead as int), '.']);
    assert(s.subrange((b + 4) as int, (b + 4 + d) as int) =~= frac);
    assert(s.skip((b + 5 + d) as int) =~= dec_signed(e));
}

/// The text of a finite nonzero number is a sign, `0x`, and significand
/// digits and an exponent that scan as written.
proof fn lemma_finite_text(bits: u64, w: nat, t: nat)
    requires
        0 < w <= 16,
        1 <= t <= 60,
        1 + w + t <= 64,
        (bits as nat) < pow2(1 + w + t),
        exponent_field(bits, w, t) != 0 || trailing_field(bits, t) != 0,
        exponent_field(bits, w, t) != pow2(w) - 1,
    ensures
        ({
            let s = float_text(bits, w, t);
            let b: nat = if sign_field(bits, w, t) != 0 { 1 } else { 0 };
            let d = significand_digits(t);
            &&& crate::int_parse::sign_len(s) == b
            &&& crate::int_parse::has_hex_prefix(s, b)
            &&& (s.len() > 0 && s[0] == '-') == (sign_field(bits, w, t) != 0)
            &&& scan_float(s, b + 2, 0, None, 0) == Ok::<(nat, nat, Option<nat>, int), ParseError>(
                (
                    lead_digit(bits, w, t) * pow16(d) + aligned_trailing(bits, t),
                    1 + d,
                    Some(1nat),
                    written_exponent(bits, w, t),
                ),
            )
        }),
{
    lemma_sign_value(bits, w, t);
    lemma_finite_layout(bits, w, t);
    lemma_frac(bits, t);
    lemma_pow2_pos(w);
    lemma2_to64();
    lemma_pow2_strictly_increases((w - 1) as nat, w);
    if w < 16 {
        lemma_pow2_strictly_increases(w, 16);
    }
    lemma_pow2_unfold(w);
    let s = float_text(bits, w, t);
    let b: nat = if sign_field(bits, w, t) != 0 { 1 } else { 0 };
    let d = significand_digits(t);
    lemma_scan_significand(
        s,
        b + 2,
        lead_digit(bits, w, t),
        hex_padded(aligned_trailing(bits, t), d),
        written_exponent(bits, w, t),
    );
}

/// Reading the text of a finite nonzero number gives back its bits.
proof fn lemma_roundtrip_finite(bits: u64, w: nat, t: nat)
    requires
        0 < w <= 16,
        1 <= t <= 60,
        1 + w + t <= 64,
        (bits as nat) < pow2(1 + w + t),
        exponent_field(bits, w, t) != 0 || trailing_field(bits, t) != 0,
        exponent_field(bits, w, t) != pow2(w) - 1,
    ensures
        parse_float_spec(float_text(bits, w, t), w, t) == Ok::<u64, ParseError>(bits),
{
    lemma_sign_value(bits, w, t);
    lemma_finite_text(bits, w, t);
    lemma_frac(bits, t);
    let tb = trailing_field(bits, t);
    let d = significand_digits(t);
    lemma_pow2_pos(t);
    lemma_pow2_pos((4 * d - t) as nat);
    if exponent_field(bits, w, t) == 0 {
        assert(tb * pow2((4 * d - t) as nat) > 0) by (nonlinear_arith)
            requires
                tb > 0,
                pow2((4 * d - t) as nat) > 0,
        ;
        assert(0 * pow16(d) == 0) by (nonlinear_arith);
        lemma_roundtrip_subnormal(bits, w, t);
    } else {
        assert(1 * pow16(d) == pow16(d)) by (nonlinear_arith);
        lemma_roundtrip_normal(bits, w, t);
    }
}

/// The significand and exponent read from the text of a subnormal number
/// encode it again.
proof fn lemma_roundtrip_subnormal(bits: u64, w: nat, t: nat)
    requires
        0 < w <= 16,
        1 <= t <= 60,
        1 + w + t <= 64,
        (bits as nat) < pow2(1 + w + t),
        exponent_field(bits, w, t) == 0,
        trailing_field(bits, t) != 0,
    ensures
        encode_float(
            sign_value(bits, w, t),
            aligned_trailing(bits, t),
            1 - exponent_bias(w) - 4 * significand_digits(t),
            w,
            t,
        ) == Ok::<u64, ParseError>(bits),
{
    lemma_sign_value(bits, w, t);
    lemma_frac(bits, t);
    let tb = trailing_field(bits, t);
    let d = significand_digits(t);
    let sh = (4 * d - t) as nat;
    let bias = exponent_bias(w);
    lemma_pow2_pos(w);
    lemma2_to64();
    if w > 1 {
        lemma_pow2_strictly_increases(1, w);
    }
    lemma_normalize_scale(tb, 1 - bias - t, sh, t);
    assert(1 - bias - t - sh == 1 - bias - 4 * d);
    lemma_bit_length_bounds(tb);
    let bl = bit_length(tb);
    if bl > t {
        if bl - 1 > t {
            lemma_pow2_strictly_increases(t, (bl - 1) as nat);
        }
    }
    assert(bl <= t);
    let adj = (t + 1 - bl) as nat;
    lemma_pow2_pos(adj);
    lemma_mod_multiples_basic(tb as int, pow2(adj) as int);
    lemma_div_by_multiple(tb as int, pow2(adj) as int);
    assert(normalize(tb, 1 - bias - t, t) == Ok::<(nat, int), ParseError>(
        (tb * pow2(adj), 1 - bias - t - adj),
    ));
}

/// The significand and exponent read from the text of a normal number encode
/// it again.
proof fn lemma_roundtrip_normal(bits: u64, w: nat, t: nat)
    requires
        0 < w <= 16,
        1 <= t <= 60,
        1 + w + t <= 64,
        (bits as nat) < pow2(1 + w + t),
        exponent_field(bits, w, t) != 0,
        exponent_field(bits, w, t) != pow2(w) - 1,
    ensures
        encode_float(
            sign_value(bits, w, t),
            pow16(significand_digits(t)) + aligned_trailing(bits, t),
            exponent_field(bits, w, t) - exponent_bias(w) - 4 * significand_digits(t),
            w,
            t,
        ) == Ok::<u64, ParseError>(bits),
{
    lemma_sign_value(bits, w, t);
    lemma_frac(bits, t);
    let tb = trailing_field(bits, t);
    let eb = exponent_field(bits, w, t);
    let d = significand_digits(t);
    let sh = (4 * d - t) as nat;
    let e = eb - exponent_bias(w);
    let m = pow2(t) + tb;
    let sig = pow16(d) + aligned_trailing(bits, t);
    vstd::arithmetic::mul::lemma_mul_is_distributive_add(pow2(sh) as int, pow2(t) as int, tb as int);
    lemma_mul_is_commutative(pow2(sh) as int, pow2(t) as int);
    lemma_mul_is_commutative(pow2(sh) as int, tb as int);
    lemma_mul_is_commutative(m as int, pow2(sh) as int);
    assert(sig == m * pow2(sh));
    lemma_pow2_pos(t);
    lemma_normalize_scale(m, e - t, sh, t);
    assert(e - t - sh == e - 4 * d);
    lemma_pow2_unfold(t + 1);
    lemma_bit_length(m, t + 1);
    assert(bit_length(m) == t + 1);
    lemma2_to64();
    let adj = (t + 1 - bit_length(m)) as nat;
    assert(adj == 0);
    assert(m * pow2(adj) == m) by (nonlinear_arith)
        requires
            pow2(adj) == 1,
    ;
    assert(normalize(m, e - t, t) == Ok::<(nat, int), ParseError>((m, e - t)));
}

/// Reading the text of a bit pattern gives back the bit pattern, for every
/// format whose significand text fits the 16 digits a float may have
/// (`t <= 60`; the binary32 and binary64 formats among them).
pub proof fn law_float_text_roundtrip(bits: u64, w: nat, t: nat)
    requires
        0 < w <= 16,
        1 <= t <= 60,
        1 + w + t <= 64,
        (bits as nat) < pow2(1 + w + t),
    ensures
        parse_float_spec(float_text(bits, w, t), w, t) == Ok::<u64, ParseError>(bits),
{
    let tb = trailing_field(bits, t);
    let eb = exponent_field(bits, w, t);
    if (eb == 0 && tb == 0) || eb == pow2(w) - 1 {
        lemma_roundtrip_special(bits, w, t);
    } else {
        lemma_roundtrip_finite(bits, w, t);
    }
}

/// The fields of a bit pattern put together from a sign bit `sg`, a biased
/// exponent `eb` and a trailing significand `tb` are those parts.
pub proof fn lemma_compose_fields(sg: nat, eb: nat, tb: nat, w: nat, t: nat)
    requires
        sg <= 1,
        eb < pow2(w),
        tb < pow2(t),
        1 + w + t <= 64,
    ensures
        ({
            let x = sg * pow2(w + t) + eb * pow2(t) + tb;
            &&& x < pow2(1 + w + t)
            &&& trailing_field(x as u64, t) == tb
            &&& exponent_field(x as u64, w, t) == eb
            &&& sign_field(x as u64, w, t) == sg
        }),
{
    let pt = pow2(t);
    let pw = pow2(w);
    let p = pow2(w + t);
    lemma_pow2_pos(t);
    lemma_pow2_pos(w);
    lemma_pow2_adds(w, t);
    lemma_pow2_adds(1, w + t);
    lemma2_to64();
    lemma_pow2_bound_64(1 + w + t);
    let hi = sg * pw + eb;
    let x = sg * p + eb * pt + tb;
    assert(x == hi * pt + tb) by (nonlinear_arith)
        requires
            p == pw * pt,
            hi == sg * pw + eb,
            x == sg * p + eb * pt + tb,
    ;
    assert(hi < 2 * pw) by (nonlinear_arith)
        requires
            sg <= 1,
            eb < pw,
            hi == sg * pw + eb,
    ;
    assert(x < 2 * p) by (nonlinear_arith)
        requires
            x == hi * pt + tb,
            hi + 1 <= 2 * pw,
            tb < pt,
            p == pw * pt,
    ;
    assert(x < pow2(64));
    lemma_fundamental_div_mod_converse(x as int, pt as int, hi as int, tb as int);
    lemma_fundamental_div_mod_converse(hi as int, pw as int, sg as int, eb as int);
    lemma_div_denominator(x as int, pt as int, pw as int);
    lemma_mul_is_commutative(pt as int, pw as int);
    assert(x / p == sg);
    assert(sg % 2 == sg);
}

/// `2^k` is at most `2^64` for `k <= 64`.
proof fn lemma_pow2_bound_64(k: nat)
    requires
        k <= 64,
    ensures
        pow2(k) <= pow2(64),
{
    if k < 64 {
        lemma_pow2_strictly_increases(k, 64);
    }
}

/// Flipping the sign bit of a bit pattern (adding or removing `2^(w+t)`)
/// negates the sign and keeps the exponent and significand fields; flipping
/// twice gives the pattern back.
pub proof fn law_flip_sign_fields(bits: u64, w: nat, t: nat)
    requires
        1 + w + t <= 64,
        (bits as nat) < pow2(1 + w + t),
    ensures
        ({
            let p = pow2(w + t);
            let flipped: nat = if bits >= p { (bits - p) as nat } else { (bits + p) as nat };
            &&& flipped < pow2(1 + w + t)
            &&& sign_field(flipped as u64, w, t) == 1 - sign_field(bits, w, t)
            &&& exponent_field(flipped as u64, w, t) == exponent_field(bits, w, t)
            &&& trailing_field(flipped as u64, t) == trailing_field(bits, t)
            &&& (if flipped >= p { (flipped - p) as nat } else { flipped + p }) == bits
        }),
{
    lemma_fields(bits, w, t);
    let sg = sign_field(bits, w, t);
    let eb = exponent_field(bits, w, t);
    let tb = trailing_field(bits, t);
    let p = pow2(w + t);
    lemma_pow2_pos(w + t);
    let rest = eb * pow2(t) + tb;
    lemma_pow2_adds(w, t);
    assert(rest < p) by (nonlinear_arith)
        requires
            rest == eb * pow2(t) + tb,
            eb < pow2(w),
            tb < pow2(t),
            p == pow2(w) * pow2(t),
    ;
    lemma_compose_fields((1 - sg) as nat, eb, tb, w, t);
    lemma_compose_fields(sg, eb, tb, w, t);
    if sg == 1 {
        assert(sg * p == p) by (nonlinear_arith)
            requires
                sg == 1,
        ;
        assert(((1 - sg) as nat) * p == 0) by (nonlinear_arith)
            requires
                sg == 1,
        ;
    } else {
        assert(sg * p == 0) by (nonlinear_arith)
            requires
                sg == 0,
        ;
        assert(((1 - sg) as nat) * p == p) by (nonlinear_arith)
            requires
                sg == 0,
        ;
    }
}

/// Reading the text of an `Ieee32` gives back its bits.
pub proof fn law_ieee32_text_roundtrip(x: u32)
    ensures
        parse_float_spec(crate::ieee::ieee32_text(x), 8, 23) == Ok::<u64, ParseError>(x as u64),
{
    lemma2_to64();
    law_float_text_roundtrip(x as u64, 8, 23);
}

/// Reading the text of an `Ieee64` gives back its bits.
pub proof fn law_ieee64_text_roundtrip(x: u64)
    ensures
        parse_float_spec(crate::ieee::ieee64_text(x), 11, 52) == Ok::<u64, ParseError>(x),
{
    lemma2_to64();
    law_float_text_roundtrip(x, 11, 52);
}

/// Different bit patterns have different texts.
pub proof fn law_float_text_injective(a: u64, b: u64, w: nat, t: nat)
    requires
        0 < w <= 16,
        1 <= t <= 60,
        1 + w + t <= 64,
        (a as nat) < pow2(1 + w + t),
        (b as nat) < pow2(1 + w + t),
        float_text(a, w, t) == float_text(b, w, t),
    ensures
        a == b,
{
    law_float_text_roundtrip(a, w, t);
    law_float_text_roundtrip(b, w, t);
}

/// Negating an `Ieee32` flips its sign bit and keeps its exponent and
/// significand; negating twice gives the number back.
pub proof fn law_ieee32_neg(x: u32)
    ensures
        ({
            let y: u32 = (if x >= 0x8000_0000 { x - 0x8000_0000 } else { x + 0x8000_0000 }) as u32;
            &&& sign_field(y as u64, 8, 23) == 1 - sign_field(x as u64, 8, 23)
            &&& exponent_field(y as u64, 8, 23) == exponent_field(x as u64, 8, 23)
            &&& trailing_field(y as u64, 23) == trailing_field(x as u64, 23)
            &&& (if y >= 0x8000_0000 { y - 0x8000_0000 } else { y + 0x8000_0000 }) == x
        }),
{
    lemma2_to64();
    law_flip_sign_fields(x as u64, 8, 23);
}

/// Negating an `Ieee64` flips its sign bit and keeps its exponent and
/// significand; negating twice gives the number back.
pub proof fn law_ieee64_neg(x: u64)
    ensures
        ({
            let y: u64 = (if x >= 0x8000_0000_0000_0000 {
                x - 0x8000_0000_0000_0000
            } else {
                x + 0x8000_0000_0000_0000
            }) as u64;
            &&& sign_field(y, 11, 52) == 1 - sign_field(x, 11, 52)
            &&& exponent_field(y, 11, 52) == exponent_field(x, 11, 52)
            &&& trailing_field(y, 52) == trailing_field(x, 52)
            &&& (if y >= 0x8000_0000_0000_0000 {
                y - 0x8000_0000_0000_0000
            } else {
                y + 0x8000_0000_0000_0000
            }) == x
        }),
{
    lemma2_to64();
    vstd::arithmetic::power2::lemma2_to64_rest();
    law_flip_sign_fields(x, 11, 52);
}

/// The text of a power of two `2^n` built by `Ieee32::pow2`, for the normal
/// exponents `-126 ..= 127`, is `0x1.000000p` followed by `n`.
pub proof fn law_ieee32_pow2_text(n: int)
    requires
        -126 <= n <= 127,
    ensures
        crate::ieee::ieee32_text(((n + 127) * 0x80_0000) as u32) == seq!['0', 'x', '1', '.']
            + crate::render::zeros(6) + seq!['p'] + dec_signed(n),
{
    lemma2_to64();
    lemma_compose_fields(0, (n + 127) as nat, 0, 8, 23);
    assert(0 * pow2(31) == 0) by (nonlinear_arith);
    assert(((n + 127) as nat) * pow2(23) == (n + 127) * 0x80_0000);
    assert(0 * pow2(1) == 0) by (nonlinear_arith);
    lemma_hex_char(0);
    assert(hex_min(0) =~= seq!['0']);
    assert(hex_padded(0, 6) =~= crate::render::zeros(6));
    assert(exponent_bias(8) == 127);
}

/// The text of a power of two `2^n` built by `Ieee64::pow2`, for the normal
/// exponents `-1022 ..= 1023`, is `0x1.0000000000000p` followed by `n`.
pub proof fn law_ieee64_pow2_text(n: int)
    requires
        -1022 <= n <= 1023,
    ensures
        crate::ieee::ieee64_text(((n + 1023) * 0x10_0000_0000_0000) as u64) == seq!['0', 'x', '1', '.']
            + crate::render::zeros(13) + seq!['p'] + dec_signed(n),
{
    lemma2_to64();
    lemma_pow2_adds(10, 1);
    lemma_pow2_adds(11, 52);
    lemma_pow2_adds(32, 20);
    lemma_pow2_adds(32, 31);
    assert(pow2(11) == 2048);
    assert(pow2(10) == 1024);
    assert(pow2(52) == 0x10_0000_0000_0000);
    lemma_compose_fields(0, (n + 1023) as nat, 0, 11, 52);
    assert(0 * pow2(63) == 0) by (nonlinear_arith);
    assert(((n + 1023) as nat) * pow2(52) == (n + 1023) * 0x10_0000_0000_0000);
    assert(0 * pow2(0) == 0) by (nonlinear_arith);
    lemma_hex_char(0);
    assert(hex_min(0) =~= seq!['0']);
    assert(hex_padded(0, 13) =~= crate::render::zeros(13));
    assert(exponent_bias(11) == 1023);
}

/// Scanning two float texts that agree from the given positions on gives the
/// same.
proof fn lemma_scan_float_same_rest(
    s: Seq<char>,
    i: nat,
    s2: Seq<char>,
    j: nat,
    digits: nat,
    point: Option<nat>,
    sig: nat,
)
    requires
        i <= s.len(),
        j <= s2.len(),
        s.skip(i as int) == s2.skip(j as int),
    ensures
        scan_float(s, i, digits, point, sig) == scan_float(s2, j, digits, point, sig),
    decreases s.len() - i,
{
    assert(s.skip(i as int).len() == s.len() - i);
    assert(s2.skip(j as int).len() == s2.len() - j);
    if i < s.len() {
        assert(s[i as int] == s.skip(i as int)[0]);
        assert(s2[j as int] == s2.skip(j as int)[0]);
        assert(s.skip(i + 1int) =~= s.skip(i as int).drop_first());
        assert(s2.skip(j + 1int) =~= s2.skip(j as int).drop_first());
        let c = s[i as int];
        lemma_scan_float_same_rest(s, i + 1, s2, j + 1, digits, Some(digits), sig);
        lemma_scan_float_same_rest(s, i + 1, s2, j + 1, digits + 1, point, sig * 16 + hex_value(c));
    }
}

/// A normalized significand has exactly `t + 1` bits.
pub proof fn lemma_normalize_range(sig: nat, exp: int, t: nat)
    requires
        sig > 0,
    ensures
        normalize(sig, exp, t) matches Ok((m, e)) ==> pow2(t) <= m < pow2(t + 1),
{
    lemma_bit_length_bounds(sig);
    let b = bit_length(sig);
    if b > t + 1 {
        let adj = (b - (t + 1)) as nat;
        let p = pow2(adj);
        lemma_pow2_pos(adj);
        if sig % p == 0 {
            let m = sig / p;
            lemma_fundamental_div_mod(sig as int, p as int);
            lemma_pow2_adds(t, adj);
            lemma_pow2_adds(t + 1, adj);
            assert((b - 1) as nat == t + adj);
            assert(b == t + 1 + adj);
            lemma_mul_is_commutative(p as int, m as int);
            assert(sig == m * p);
            vstd::arithmetic::mul::lemma_mul_inequality_converse(pow2(t) as int, m as int, p as int);
            vstd::arithmetic::mul::lemma_mul_strict_inequality_converse(m as int, pow2(t + 1) as int, p as int);
        }
    } else {
        let adj = (t + 1 - b) as nat;
        let p = pow2(adj);
        lemma_pow2_pos(adj);
        lemma_pow2_adds((b - 1) as nat, adj);
        lemma_pow2_adds(b, adj);
        assert((b - 1) as nat + adj == t);
        lemma_mul_inequality(pow2((b - 1) as nat) as int, sig as int, p as int);
        lemma_mul_strict_inequality(sig as int, pow2(b) as int, p as int);
    }
}

/// The sign bit value only adds to what `encode_float` gives without it, and
/// what it gives without it lies below the sign bit.
proof fn lemma_encode_sign(sig: nat, exp: int, w: nat, t: nat)
    requires
        sig > 0,
        0 < w,
        1 + w + t <= 64,
    ensures
        encode_float(0, sig, exp, w, t) matches Ok(b) ==> (b as nat) < pow2(t + w) && encode_float(
            pow2(t + w),
            sig,
            exp,
            w,
            t,
        ) == Ok::<u64, ParseError>((b + pow2(t + w)) as u64),
        encode_float(0, sig, exp, w, t) matches Err(e) ==> encode_float(pow2(t + w), sig, exp, w, t)
            == Err::<u64, ParseError>(e),
{
    let pt = pow2(t);
    let pw = pow2(w);
    let p = pow2(t + w);
    lemma_pow2_pos(t);
    lemma_pow2_pos(w);
    lemma_pow2_adds(t, w);
    lemma_pow2_bound_64(1 + w + t);
    lemma_pow2_adds(1, t + w);
    lemma2_to64();
    lemma_normalize_range(sig, exp, t);
    match normalize(sig, exp, t) {
        Err(e) => {},
        Ok((m, e1)) => {
            let biased = e1 + exponent_bias(w) + t;
            if biased > pw - 2 {
            } else if biased > 0 {
                let x = biased * pt + (m - pt);
                lemma_pow2_unfold(t + 1);
                assert(x < p) by (nonlinear_arith)
                    requires
                        x == biased * pt + (m - pt),
                        biased <= pw - 2,
                        m < 2 * pt,
                        p == pt * pw,
                ;
                assert(x >= 0) by (nonlinear_arith)
                    requires
                        x == biased * pt + (m - pt),
                        biased >= 1,
                        m >= pt,
                ;
            } else if 1 - biased <= t {
                let adj = (1 - biased) as nat;
                lemma_pow2_pos(adj);
                if m % pow2(adj) == 0 {
                    vstd::arithmetic::div_mod::lemma_div_is_ordered_by_denominator(
                        m as int,
                        1,
                        pow2(adj) as int,
                    );
                    if w > 1 {
                        lemma_pow2_strictly_increases(t + 1, t + w);
                    }
                    assert(m / pow2(adj) < p);
                }
            }
        },
    }
}

/// The sign bit value only adds to what a special float text gives without
/// it, and what it gives without it lies below the sign bit.
proof fn lemma_special_sign(s2: Seq<char>, w: nat, t: nat)
    requires
        0 < w,
        1 <= t,
        1 + w + t <= 64,
    ensures
        special_value(s2, 0, w, t) matches Ok(b) ==> (b as nat) < pow2(t + w) && special_value(
            s2,
            pow2(t + w),
            w,
            t,
        ) == Ok::<u64, ParseError>((b + pow2(t + w)) as u64),
        special_value(s2, 0, w, t) matches Err(e) ==> special_value(s2, pow2(t + w), w, t) == Err::<
            u64,
            ParseError,
        >(e),
{
    let pt = pow2(t);
    let pw = pow2(w);
    let p = pow2(t + w);
    let q = pow2((t - 1) as nat);
    lemma_pow2_pos(t);
    lemma_pow2_pos(w);
    lemma_pow2_pos((t - 1) as nat);
    lemma_pow2_unfold(t);
    lemma_pow2_adds(t, w);
    lemma_pow2_bound_64(1 + w + t);
    lemma_pow2_adds(1, t + w);
    lemma2_to64();
    let max_e = (pw - 1) * pt;
    assert(max_e + pt == p && max_e >= 0) by (nonlinear_arith)
        requires
            max_e == (pw - 1) * pt,
            p == pt * pw,
            pw >= 1,
    ;
}

/// A leading `+` does not change what a float text denotes, and a leading
/// `-` only adds the sign bit to it.
pub proof fn law_float_sign_prefix(s: Seq<char>, w: nat, t: nat)
    requires
        0 < w <= 16,
        1 <= t,
        1 + w + t <= 64,
        !(s.len() > 0 && (s[0] == '-' || s[0] == '+')),
    ensures
        parse_float_spec(seq!['+'] + s, w, t) == parse_float_spec(s, w, t),
        parse_float_spec(s, w, t) matches Ok(b) ==> (b as nat) < pow2(t + w) && parse_float_spec(
            seq!['-'] + s,
            w,
            t,
        ) == Ok::<u64, ParseError>((b + pow2(t + w)) as u64),
        parse_float_spec(s, w, t) matches Err(e) ==> parse_float_spec(seq!['-'] + s, w, t) == Err::<
            u64,
            ParseError,
        >(e),
{
    let sp = seq!['+'] + s;
    let sm = seq!['-'] + s;
    assert(sp.skip(1) =~= s);
    assert(sm.skip(1) =~= s);
    assert(s.skip(0) =~= s);
    assert(crate::int_parse::sign_len(sp) == 1);
    assert(crate::int_parse::sign_len(sm) == 1);
    assert(crate::int_parse::sign_len(s) == 0);
    if s.len() >= 1 {
        assert(sp[1] == s[0] && sm[1] == s[0]);
    }
    if s.len() >= 2 {
        assert(sp[2] == s[1] && sm[2] == s[1]);
    }
    assert(crate::int_parse::has_hex_prefix(sp, 1) == crate::int_parse::has_hex_prefix(s, 0));
    assert(crate::int_parse::has_hex_prefix(sm, 1) == crate::int_parse::has_hex_prefix(s, 0));
    lemma_pow2_pos(t + w);
    if crate::int_parse::has_hex_prefix(s, 0) {
        assert(sp.skip(3) =~= s.skip(2));
        assert(sm.skip(3) =~= s.skip(2));
        lemma_scan_float_same_rest(sp, 3, s, 2, 0, None, 0);
        lemma_scan_float_same_rest(sm, 3, s, 2, 0, None, 0);
        match scan_float(s, 2, 0, None, 0) {
            Err(e) => {},
            Ok((sig, digits, point, e)) => {
                if digits != 0 && sig != 0 {
                    let exp = match point {
                        None => e,
                        Some(d) => e - 4 * (digits - d),
                    };
                    lemma_encode_sign(sig, exp, w, t);
                }
            },
        }
    } else {
        lemma_special_sign(s, w, t);
    }
}

/// A leading `+` does not change what an `Ieee32` text denotes, and a leading
/// `-` only sets the sign bit.
pub proof fn law_ieee32_sign_prefix(s: Seq<char>)
    requires
        !(s.len() > 0 && (s[0] == '-' || s[0] == '+')),
    ensures
        parse_float_spec(seq!['+'] + s, 8, 23) == parse_float_spec(s, 8, 23),
        parse_float_spec(s, 8, 23) matches Ok(b) ==> b < 0x8000_0000 && parse_float_spec(
            seq!['-'] + s,
            8,
            23,
        ) == Ok::<u64, ParseError>((b + 0x8000_0000) as u64),
        parse_float_spec(s, 8, 23) matches Err(e) ==> parse_float_spec(seq!['-'] + s, 8, 23) == Err::<
            u64,
            ParseError,
        >(e),
{
    lemma2_to64();
    law_float_sign_prefix(s, 8, 23);
}

/// A leading `+` does not change what an `Ieee64` text denotes, and a leading
/// `-` only sets the sign bit.
pub proof fn law_ieee64_sign_prefix(s: Seq<char>)
    requires
        !(s.len() > 0 && (s[0] == '-' || s[0] == '+')),
    ensures
        parse_float_spec(seq!['+'] + s, 11, 52) == parse_float_spec(s, 11, 52),
        parse_float_spec(s, 11, 52) matches Ok(b) ==> b < 0x8000_0000_0000_0000 && parse_float_spec(
            seq!['-'] + s,
            11,
            52,
        ) == Ok::<u64, ParseError>((b + 0x8000_0000_0000_0000) as u64),
        parse_float_spec(s, 11, 52) matches Err(e) ==> parse_float_spec(seq!['-'] + s, 11, 52)
            == Err::<u64, ParseError>(e),
{
    lemma2_to64();
    vstd::arithmetic::power2::lemma2_to64_rest();
    law_float_sign_prefix(s, 11, 52);
}

} // verus!