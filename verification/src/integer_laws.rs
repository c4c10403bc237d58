//! What reading the text of an integer immediate gives back.

use vstd::prelude::*;
use crate::chars::{is_dec_digit, is_hex_digit, hex_value};
use crate::digit_facts::{lemma_dec_min, lemma_hex_char, lemma_hex_min, lemma_hex_padded};
use crate::int_parse::{scan_dec_int, scan_hex_int, parse_i64_spec, sign_len, has_hex_prefix, scan_magnitude, wrap_i64, lemma_pow16_bound};
use crate::error::ParseError;
use crate::integer::{grouped_hex, imm64_text, u64_bits, parse_uimm32_spec, parse_offset32_spec};
use crate::num_text::{all_dec, all_hex, digits_value};
use crate::render::{dec_min, hex_min, hex_padded, pow16, lemma_hex_min_len_upper};

verus! {

/// Scanning a run of `k` hexadecimal digits multiplies the value gathered so
/// far by `16^k` and adds the run's value.
pub proof fn lemma_scan_hex_run(s: Seq<char>, i: nat, k: nat, v: nat, n: nat)
    requires
        i + k <= s.len(),
        all_hex(s.subrange(i as int, (i + k) as int)),
        n + k <= 16,
    ensures
        scan_hex_int(s, i, v, n) == scan_hex_int(
            s,
            i + k,
            v * pow16(k) + digits_value(s.subrange(i as int, (i + k) as int), 16),
            n + k,
        ),
    decreases k,
{
    let run = s.subrange(i as int, (i + k) as int);
    if k == 0 {
        assert(run.len() == 0);
        assert(pow16(0) == 1);
    } else {
        let k1 = (k - 1) as nat;
        let run1 = s.subrange(i as int, (i + k1) as int);
        assert(run.drop_last() =~= run1);
        assert(run.last() == s[(i + k1) as int]);
        assert(is_hex_digit(run[k1 as int]));
        assert(all_hex(run1)) by {
            assert forall|j: int| 0 <= j < run1.len() implies #[trigger] is_hex_digit(run1[j]) by {
                assert(run1[j] == run[j]);
            }
        }
        lemma_scan_hex_run(s, i, k1, v, n);
        let d1 = digits_value(run1, 16);
        let p1 = pow16(k1);
        assert(pow16(k) == 16 * p1);
        assert((v * p1 + d1) * 16 + hex_value(s[(i + k1) as int]) == v * pow16(k) + (d1 * 16 + hex_value(
            s[(i + k1) as int],
        ))) by (nonlinear_arith)
            requires
                pow16(k) == 16 * p1,
        ;
    }
}

/// Scanning a run of `k` decimal digits from nothing gathers the run's value,
/// when that value fits in 64 bits.
pub proof fn lemma_scan_dec_run(s: Seq<char>, i: nat, k: nat)
    requires
        i + k <= s.len(),
        all_dec(s.subrange(i as int, (i + k) as int)),
        digits_value(s.subrange(i as int, (i + k) as int), 10) <= u64::MAX,
    ensures
        scan_dec_int(s, i, 0, 0) == scan_dec_int(s, i + k, digits_value(s.subrange(i as int, (i + k) as int), 10), k),
    decreases k,
{
    let run = s.subrange(i as int, (i + k) as int);
    if k == 0 {
        assert(run.len() == 0);
    } else {
        let k1 = (k - 1) as nat;
        let run1 = s.subrange(i as int, (i + k1) as int);
        assert(run.drop_last() =~= run1);
        assert(run.last() == s[(i + k1) as int]);
        assert(is_dec_digit(run[k1 as int]));
        assert(all_dec(run1)) by {
            assert forall|j: int| 0 <= j < run1.len() implies #[trigger] is_dec_digit(run1[j]) by {
                assert(run1[j] == run[j]);
            }
        }
        assert(digits_value(run1, 10) <= digits_value(run, 10));
        lemma_scan_dec_run(s, i, k1);
    }
}

/// The number of four-digit groups of `grouped_hex(u)`.
pub open spec fn hex_groups(u: nat) -> nat
    decreases u,
{
    if u < 0x1_0000 {
        1
    } else {
        1 + hex_groups(u / 0x1_0000)
    }
}

/// A number below `2^(16 k)` has at most `k` groups.
proof fn lemma_hex_groups_bound(u: nat, k: nat)
    requires
        k >= 1,
        u < pow16(4 * k),
    ensures
        hex_groups(u) <= k,
    decreases k,
{
    assert(pow16(4) == 0x1_0000) by {
        reveal_with_fuel(pow16, 5);
    }
    if u >= 0x1_0000 {
        if k == 1 {
        } else {
            lemma_pow16_split((k - 1) as nat);
            lemma_hex_groups_bound(u / 0x1_0000, (k - 1) as nat);
        }
    }
}

/// `16^(4(k+1))` is `2^16` times `16^(4k)`.
proof fn lemma_pow16_split(k: nat)
    ensures
        pow16(4 * (k + 1)) == 0x1_0000 * pow16(4 * k),
{
    let a = pow16(4 * k);
    assert(pow16(4 * k + 1) == 16 * a);
    assert(pow16(4 * k + 2) == 16 * pow16(4 * k + 1));
    assert(pow16(4 * k + 3) == 16 * pow16(4 * k + 2));
    assert(pow16(4 * k + 4) == 16 * pow16(4 * k + 3));
    assert(4 * (k + 1) == 4 * k + 4);
}

/// Scanning the grouped hexadecimal text of `u` from nothing gathers `u`,
/// with four digits per group.
pub proof fn lemma_scan_grouped(s: Seq<char>, i: nat, u: nat)
    requires
        u < 0x1_0000_0000_0000_0000,
        i + grouped_hex(u).len() <= s.len(),
        s.subrange(i as int, (i + grouped_hex(u).len()) as int) == grouped_hex(u),
    ensures
        scan_hex_int(s, i, 0, 0) == scan_hex_int(s, i + grouped_hex(u).len(), u, 4 * hex_groups(u)),
        1 <= hex_groups(u) <= 4,
    decreases u,
{
    assert(pow16(4) == 0x1_0000) by {
        reveal_with_fuel(pow16, 5);
    }
    assert(pow16(16) == 0x1_0000_0000_0000_0000) by {
        reveal_with_fuel(pow16, 17);
    }
    lemma_hex_groups_bound(u, 4);
    let low = u % 0x1_0000;
    let p = hex_padded(low, 4);
    lemma_hex_padded(low, 4);
    if u < 0x1_0000 {
        assert(s.subrange(i as int, (i + 4) as int) =~= p);
        lemma_scan_hex_run(s, i, 4, 0, 0);
    } else {
        let high = u / 0x1_0000;
        let a = grouped_hex(high);
        assert(pow16(12) == 0x1_0000_0000_0000) by {
            reveal_with_fuel(pow16, 13);
        }
        lemma_hex_groups_bound(high, 3);
        assert(s.subrange(i as int, (i + a.len()) as int) =~= a) by {
            assert forall|j: int| 0 <= j < a.len() implies s.subrange(i as int, (i + a.len()) as int)[j] == a[j] by {
                assert(s[i as int + j] == grouped_hex(u)[j]);
            }
        }
        lemma_scan_grouped(s, i, high);
        let m = i + a.len();
        assert(s[m as int] == grouped_hex(u)[a.len() as int]);
        assert(s[m as int] == '_');
        lemma_hex_char(0);
        assert(!is_hex_digit('_'));
        assert(scan_hex_int(s, m, high, 4 * hex_groups(high)) == scan_hex_int(
            s,
            m + 1,
            high,
            4 * hex_groups(high),
        ));
        assert(s.subrange((m + 1) as int, (m + 5) as int) =~= p) by {
            assert forall|j: int| 0 <= j < 4 implies s.subrange((m + 1) as int, (m + 5) as int)[j] == p[j] by {
                assert(s[m as int + 1 + j] == grouped_hex(u)[a.len() + 1 + j]);
            }
        }
        lemma_scan_hex_run(s, m + 1, 4, high, 4 * hex_groups(high));
        assert(high * 0x1_0000 + low == u);
    }
}

/// A sign (or none) followed by the decimal text of `m` reads as the
/// magnitude `m`.
proof fn lemma_read_dec(s: Seq<char>, b: nat, m: nat)
    requires
        b <= 1,
        m <= u64::MAX,
        s.len() == b + dec_min(m).len(),
        s.skip(b as int) == dec_min(m),
        b == 1 ==> (s[0] == '-' || s[0] == '+'),
    ensures
        scan_magnitude(s) == Ok::<(nat, nat), crate::error::ParseError>((m, dec_min(m).len())),
{
    lemma_dec_min(m);
    let d = dec_min(m);
    assert(s[b as int] == d[0]);
    assert(is_hex_digit(d[0]));
    assert(sign_len(s) == b);
    if s.len() >= b + 2 {
        assert(s[b + 1int] == d[1]);
        assert(is_hex_digit(d[1]));
    }
    assert(!has_hex_prefix(s, b));
    assert(s.subrange(b as int, (b + d.len()) as int) =~= d);
    lemma_scan_dec_run(s, b, d.len());
}

/// A sign (or none) followed by `0x` and the grouped hexadecimal text of `u`
/// reads as the magnitude `u`.
proof fn lemma_read_hex(s: Seq<char>, b: nat, u: nat)
    requires
        b <= 1,
        u < 0x1_0000_0000_0000_0000,
        s.len() == b + 2 + grouped_hex(u).len(),
        s.skip(b as int) == seq!['0', 'x'] + grouped_hex(u),
        b == 1 ==> (s[0] == '-' || s[0] == '+'),
    ensures
        scan_magnitude(s) == Ok::<(nat, nat), crate::error::ParseError>((u, 4 * hex_groups(u))),
        hex_groups(u) >= 1,
{
    let g = grouped_hex(u);
    assert(s[b as int] == s.skip(b as int)[0]);
    assert(s[b + 1int] == s.skip(b as int)[1]);
    assert(s[b as int] == '0');
    assert(s[b + 1int] == 'x');
    assert(sign_len(s) == b);
    assert(has_hex_prefix(s, b));
    assert(s.subrange((b + 2) as int, (b + 2 + g.len()) as int) =~= g) by {
        assert forall|j: int| 0 <= j < g.len() implies s.subrange((b + 2) as int, (b + 2 + g.len()) as int)[j] == g[j] by {
            assert(s[b + 2 + j] == s.skip(b as int)[2 + j]);
        }
    }
    lemma_scan_grouped(s, b + 2, u);
}

/// Reading the text of an `Imm64` gives back its number.
pub proof fn law_imm64_text_roundtrip(x: i64)
    ensures
        parse_i64_spec(imm64_text(x)) == Ok::<i64, crate::error::ParseError>(x),
{
    let s = imm64_text(x);
    if -10_000 < x && x < 10_000 {
        if x < 0 {
            assert(s.skip(1) =~= dec_min((-x) as nat));
            lemma_read_dec(s, 1, (-x) as nat);
        } else {
            assert(s.skip(0) =~= s);
            lemma_read_dec(s, 0, x as nat);
            lemma_dec_min(x as nat);
            assert(is_hex_digit(s[0]));
        }
    } else {
        assert(s.skip(0) =~= s);
        lemma_read_hex(s, 0, u64_bits(x));
    }
}

/// Reading the text of a `Uimm32` gives back its number.
pub proof fn law_uimm32_text_roundtrip(x: u32)
    ensures
        crate::integer::parse_uimm32_spec(crate::integer::uimm32_text(x)) == Ok::<
            u32,
            crate::error::ParseError,
        >(x),
{
    let s = crate::integer::uimm32_text(x);
    assert(s.skip(0) =~= s);
    if x < 10_000 {
        lemma_read_dec(s, 0, x as nat);
        lemma_dec_min(x as nat);
        assert(is_hex_digit(s[0]));
    } else {
        lemma_read_hex(s, 0, x as nat);
    }
}

/// Reading the text of a nonzero `Offset32` gives back its number. (Zero
/// has the empty text, which is no offset.)
pub proof fn law_offset32_text_roundtrip(x: i32)
    requires
        x != 0,
    ensures
        crate::integer::parse_offset32_spec(crate::integer::offset32_text(x)) == Ok::<
            i32,
            crate::error::ParseError,
        >(x),
{
    let s = crate::integer::offset32_text(x);
    let mag: nat = if x < 0 { (-x) as nat } else { x as nat };
    if mag < 10_000 {
        assert(s.skip(1) =~= dec_min(mag));
        lemma_read_dec(s, 1, mag);
    } else {
        assert(s.skip(1) =~= seq!['0', 'x'] + grouped_hex(mag));
        lemma_read_hex(s, 1, mag);
    }
}

/// Scanning two texts that agree from the given positions on gives the same.
proof fn lemma_scan_same_rest(s: Seq<char>, i: nat, s2: Seq<char>, j: nat, v: nat, n: nat)
    requires
        i <= s.len(),
        j <= s2.len(),
        s.skip(i as int) == s2.skip(j as int),
    ensures
        scan_hex_int(s, i, v, n) == scan_hex_int(s2, j, v, n),
        scan_dec_int(s, i, v, n) == scan_dec_int(s2, j, v, n),
    decreases s.len() - i,
{
    assert(s.skip(i as int).len() == s.len() - i);
    assert(s2.skip(j as int).len() == s2.len() - j);
    if i < s.len() {
        assert(s[i as int] == s.skip(i as int)[0]);
        assert(s2[j as int] == s2.skip(j as int)[0]);
        assert(s.skip(i + 1int) =~= s.skip(i as int).drop_first());
        assert(s2.skip(j + 1int) =~= s2.skip(j as int).drop_first());
        let c = s[i as int];
        lemma_scan_same_rest(s, i + 1, s2, j + 1, v, n);
        if is_hex_digit(c) {
            lemma_scan_same_rest(s, i + 1, s2, j + 1, v * 16 + hex_value(c), n + 1);
            lemma_scan_same_rest(s, i + 1, s2, j + 1, v * 10 + hex_value(c), n + 1);
        }
    }
}

/// Scanning with an underscore inserted at or after the scan position gives
/// the same as scanning without it.
proof fn lemma_scan_underscore(s: Seq<char>, k: nat, i: nat, v: nat, n: nat)
    requires
        i <= k <= s.len(),
    ensures
        scan_hex_int(s.insert(k as int, '_'), i, v, n) == scan_hex_int(s, i, v, n),
        scan_dec_int(s.insert(k as int, '_'), i, v, n) == scan_dec_int(s, i, v, n),
    decreases k - i,
{
    let s2 = s.insert(k as int, '_');
    lemma_hex_char(0);
    assert(!is_hex_digit('_'));
    if i == k {
        assert(s2[k as int] == '_');
        assert(s2.skip(k + 1int) =~= s.skip(k as int));
        lemma_scan_same_rest(s2, k + 1, s, k, v, n);
    } else {
        assert(s2[i as int] == s[i as int]);
        let c = s[i as int];
        lemma_scan_underscore(s, k, i + 1, v, n);
        if is_hex_digit(c) {
            lemma_scan_underscore(s, k, i + 1, v * 16 + hex_value(c), n + 1);
            lemma_scan_underscore(s, k, i + 1, v * 10 + hex_value(c), n + 1);
        }
    }
}

/// Underscores are allowed where digits go: inserting one anywhere after the
/// sign and the `0x` of an integer text does not change what it denotes.
pub proof fn law_underscore_insertion(s: Seq<char>, k: nat)
    requires
        sign_len(s) + (if has_hex_prefix(s, sign_len(s)) { 2nat } else { 0nat }) <= k <= s.len(),
    ensures
        parse_i64_spec(s.insert(k as int, '_')) == parse_i64_spec(s),
{
    let s2 = s.insert(k as int, '_');
    let b = sign_len(s);
    if k > 0 {
        assert(s2[0] == s[0]);
    }
    if b == 1 {
        assert(k >= 1);
    }
    assert(sign_len(s2) == b);
    if has_hex_prefix(s, b) {
        assert(s2[b as int] == s[b as int]);
        assert(s2[b + 1int] == s[b + 1int]);
    }
    assert(has_hex_prefix(s2, b) == has_hex_prefix(s, b));
    lemma_scan_underscore(s, k, if has_hex_prefix(s, b) { b + 2 } else { b }, 0, 0);
    assert(scan_magnitude(s2) == scan_magnitude(s));
    assert((s2.len() > 0 && s2[0] == '-') == (s.len() > 0 && s[0] == '-'));
}


/// A hexadecimal scan that starts below `16^n` with at most 16 digits ends
/// below `16^n'` with at most 16 digits.
proof fn lemma_scan_hex_bound(s: Seq<char>, i: nat, v: nat, n: nat)
    requires
        n <= 16,
        v < pow16(n),
    ensures
        scan_hex_int(s, i, v, n) matches Ok((v2, n2)) ==> n2 <= 16 && v2 < pow16(n2),
    decreases s.len() - i,
{
    if i < s.len() {
        let c = s[i as int];
        if is_hex_digit(c) {
            if n + 1 <= 16 {
                assert(hex_value(c) < 16);
                assert(pow16(n + 1) == 16 * pow16(n));
                assert(v * 16 + hex_value(c) < pow16(n + 1)) by (nonlinear_arith)
                    requires
                        v < pow16(n),
                        hex_value(c) < 16,
                        pow16(n + 1) == 16 * pow16(n),
                ;
                lemma_scan_hex_bound(s, i + 1, v * 16 + hex_value(c), n + 1);
            }
        } else {
            lemma_scan_hex_bound(s, i + 1, v, n);
        }
    }
}

/// A decimal scan that starts within 64 bits ends within 64 bits.
proof fn lemma_scan_dec_bound(s: Seq<char>, i: nat, v: nat, n: nat)
    requires
        v <= u64::MAX,
    ensures
        scan_dec_int(s, i, v, n) matches Ok((v2, n2)) ==> v2 <= u64::MAX,
    decreases s.len() - i,
{
    if i < s.len() {
        let c = s[i as int];
        if is_dec_digit(c) {
            if v * 10 + hex_value(c) <= u64::MAX {
                lemma_scan_dec_bound(s, i + 1, v * 10 + hex_value(c), n + 1);
            }
        } else {
            lemma_scan_dec_bound(s, i + 1, v, n);
        }
    }
}

/// The magnitude of an integer text fits in 64 bits.
proof fn lemma_magnitude_bound(s: Seq<char>)
    ensures
        scan_magnitude(s) matches Ok((v, n)) ==> v <= u64::MAX,
{
    assert(pow16(0) == 1);
    lemma_scan_hex_bound(s, sign_len(s) + 2, 0, 0);
    lemma_scan_dec_bound(s, sign_len(s), 0, 0);
    if let Ok((v, n)) = scan_magnitude(s) {
        if has_hex_prefix(s, sign_len(s)) {
            lemma_pow16_bound(n);
        }
    }
}

/// A leading `+` does not change what an integer text denotes, and a leading
/// `-` negates it. For a text `s` without a sign: where `s` reads as `x >= 0`,
/// `-s` reads as `-x`; where the magnitude of `s` is exactly 2^63 (which `s`
/// alone reads as `i64::MIN`), `-s` reads as `i64::MIN` too; a larger
/// magnitude is refused after `-` as too small; and an error of `s` is the
/// error of `-s`.
pub proof fn law_parse_sign(s: Seq<char>)
    requires
        !(s.len() > 0 && (s[0] == '-' || s[0] == '+')),
    ensures
        parse_i64_spec(seq!['+'] + s) == parse_i64_spec(s),
        parse_i64_spec(s) matches Err(e) ==> parse_i64_spec(seq!['-'] + s) == Err::<i64, ParseError>(e),
        parse_i64_spec(s) matches Ok(x) ==> (0 <= x ==> parse_i64_spec(seq!['-'] + s) == Ok::<
            i64,
            ParseError,
        >((0 - x) as i64)),
        parse_i64_spec(s) matches Ok(x) ==> (x == i64::MIN ==> parse_i64_spec(seq!['-'] + s) == Ok::<
            i64,
            ParseError,
        >(i64::MIN)),
        parse_i64_spec(s) matches Ok(x) ==> (i64::MIN < x < 0 ==> parse_i64_spec(seq!['-'] + s)
            == Err::<i64, ParseError>(ParseError::NegativeTooSmall)),
{
    let sp = seq!['+'] + s;
    let sm = seq!['-'] + s;
    assert(sp[0] == '+');
    assert(sm[0] == '-');
    assert(sign_len(sp) == 1);
    assert(sign_len(sm) == 1);
    assert(sign_len(s) == 0);
    if s.len() >= 1 {
        assert(sp[1] == s[0] && sm[1] == s[0]);
    }
    if s.len() >= 2 {
        assert(sp[2] == s[1] && sm[2] == s[1]);
    }
    assert(has_hex_prefix(sp, 1) == has_hex_prefix(s, 0));
    assert(has_hex_prefix(sm, 1) == has_hex_prefix(s, 0));
    if has_hex_prefix(s, 0) {
        assert(sp.skip(3) =~= s.skip(2));
        assert(sm.skip(3) =~= s.skip(2));
        lemma_scan_same_rest(sp, 3, s, 2, 0, 0);
        lemma_scan_same_rest(sm, 3, s, 2, 0, 0);
    } else {
        assert(sp.skip(1) =~= s.skip(0));
        assert(sm.skip(1) =~= s.skip(0));
        lemma_scan_same_rest(sp, 1, s, 0, 0, 0);
        lemma_scan_same_rest(sm, 1, s, 0, 0, 0);
    }
    assert(scan_magnitude(sp) == scan_magnitude(s));
    assert(scan_magnitude(sm) == scan_magnitude(s));
    lemma_magnitude_bound(s);
    if let Ok((v, n)) = scan_magnitude(s) {
        if n != 0 {
            if v < 0x8000_0000_0000_0000 {
                assert(wrap_i64(v) == v);
                assert(parse_i64_spec(s) == Ok::<i64, ParseError>(v as i64));
            } else {
                assert(wrap_i64(v) == v - 0x1_0000_0000_0000_0000);
                assert(parse_i64_spec(s) == Ok::<i64, ParseError>((v - 0x1_0000_0000_0000_0000) as i64));
            }
        }
    }
}

/// Every run of decimal digits worth at most 2^64 - 1 reads as its value,
/// taken modulo 2^64 as an `i64` when that is 2^63 or more.
pub proof fn law_parse_decimal_digits(ds: Seq<char>)
    requires
        1 <= ds.len(),
        all_dec(ds),
        digits_value(ds, 10) <= u64::MAX,
    ensures
        parse_i64_spec(ds) == Ok::<i64, ParseError>(
            if digits_value(ds, 10) < 0x8000_0000_0000_0000 {
                digits_value(ds, 10) as i64
            } else {
                (digits_value(ds, 10) - 0x1_0000_0000_0000_0000) as i64
            },
        ),
{
    assert(is_dec_digit(ds[0]));
    if ds.len() >= 2 {
        assert(is_dec_digit(ds[1]));
    }
    assert(sign_len(ds) == 0);
    assert(!has_hex_prefix(ds, 0));
    assert(ds.subrange(0, ds.len() as int) =~= ds);
    lemma_scan_dec_run(ds, 0, ds.len());
    assert(scan_magnitude(ds) == Ok::<(nat, nat), ParseError>((digits_value(ds, 10), ds.len())));
}

/// `0x` and every run of one to sixteen hexadecimal digits read as the
/// digits' value, taken modulo 2^64 as an `i64` when that is 2^63 or more.
pub proof fn law_parse_hex_digits(ds: Seq<char>)
    requires
        1 <= ds.len() <= 16,
        all_hex(ds),
    ensures
        digits_value(ds, 16) <= u64::MAX,
        parse_i64_spec(seq!['0', 'x'] + ds) == Ok::<i64, ParseError>(
            if digits_value(ds, 16) < 0x8000_0000_0000_0000 {
                digits_value(ds, 16) as i64
            } else {
                (digits_value(ds, 16) - 0x1_0000_0000_0000_0000) as i64
            },
        ),
{
    let s = seq!['0', 'x'] + ds;
    let v = digits_value(ds, 16);
    assert(s[0] == '0' && s[1] == 'x');
    assert(sign_len(s) == 0);
    assert(has_hex_prefix(s, 0));
    assert(s.subrange(2, (2 + ds.len()) as int) =~= ds);
    lemma_scan_hex_run(s, 2, ds.len(), 0, 0);
    assert(0 * pow16(ds.len()) == 0) by (nonlinear_arith);
    assert(scan_magnitude(s) == Ok::<(nat, nat), ParseError>((v, ds.len())));
    assert(pow16(0) == 1);
    lemma_scan_hex_bound(s, 2, 0, 0);
    lemma_pow16_bound(ds.len());
}

/// The decimal digits of `m` read as `m`, taken modulo 2^64 as an `i64`
/// when `m` is 2^63 or more; the same after a `+`; after a `-` they read as
/// `-m` when `m` is at most 2^63, and a larger magnitude is refused.
pub proof fn law_parse_decimal(m: nat)
    requires
        m <= u64::MAX,
    ensures
        parse_i64_spec(dec_min(m)) == Ok::<i64, ParseError>(
            if m < 0x8000_0000_0000_0000 {
                m as i64
            } else {
                (m - 0x1_0000_0000_0000_0000) as i64
            },
        ),
        parse_i64_spec(seq!['+'] + dec_min(m)) == parse_i64_spec(dec_min(m)),
        m <= 0x8000_0000_0000_0000 ==> parse_i64_spec(seq!['-'] + dec_min(m)) == Ok::<i64, ParseError>(
            (0 - m) as i64,
        ),
        m > 0x8000_0000_0000_0000 ==> parse_i64_spec(seq!['-'] + dec_min(m)) == Err::<i64, ParseError>(
            ParseError::NegativeTooSmall,
        ),
{
    let d = dec_min(m);
    lemma_dec_min(m);
    assert(is_dec_digit(d[0]));
    assert(d.skip(0) =~= d);
    lemma_read_dec(d, 0, m);
    let sm = seq!['-'] + d;
    assert(sm.skip(1) =~= d);
    lemma_read_dec(sm, 1, m);
    law_parse_sign(d);
}

/// `0x` and the hexadecimal digits of `u` read as `u`, taken modulo 2^64 as
/// an `i64` when `u` is 2^63 or more.
pub proof fn law_parse_hexadecimal(u: nat)
    requires
        u <= u64::MAX,
    ensures
        parse_i64_spec(seq!['0', 'x'] + hex_min(u)) == Ok::<i64, ParseError>(
            if u < 0x8000_0000_0000_0000 {
                u as i64
            } else {
                (u - 0x1_0000_0000_0000_0000) as i64
            },
        ),
{
    lemma_hex_min(u);
    assert(pow16(16) == 0x1_0000_0000_0000_0000) by {
        reveal_with_fuel(pow16, 17);
    }
    lemma_hex_min_len_upper(u, 16);
    law_parse_hex_digits(hex_min(u));
}

/// A `Uimm32` text reads as the number that `parse_i64_spec` reads from it
/// whenever that number lies in 0 ..= 2^32 - 1; any other number is out of
/// range, and an error of `parse_i64_spec` is passed on.
pub proof fn law_uimm32_parse(s: Seq<char>)
    ensures
        parse_i64_spec(s) matches Ok(x) ==> (0 <= x <= u32::MAX ==> parse_uimm32_spec(s) == Ok::<
            u32,
            ParseError,
        >(x as u32)),
        parse_i64_spec(s) matches Ok(x) ==> (!(0 <= x <= u32::MAX) ==> parse_uimm32_spec(s) == Err::<
            u32,
            ParseError,
        >(ParseError::Uimm32OutOfRange)),
        parse_i64_spec(s) matches Err(e) ==> parse_uimm32_spec(s) == Err::<u32, ParseError>(e),
{
}

/// The plain decimal digits of every `u32`, and `0x` with its hexadecimal
/// digits, read back as that number.
pub proof fn law_uimm32_number_text(n: u32)
    ensures
        parse_uimm32_spec(dec_min(n as nat)) == Ok::<u32, ParseError>(n),
        parse_uimm32_spec(seq!['0', 'x'] + hex_min(n as nat)) == Ok::<u32, ParseError>(n),
{
    law_parse_decimal(n as nat);
    law_parse_hexadecimal(n as nat);
}

/// An `Offset32` text must start with a sign; one that does reads as the
/// number that `parse_i64_spec` reads from it whenever that number lies in
/// the range of `i32`; any other number is out of range, and an error of
/// `parse_i64_spec` is passed on.
pub proof fn law_offset32_parse(s: Seq<char>)
    ensures
        !(s.len() > 0 && (s[0] == '-' || s[0] == '+')) ==> parse_offset32_spec(s) == Err::<
            i32,
            ParseError,
        >(ParseError::OffsetWithoutSign),
        (s.len() > 0 && (s[0] == '-' || s[0] == '+')) ==> (parse_i64_spec(s) matches Ok(x) ==> (
        i32::MIN <= x <= i32::MAX ==> parse_offset32_spec(s) == Ok::<i32, ParseError>(x as i32))),
        (s.len() > 0 && (s[0] == '-' || s[0] == '+')) ==> (parse_i64_spec(s) matches Ok(x) ==> (!(
        i32::MIN <= x <= i32::MAX) ==> parse_offset32_spec(s) == Err::<i32, ParseError>(
            ParseError::OffsetOutOfRange,
        ))),
        (s.len() > 0 && (s[0] == '-' || s[0] == '+')) ==> (parse_i64_spec(s) matches Err(e)
            ==> parse_offset32_spec(s) == Err::<i32, ParseError>(e)),
{
}

/// `+` and the decimal digits of every `n` up to 2^31 - 1 read as the offset
/// `n`, and `-` and the decimal digits of every `n` up to 2^31 read as `-n`.
pub proof fn law_offset32_decimal(n: nat)
    requires
        n <= 0x8000_0000,
    ensures
        n <= 0x7fff_ffff ==> parse_offset32_spec(seq!['+'] + dec_min(n)) == Ok::<i32, ParseError>(
            n as i32,
        ),
        parse_offset32_spec(seq!['-'] + dec_min(n)) == Ok::<i32, ParseError>((0 - n) as i32),
{
    law_parse_decimal(n);
    assert((seq!['+'] + dec_min(n))[0] == '+');
    assert((seq!['-'] + dec_min(n))[0] == '-');
}

} // verus!
