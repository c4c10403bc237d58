//! The text of IEEE 754 bit patterns: hexadecimal significands in the style of
//! C99's `%a`, with signed `Inf` and `NaN` forms.

use vstd::prelude::*;
use vstd::arithmetic::power2::{pow2, lemma_pow2_adds, lemma_pow2_strictly_increases, lemma2_to64, lemma_pow2_pos};
use vstd::arithmetic::mul::lemma_mul_strict_inequality;
use crate::bitfield::{lemma_shr, lemma_one_shl, lemma_shl, lemma_low_mask};
use crate::render::{dec_signed, hex_min, hex_padded, push_dec_signed, push_hex_min, push_hex_padded};

verus! {

/// The trailing significand field: the low `t` bits.
pub open spec fn trailing_field(bits: u64, t: nat) -> nat {
    (bits as nat) % pow2(t)
}

/// The biased exponent field: the `w` bits above the trailing significand.
pub open spec fn exponent_field(bits: u64, w: nat, t: nat) -> nat {
    ((bits as nat) / pow2(t)) % pow2(w)
}

/// The sign bit: the bit above the exponent field.
pub open spec fn sign_field(bits: u64, w: nat, t: nat) -> nat {
    ((bits as nat) / pow2(w + t)) % 2
}

/// The exponent bias of a format with a `w`-bit exponent field.
pub open spec fn exponent_bias(w: nat) -> int {
    pow2((w - 1) as nat) - 1
}

/// How many hexadecimal digits hold a `t`-bit trailing significand.
pub open spec fn significand_digits(t: nat) -> nat {
    (t + 3) / 4
}

/// The trailing significand shifted left to fill `significand_digits(t)`
/// hexadecimal digits.
pub open spec fn aligned_trailing(bits: u64, t: nat) -> nat {
    trailing_field(bits, t) * pow2((4 * significand_digits(t) - t) as nat)
}

/// The text of an infinity or a NaN after its sign, from its trailing
/// significand `tb`: `Inf`; `NaN` for the quiet NaN without payload;
/// `NaN:0x..` for a quiet NaN with payload; `sNaN:0x..` for a signaling NaN.
pub open spec fn special_text(tb: nat, t: nat) -> Seq<char> {
    if tb == 0 {
        seq!['I', 'n', 'f']
    } else {
        let payload = tb % pow2((t - 1) as nat);
        if tb >= pow2((t - 1) as nat) {
            if payload != 0 {
                seq!['N', 'a', 'N', ':', '0', 'x'] + hex_min(payload)
            } else {
                seq!['N', 'a', 'N']
            }
        } else {
            seq!['s', 'N', 'a', 'N', ':', '0', 'x'] + hex_min(payload)
        }
    }
}

/// The text of the bit pattern `bits` in the format with a `w`-bit exponent
/// and a `t`-bit trailing significand: a leading `-` for a set sign bit;
/// then `0.0` for zero; `0x0.` digits `p` emin for subnormals; `0x1.` digits
/// `p` exponent for normal numbers; and `+`/`-` followed by `Inf` or a NaN form
/// for the largest exponent.
pub open spec fn float_text(bits: u64, w: nat, t: nat) -> Seq<char> {
    let tb = trailing_field(bits, t);
    let eb = exponent_field(bits, w, t);
    let negative = sign_field(bits, w, t) != 0;
    let frac = hex_padded(aligned_trailing(bits, t), significand_digits(t));
    (if negative {
        seq!['-']
    } else {
        Seq::empty()
    }) + if eb == 0 {
        if tb == 0 {
            seq!['0', '.', '0']
        } else {
            seq!['0', 'x', '0', '.'] + frac + seq!['p'] + dec_signed(1 - exponent_bias(w))
        }
    } else if eb == pow2(w) - 1 {
        (if negative {
            Seq::empty()
        } else {
            seq!['+']
        }) + special_text(tb, t)
    } else {
        seq!['0', 'x', '1', '.'] + frac + seq!['p'] + dec_signed(eb - exponent_bias(w))
    }
}

/// Appends the text of an infinity or a NaN whose trailing significand is
/// `t_bits`.
fn push_special(out: &mut String, t_bits: u64, t: u8)
    requires
        t < 64,
        t_bits < pow2(t as nat),
    ensures
        final(out)@ == old(out)@ + special_text(t_bits as nat, t as nat),
{
    let ghost start = out@;
    let tl = t as u64;
    if t_bits == 0 {
        // Infinity.
        proof {
            reveal_strlit("Inf");
        }
        out.append("Inf");
    } else {
        // NaN.
        assert(tl >= 1) by {
            if tl == 0 {
                lemma2_to64();
            }
        }
        proof {
            lemma_one_shl((tl - 1) as u64);
        }
        let q: u64 = 1u64 << (tl - 1);
        let payload = t_bits & (q - 1);
        proof {
            lemma_low_mask(t_bits, (q - 1) as u64, (t - 1) as nat);
            lemma_pow2_adds((t - 1) as nat, 1);
            lemma2_to64();
            let ghost k: u64 = (tl - 1) as u64;
            assert((t_bits & q) != 0 <==> t_bits >= q) by (bit_vector)
                requires
                    k < 63,
                    q == 1u64 << k,
                    t_bits < q + q,
            ;
        }
        if t_bits & q != 0 {
            // Quiet NaN.
            if payload != 0 {
                proof {
                    reveal_strlit("NaN:0x");
                }
                out.append("NaN:0x");
                push_hex_min(out, payload);
            } else {
                proof {
                    reveal_strlit("NaN");
                }
                out.append("NaN");
            }
        } else {
            // Signaling NaN.
            proof {
                reveal_strlit("sNaN:0x");
            }
            out.append("sNaN:0x");
            push_hex_min(out, payload);
        }
    }
    assert(out@ =~= start + special_text(t_bits as nat, t as nat));
}

/// The fields of `bits`: trailing significand, biased exponent, sign bit,
/// the largest biased exponent, and the trailing significand left-aligned in
/// whole hexadecimal digits with their count.
fn float_fields(bits: u64, w: u8, t: u8) -> (r: (u64, u64, u64, u64, u64, u64))
    requires
        0 < w <= 16,
        1 + w + t <= 64,
    ensures
        r.0 == trailing_field(bits, t as nat),
        r.1 == exponent_field(bits, w as nat, t as nat),
        r.2 == sign_field(bits, w as nat, t as nat),
        r.3 == pow2(w as nat) - 1,
        r.4 == aligned_trailing(bits, t as nat),
        r.5 == significand_digits(t as nat),
        r.0 < pow2(t as nat),
{
    let wl = w as u64;
    let tl = t as u64;
    proof {
        lemma_one_shl(wl);
        lemma_one_shl(tl);
    }
    let max_e_bits: u64 = (1u64 << wl) - 1;
    let t_mask: u64 = (1u64 << tl) - 1;
    let t_bits = bits & t_mask;  // Trailing significand.
    let e_bits = (bits >> tl) & max_e_bits;  // Biased exponent.
    let sign_bit = (bits >> (wl + tl)) & 1;
    proof {
        lemma_low_mask(bits, t_mask, t as nat);
        lemma_shr(bits, tl);
        lemma_low_mask(bits >> tl, max_e_bits, w as nat);
        lemma_shr(bits, (wl + tl) as u64);
        lemma2_to64();
        lemma_low_mask(bits >> (wl + tl), 1, 1);
    }
    // How many hexadecimal digits are needed for the trailing significand?
    let digits: u64 = (tl + 3) / 4;
    // Trailing significand left-aligned in `digits` hexadecimal digits.
    let shift: u64 = 4 * digits - tl;
    proof {
        let ghost sh = shift as nat;
        lemma_pow2_adds(t as nat, sh);
        lemma_pow2_pos(sh);
        lemma_mul_strict_inequality(t_bits as int, pow2(t as nat) as int, pow2(sh) as int);
        if 4 * digits < 64 {
            lemma_pow2_strictly_increases((4 * digits) as nat, 64);
        }
        assert(t_bits * pow2(sh) < pow2((4 * digits) as nat));
        lemma_shl(t_bits, shift);
    }
    let left_t_bits = t_bits << shift;
    (t_bits, e_bits, sign_bit, max_e_bits, left_t_bits, digits)
}

/// Format a floating point number in a way that is reasonably human-readable, and that can be
/// converted back to binary without any rounding issues. The hexadecimal formatting of normal and
/// subnormal numbers is compatible with C99 and the `printf "%a"` format specifier. The NaN and Inf
/// formats are not supported by C99.
///
/// `w` is the exponent field width in bits, `t` the trailing significand field width in bits.
pub fn format_float(bits: u64, w: u8, t: u8) -> (s: String)
    requires
        0 < w <= 16,
        1 + w + t <= 64,
    ensures
        s@ == float_text(bits, w as nat, t as nat),
{
    let (t_bits, e_bits, sign_bit, max_e_bits, left_t_bits, digits) = float_fields(bits, w, t);
    let wl = w as u64;
    proof {
        lemma_one_shl((wl - 1) as u64);
        lemma2_to64();
        if w < 16 {
            lemma_pow2_strictly_increases(w as nat, 16);
        }
        lemma_pow2_strictly_increases((w - 1) as nat, w as nat);
        lemma_pow2_pos(w as nat);
        assert(e_bits < pow2(w as nat));
    }
    let bias: i32 = ((1u64 << (wl - 1)) - 1) as i32;
    let e: i32 = e_bits as i32 - bias;  // Unbiased exponent.
    let emin: i32 = 1 - bias;  // Minimum exponent.

    let mut out = String::new();
    // All formats share the leading sign.
    if sign_bit != 0 {
        proof {
            reveal_strlit("-");
        }
        out.append("-");
    }
    if e_bits == 0 {
        if t_bits == 0 {
            // Zero.
            proof {
                reveal_strlit("0.0");
            }
            out.append("0.0");
        } else {
            // Subnormal.
            proof {
                reveal_strlit("0x0.");
                reveal_strlit("p");
            }
            out.append("0x0.");
            push_hex_padded(&mut out, left_t_bits, digits as usize);
            out.append("p");
            push_dec_signed(&mut out, emin as i64);
        }
    } else if e_bits == max_e_bits {
        // Always print a `+` or `-` sign for these special values.
        // This makes them easier to parse as they can't be confused as identifiers.
        if sign_bit == 0 {
            proof {
                reveal_strlit("+");
            }
            out.append("+");
        }
        push_special(&mut out, t_bits, t);
    } else {
        // Normal number.
        proof {
            reveal_strlit("0x1.");
            reveal_strlit("p");
        }
        out.append("0x1.");
        push_hex_padded(&mut out, left_t_bits, digits as usize);
        out.append("p");
        push_dec_signed(&mut out, e as i64);
    }
    assert(out@ =~= float_text(bits, w as nat, t as nat));
    out
}

} // verus!
