//! Facts about rendered digit strings: which characters they hold and the
//! values they read back as.

use vstd::prelude::*;
use crate::chars::{is_dec_digit, is_hex_digit, hex_value};
use crate::num_text::{all_dec, all_hex, digits_value};
use crate::render::{dec_min, hex_char, hex_min, hex_padded, zeros, pow16};

verus! {

/// A rendered digit is a digit of that value, and none of the punctuation of
/// the immediate syntax.
pub proof fn lemma_hex_char(d: int)
    requires
        0 <= d < 16,
    ensures
        is_hex_digit(hex_char(d)),
        hex_value(hex_char(d)) == d,
        d < 10 ==> is_dec_digit(hex_char(d)),
        hex_char(d) != '_',
        hex_char(d) != 'x',
        hex_char(d) != '.',
        hex_char(d) != 'p',
        hex_char(d) != '-',
        hex_char(d) != '+',
{
}

/// Appending a digit multiplies the value by the radix and adds the digit.
pub proof fn lemma_digits_value_push(s: Seq<char>, c: char, radix: nat)
    ensures
        digits_value(s.push(c), radix) == digits_value(s, radix) * radix + hex_value(c),
{
    assert(s.push(c).drop_last() =~= s);
}

/// The shortest decimal rendering of `m` is decimal digits worth `m`.
pub proof fn lemma_dec_min(m: nat)
    ensures
        all_dec(dec_min(m)),
        all_hex(dec_min(m)),
        digits_value(dec_min(m), 10) == m,
        dec_min(m).len() >= 1,
    decreases m,
{
    if m < 10 {
        lemma_hex_char(m as int);
        let one = seq![hex_char(m as int)];
        assert(one.drop_last() =~= Seq::<char>::empty());
        assert(digits_value(Seq::<char>::empty(), 16) == 0);
        assert(digits_value(Seq::<char>::empty(), 10) == 0);
        assert(one.last() == hex_char(m as int));
    } else {
        lemma_dec_min(m / 10);
        lemma_hex_char((m % 10) as int);
        lemma_digits_value_push(dec_min(m / 10), hex_char((m % 10) as int), 10);
    }
}

/// The shortest hexadecimal rendering of `m` is hexadecimal digits worth `m`.
pub proof fn lemma_hex_min(m: nat)
    ensures
        all_hex(hex_min(m)),
        digits_value(hex_min(m), 16) == m,
        hex_min(m).len() >= 1,
    decreases m,
{
    if m < 16 {
        lemma_hex_char(m as int);
        let one = seq![hex_char(m as int)];
        assert(one.drop_last() =~= Seq::<char>::empty());
        assert(digits_value(Seq::<char>::empty(), 16) == 0);
        assert(digits_value(Seq::<char>::empty(), 10) == 0);
        assert(one.last() == hex_char(m as int));
    } else {
        lemma_hex_min(m / 16);
        lemma_hex_char((m % 16) as int);
        lemma_digits_value_push(hex_min(m / 16), hex_char((m % 16) as int), 16);
    }
}

/// Leading zeros add nothing to the value of a digit string.
pub proof fn lemma_leading_zeros(k: nat, h: Seq<char>, radix: nat)
    ensures
        digits_value(zeros(k) + h, radix) == digits_value(h, radix),
    decreases h.len(),
{
    if h.len() == 0 {
        assert(zeros(k) + h =~= zeros(k));
        lemma_zeros_value(k, radix);
    } else {
        assert((zeros(k) + h).drop_last() =~= zeros(k) + h.drop_last());
        lemma_leading_zeros(k, h.drop_last(), radix);
    }
}

/// A string of zeros is worth zero.
pub proof fn lemma_zeros_value(k: nat, radix: nat)
    ensures
        digits_value(zeros(k), radix) == 0,
    decreases k,
{
    if k > 0 {
        assert(zeros(k).drop_last() =~= zeros((k - 1) as nat));
        lemma_zeros_value((k - 1) as nat, radix);
        assert(zeros(k).last() == '0');
        assert(hex_value('0') == 0);
        assert(0 * radix == 0);
    }
}

/// A zero-padded hexadecimal rendering is hexadecimal digits worth `v`, and
/// below `16^width` it is exactly `width` long.
pub proof fn lemma_hex_padded(v: nat, width: nat)
    ensures
        all_hex(hex_padded(v, width)),
        digits_value(hex_padded(v, width), 16) == v,
        hex_padded(v, width).len() >= width,
        width >= 1 && v < pow16(width) ==> hex_padded(v, width).len() == width,
{
    lemma_hex_min(v);
    let h = hex_min(v);
    if h.len() < width {
        let z = zeros((width - h.len()) as nat);
        lemma_leading_zeros((width - h.len()) as nat, h, 16);
        assert forall|i: int| 0 <= i < (z + h).len() implies #[trigger] is_hex_digit((z + h)[i]) by {
            if i >= z.len() {
                assert((z + h)[i] == h[i - z.len()]);
            }
        }
    } else if width >= 1 && v < pow16(width) {
        crate::render::lemma_hex_min_len_upper(v, width);
    }
}

} // verus!
