//! Textual renderings of numbers: hexadecimal and decimal digit strings.

use vstd::prelude::*;

verus! {

/// The lowercase hexadecimal digit of `d` (for `d < 16`).
pub open spec fn hex_char(d: int) -> char {
    if d < 10 {
        (d + 48) as char
    } else {
        (d + 87) as char
    }
}

/// The shortest lowercase hexadecimal rendering of `v`, as `{:x}` writes it.
pub open spec fn hex_min(v: nat) -> Seq<char>
    decreases v,
{
    if v < 16 {
        seq![hex_char(v as int)]
    } else {
        hex_min(v / 16).push(hex_char((v % 16) as int))
    }
}

/// The shortest decimal rendering of `v`, as `{}` writes it.
pub open spec fn dec_min(v: nat) -> Seq<char>
    decreases v,
{
    if v < 10 {
        seq![hex_char(v as int)]
    } else {
        dec_min(v / 10).push(hex_char((v % 10) as int))
    }
}

/// The decimal rendering of the signed number `v`, as `{}` writes it.
pub open spec fn dec_signed(v: int) -> Seq<char> {
    if v < 0 {
        seq!['-'] + dec_min((-v) as nat)
    } else {
        dec_min(v as nat)
    }
}

/// `n` zero characters.
pub open spec fn zeros(n: nat) -> Seq<char> {
    Seq::new(n, |_i: int| '0')
}

/// The hexadecimal rendering of `v` padded with zeros to at least `width`
/// characters, as `{:0width$x}` writes it.
pub open spec fn hex_padded(v: nat, width: nat) -> Seq<char> {
    let h = hex_min(v);
    if h.len() < width {
        zeros((width - h.len()) as nat) + h
    } else {
        h
    }
}

/// Appends the hexadecimal digit `d`.
pub fn push_hex_digit(out: &mut String, d: u64)
    requires
        d < 16,
    ensures
        final(out)@ == old(out)@.push(hex_char(d as int)),
{
    if d == 0 {
        proof {
            reveal_strlit("0");
        }
        out.append("0");
    } else if d == 1 {
        proof {
            reveal_strlit("1");
        }
        out.append("1");
    } else if d == 2 {
        proof {
            reveal_strlit("2");
        }
        out.append("2");
    } else if d == 3 {
        proof {
            reveal_strlit("3");
        }
        out.append("3");
    } else if d == 4 {
        proof {
            reveal_strlit("4");
        }
        out.append("4");
    } else if d == 5 {
        proof {
            reveal_strlit("5");
        }
        out.append("5");
    } else if d == 6 {
        proof {
            reveal_strlit("6");
        }
        out.append("6");
    } else if d == 7 {
        proof {
            reveal_strlit("7");
        }
        out.append("7");
    } else if d == 8 {
        proof {
            reveal_strlit("8");
        }
        out.append("8");
    } else if d == 9 {
        proof {
            reveal_strlit("9");
        }
        out.append("9");
    } else if d == 10 {
        proof {
            reveal_strlit("a");
        }
        out.append("a");
    } else if d == 11 {
        proof {
            reveal_strlit("b");
        }
        out.append("b");
    } else if d == 12 {
        proof {
            reveal_strlit("c");
        }
        out.append("c");
    } else if d == 13 {
        proof {
            reveal_strlit("d");
        }
        out.append("d");
    } else if d == 14 {
        proof {
            reveal_strlit("e");
        }
        out.append("e");
    } else {
        proof {
            reveal_strlit("f");
        }
        out.append("f");
    }
}

/// Appends the shortest hexadecimal rendering of `v`.
pub fn push_hex_min(out: &mut String, v: u64)
    ensures
        final(out)@ == old(out)@ + hex_min(v as nat),
    decreases v,
{
    let ghost start = out@;
    if v >= 16 {
        push_hex_min(out, v / 16);
    }
    push_hex_digit(out, v % 16);
    assert(out@ =~= start + hex_min(v as nat));
}

/// Appends the shortest decimal rendering of `v`.
pub fn push_dec_min(out: &mut String, v: u64)
    ensures
        final(out)@ == old(out)@ + dec_min(v as nat),
    decreases v,
{
    let ghost start = out@;
    if v >= 10 {
        push_dec_min(out, v / 10);
    }
    push_hex_digit(out, v % 10);
    assert(out@ =~= start + dec_min(v as nat));
}

/// Appends the decimal rendering of the signed number `v`.
pub fn push_dec_signed(out: &mut String, v: i64)
    ensures
        final(out)@ == old(out)@ + dec_signed(v as int),
{
    if v < 0 {
        let ghost start = out@;
        proof {
            reveal_strlit("-");
        }
        out.append("-");
        let m: u64 = (0i128 - v as i128) as u64;
        push_dec_min(out, m);
        assert(out@ =~= start + dec_signed(v as int));
    } else {
        push_dec_min(out, v as u64);
    }
}

/// The length of the shortest hexadecimal rendering of `v`.
pub fn hex_len(v: u64) -> (n: usize)
    ensures
        n == hex_min(v as nat).len(),
        1 <= n <= 16,
    decreases v,
{
    if v >= 16 {
        let k = hex_len(v / 16);
        proof {
            lemma_hex_min_len_bound(v as nat);
        }
        k + 1
    } else {
        1
    }
}

/// A hexadecimal rendering of a `u64` has at most 16 digits.
proof fn lemma_hex_min_len_bound(v: nat)
    requires
        v < 0x1_0000_0000_0000_0000,
    ensures
        1 <= hex_min(v).len() <= 16,
        v >= 16 ==> hex_min(v / 16).len() <= 15,
    decreases v,
{
    if v >= 16 {
        assert(pow16(15) == 0x1000_0000_0000_0000) by {
            reveal_with_fuel(pow16, 16);
        }
        lemma_hex_min_len_upper(v / 16, 15);
        lemma_hex_min_len_bound(v / 16);
    }
}

/// 16 to the power `k`.
pub open spec fn pow16(k: nat) -> nat
    decreases k,
{
    if k == 0 {
        1
    } else {
        16 * pow16((k - 1) as nat)
    }
}

/// A number below 16^k has at most k hexadecimal digits.
pub proof fn lemma_hex_min_len_upper(v: nat, k: nat)
    requires
        k >= 1,
        v < pow16(k),
    ensures
        hex_min(v).len() <= k,
    decreases v,
{
    if v >= 16 {
        if k == 1 {
            reveal_with_fuel(pow16, 2);
        } else {
            assert(v / 16 < pow16((k - 1) as nat));
            lemma_hex_min_len_upper(v / 16, (k - 1) as nat);
        }
    }
}

/// Appends `n` zero characters.
pub fn push_zeros(out: &mut String, n: usize)
    ensures
        final(out)@ == old(out)@ + zeros(n as nat),
{
    let ghost start = out@;
    let mut i: usize = 0;
    while i < n
        invariant
            i <= n,
            out@ =~= start + zeros(i as nat),
        decreases n - i,
    {
        proof {
            reveal_strlit("0");
        }
        out.append("0");
        i = i + 1;
        assert(out@ =~= start + zeros(i as nat));
    }
}

/// Appends the hexadecimal rendering of `v` padded with zeros to `width` characters.
pub fn push_hex_padded(out: &mut String, v: u64, width: usize)
    ensures
        final(out)@ == old(out)@ + hex_padded(v as nat, width as nat),
{
    let ghost start = out@;
    let n = hex_len(v);
    if n < width {
        push_zeros(out, width - n);
    }
    push_hex_min(out, v);
    assert(out@ =~= start + hex_padded(v as nat, width as nat));
}

} // verus!
