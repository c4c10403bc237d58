//! Plain unsigned hexadecimal and signed decimal numbers, as `u64::from_str_radix`
//! with radix 16 and `i16::from_str` read them: an optional sign, then one or
//! more digits, within the range of the type.

use vstd::prelude::*;
use crate::chars::{is_dec_digit, is_hex_digit, hex_value, hex_digit_value};

verus! {

/// Every character of `s` is a hexadecimal digit.
pub open spec fn all_hex(s: Seq<char>) -> bool {
    forall|i: int| 0 <= i < s.len() ==> #[trigger] is_hex_digit(s[i])
}

/// Every character of `s` is a decimal digit.
pub open spec fn all_dec(s: Seq<char>) -> bool {
    forall|i: int| 0 <= i < s.len() ==> #[trigger] is_dec_digit(s[i])
}

/// The value of the digits `s` in base `radix`.
pub open spec fn digits_value(s: Seq<char>, radix: nat) -> nat
    decreases s.len(),
{
    if s.len() == 0 {
        0
    } else {
        digits_value(s.drop_last(), radix) * radix + hex_value(s.last())
    }
}

/// `s` without a leading `+`.
pub open spec fn drop_plus(s: Seq<char>) -> Seq<char> {
    if s.len() > 0 && s[0] == '+' {
        s.drop_first()
    } else {
        s
    }
}

/// The `u64` that `s` denotes in hexadecimal: an optional `+`, then one or more
/// hexadecimal digits (either case) whose value is below 2^64.
pub open spec fn parse_hex_u64_spec(s: Seq<char>) -> Option<u64> {
    let ds = drop_plus(s);
    if ds.len() > 0 && all_hex(ds) && digits_value(ds, 16) <= u64::MAX {
        Some(digits_value(ds, 16) as u64)
    } else {
        None
    }
}

/// The `i16` that `s` denotes in decimal: an optional `+` or `-`, then one or
/// more decimal digits whose signed value lies in -32768 ..= 32767.
pub open spec fn parse_i16_spec(s: Seq<char>) -> Option<i16> {
    let negative = s.len() > 0 && s[0] == '-';
    let ds = if s.len() > 0 && (s[0] == '-' || s[0] == '+') {
        s.drop_first()
    } else {
        s
    };
    if ds.len() > 0 && all_dec(ds) {
        let v = digits_value(ds, 10);
        if negative {
            if v <= 32768 {
                Some((0 - v) as i16)
            } else {
                None
            }
        } else if v <= 32767 {
            Some(v as i16)
        } else {
            None
        }
    } else {
        None
    }
}

/// Reads the hexadecimal `u64` that the characters of `cs` from `start` on
/// denote, as `u64::from_str_radix(.., 16)` does.
pub fn parse_hex_u64(cs: &Vec<char>, start: usize) -> (r: Option<u64>)
    requires
        start <= cs.len(),
    ensures
        r == parse_hex_u64_spec(cs@.skip(start as int)),
{
    let ghost s = cs@.skip(start as int);
    let begin: usize = if start < cs.len() && cs[start] == '+' {
        start + 1
    } else {
        start
    };
    let ghost ds = drop_plus(s);
    assert(ds =~= cs@.skip(begin as int));
    if begin >= cs.len() {
        return None;
    }
    let mut i = begin;
    let mut value: u64 = 0;
    let mut overflow = false;
    while i < cs.len()
        invariant
            begin <= i <= cs.len(),
            ds =~= cs@.skip(begin as int),
            ds == drop_plus(cs@.skip(start as int)),
            all_hex(ds.take(i - begin)),
            !overflow ==> value as nat == digits_value(ds.take(i - begin), 16),
            overflow ==> digits_value(ds.take(i - begin), 16) > u64::MAX,
        decreases cs.len() - i,
    {
        let ghost prev = ds.take(i - begin);
        let ghost next = ds.take(i + 1 - begin);
        assert(next.drop_last() =~= prev);
        assert(next.last() == cs@[i as int]);
        match hex_digit_value(cs[i]) {
            None => {
                assert(!is_hex_digit(ds[i - begin]));
                assert(!all_hex(ds));
                return None;
            },
            Some(d) => {
                if !overflow {
                    if value > (u64::MAX - d) / 16 {
                        overflow = true;
                    } else {
                        value = value * 16 + d;
                    }
                }
            },
        }
        i = i + 1;
        assert(all_hex(ds.take(i - begin)));
    }
    assert(ds.take(cs.len() - begin) =~= ds);
    if overflow {
        None
    } else {
        Some(value)
    }
}

/// Reads the `i16` that the characters of `cs` from `start` on denote, as
/// `i16::from_str` does.
pub fn parse_i16(cs: &Vec<char>, start: usize) -> (r: Option<i16>)
    requires
        start <= cs.len(),
    ensures
        r == parse_i16_spec(cs@.skip(start as int)),
{
    let ghost s = cs@.skip(start as int);
    let negative = start < cs.len() && cs[start] == '-';
    let begin: usize = if start < cs.len() && (cs[start] == '-' || cs[start] == '+') {
        start + 1
    } else {
        start
    };
    let ghost ds = if s.len() > 0 && (s[0] == '-' || s[0] == '+') {
        s.drop_first()
    } else {
        s
    };
    assert(ds =~= cs@.skip(begin as int));
    if begin >= cs.len() {
        return None;
    }
    let mut i = begin;
    let mut value: u32 = 0;
    let mut overflow = false;
    while i < cs.len()
        invariant
            begin <= i <= cs.len(),
            ds =~= cs@.skip(begin as int),
            s == cs@.skip(start as int),
            ds == (if s.len() > 0 && (s[0] == '-' || s[0] == '+') {
                s.drop_first()
            } else {
                s
            }),
            negative == (s.len() > 0 && s[0] == '-'),
            all_dec(ds.take(i - begin)),
            !overflow ==> value as nat == digits_value(ds.take(i - begin), 10) && value <= 32768,
            overflow ==> digits_value(ds.take(i - begin), 10) > 32768,
        decreases cs.len() - i,
    {
        let ghost prev = ds.take(i - begin);
        let ghost next = ds.take(i + 1 - begin);
        assert(next.drop_last() =~= prev);
        assert(next.last() == cs@[i as int]);
        let c = cs[i];
        if !('0' <= c && c <= '9') {
            assert(!is_dec_digit(ds[i - begin]));
            assert(!all_dec(ds));
            return None;
        }
        let d = (c as u32) - ('0' as u32);
        if !overflow {
            if value * 10 + d > 32768 {
                overflow = true;
            } else {
                value = value * 10 + d;
            }
        }
        i = i + 1;
        assert(all_dec(ds.take(i - begin)));
    }
    assert(ds.take(cs.len() - begin) =~= ds);
    if overflow {
        None
    } else if negative {
        Some((0 - value as i32) as i16)
    } else if value <= 32767 {
        Some(value as i16)
    } else {
        None
    }
}

} // verus!
