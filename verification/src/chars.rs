//! Character classes of the textual immediate syntax.

use vstd::prelude::*;

verus! {

/// `c` is an ASCII decimal digit.
pub open spec fn is_dec_digit(c: char) -> bool {
    '0' <= c && c <= '9'
}

/// `c` is an ASCII hexadecimal digit, in either case.
pub open spec fn is_hex_digit(c: char) -> bool {
    is_dec_digit(c) || ('a' <= c && c <= 'f') || ('A' <= c && c <= 'F')
}

/// The value of the hexadecimal digit `c`.
pub open spec fn hex_value(c: char) -> nat {
    if is_dec_digit(c) {
        (c as int - '0' as int) as nat
    } else if 'a' <= c && c <= 'f' {
        (c as int - 'a' as int + 10) as nat
    } else {
        (c as int - 'A' as int + 10) as nat
    }
}

/// The value of `c` read as a hexadecimal digit, or `None` when it is none.
pub fn hex_digit_value(c: char) -> (r: Option<u64>)
    ensures
        r is Some <==> is_hex_digit(c),
        r matches Some(d) ==> d == hex_value(c) && d < 16,
{
    if '0' <= c && c <= '9' {
        Some((c as u32 - '0' as u32) as u64)
    } else if 'a' <= c && c <= 'f' {
        Some((c as u32 - 'a' as u32 + 10) as u64)
    } else if 'A' <= c && c <= 'F' {
        Some((c as u32 - 'A' as u32 + 10) as u64)
    } else {
        None
    }
}

/// The characters of `s`, in order.
pub fn chars_of(s: &str) -> (v: Vec<char>)
    ensures
        v@ == s@,
{
    let mut v: Vec<char> = Vec::new();
    for c in it: s.chars()
        invariant
            v@ == it.seq().take(it.index() as int),
            it.seq() == s@,
    {
        v.push(c);
    }
    v
}

/// The characters of `cs` from `start` on are exactly `pat`.
pub fn rest_is(cs: &Vec<char>, start: usize, pat: &[char]) -> (r: bool)
    requires
        start <= cs.len(),
    ensures
        r == (cs@.skip(start as int) == pat@),
{
    if cs.len() - start != pat.len() {
        assert(cs@.skip(start as int).len() != pat@.len());
        return false;
    }
    assert(cs@.skip(start as int).take(pat@.len() as int) =~= cs@.skip(start as int));
    rest_starts_with(cs, start, pat)
}

/// The characters of `cs` from `start` on begin with `pat`.
pub fn rest_starts_with(cs: &Vec<char>, start: usize, pat: &[char]) -> (r: bool)
    requires
        start <= cs.len(),
    ensures
        r == (cs@.skip(start as int).len() >= pat@.len() && cs@.skip(start as int).take(
            pat@.len() as int,
        ) == pat@),
{
    let ghost rest = cs@.skip(start as int);
    if cs.len() - start < pat.len() {
        return false;
    }
    let mut i: usize = 0;
    while i < pat.len()
        invariant
            i <= pat.len(),
            start + pat.len() <= cs.len(),
            rest == cs@.skip(start as int),
            rest.take(i as int) =~= pat@.take(i as int),
        decreases pat.len() - i,
    {
        if cs[start + i] != pat[i] {
            assert(rest.take(pat@.len() as int)[i as int] != pat@[i as int]);
            return false;
        }
        i = i + 1;
        assert(rest.take(i as int) =~= pat@.take(i as int));
    }
    assert(pat@.take(pat@.len() as int) =~= pat@);
    true
}

} // verus!
