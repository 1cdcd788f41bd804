//! Character classification and conversions between `String`, `&str` and
//! `Vec<char>`, shared by the character stream, the tokenizer and the value
//! model.

use vstd::prelude::*;
use vstd::string::StrSliceExecFns;

verus! {

/// Whitespace skipped between tokens: space, tab, newline, carriage return.
pub open spec fn is_ws_char(c: char) -> bool {
    c == ' ' || c == '\t' || c == '\n' || c == '\r'
}

/// Decimal digit.
pub open spec fn is_digit_char(c: char) -> bool {
    '0' <= c && c <= '9'
}

/// ASCII letter; keywords (`null`, `true`, `false`) are runs of these.
pub open spec fn is_alpha_char(c: char) -> bool {
    ('a' <= c && c <= 'z') || ('A' <= c && c <= 'Z')
}

/// Numeric value of a decimal digit character.
pub open spec fn digit_val(c: char) -> int {
    c as int - '0' as int
}

/// Digit character for a value below ten.
pub open spec fn digit_char(d: int) -> char {
    if d == 0 {
        '0'
    } else if d == 1 {
        '1'
    } else if d == 2 {
        '2'
    } else if d == 3 {
        '3'
    } else if d == 4 {
        '4'
    } else if d == 5 {
        '5'
    } else if d == 6 {
        '6'
    } else if d == 7 {
        '7'
    } else if d == 8 {
        '8'
    } else {
        '9'
    }
}

pub proof fn lemma_digit_char_val(d: int)
    requires
        0 <= d < 10,
    ensures
        is_digit_char(digit_char(d)),
        digit_val(digit_char(d)) == d,
{
}

pub fn is_ws(c: char) -> (r: bool)
    ensures
        r == is_ws_char(c),
{
    c == ' ' || c == '\t' || c == '\n' || c == '\r'
}

pub fn is_digit(c: char) -> (r: bool)
    ensures
        r == is_digit_char(c),
{
    '0' <= c && c <= '9'
}

pub fn is_alpha(c: char) -> (r: bool)
    ensures
        r == is_alpha_char(c),
{
    ('a' <= c && c <= 'z') || ('A' <= c && c <= 'Z')
}

/// Numeric value of a digit character.
pub fn digit_of(c: char) -> (d: u64)
    requires
        is_digit_char(c),
    ensures
        d == digit_val(c),
        d < 10,
{
    (c as u32 - '0' as u32) as u64
}

/// Digit character of a value below ten.
pub fn char_of_digit(d: u64) -> (c: char)
    requires
        d < 10,
    ensures
        c == digit_char(d as int),
{
    if d == 0 {
        '0'
    } else if d == 1 {
        '1'
    } else if d == 2 {
        '2'
    } else if d == 3 {
        '3'
    } else if d == 4 {
        '4'
    } else if d == 5 {
        '5'
    } else if d == 6 {
        '6'
    } else if d == 7 {
        '7'
    } else if d == 8 {
        '8'
    } else {
        '9'
    }
}

/// Appends every character of `s` to `dst`, in order.
pub fn push_chars(dst: &mut Vec<char>, s: &str) -> (r: ())
    ensures
        final(dst)@ == old(dst)@ + s@,
{
    let n = s.unicode_len();
    let mut i: usize = 0;
    while i < n
        invariant
            n == s@.len(),
            i <= n,
            dst@ == old(dst)@ + s@.subrange(0, i as int),
        decreases n - i,
    {
        let c = s.get_char(i);
        dst.push(c);
        i = i + 1;
        proof {
            assert(dst@ =~= old(dst)@ + s@.subrange(0, i as int));
        }
    }
    proof {
        assert(dst@ =~= old(dst)@ + s@);
    }
}

/// The characters of `s` as a vector.
pub fn chars_of(s: &str) -> (r: Vec<char>)
    ensures
        r@ == s@,
{
    let mut v: Vec<char> = Vec::new();
    push_chars(&mut v, s);
    proof {
        assert(v@ =~= s@);
    }
    v
}

/// Relies on `FromIterator<char> for String`: collecting an iterator of
/// characters builds the string of exactly those characters, in order.
#[verifier::external_body]
pub fn string_of(v: &Vec<char>) -> (r: String)
    ensures
        r@ == v@,
{
    v.iter().collect()
}

} // verus!
