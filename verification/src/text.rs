//! Character-level helpers: building strings, decimal and hexadecimal
//! renderings, Unicode white space and trimming.

use vstd::prelude::*;

verus! {

/// Appends one character to `s` with `String::push`; the contract claims
/// that the text afterwards is the old text followed by `c`.
#[verifier::external_body]
pub(crate) fn push_char(s: &mut String, c: char)
    ensures
        final(s)@ == old(s)@.push(c),
{
    s.push(c);
}

/// The characters of `s`, in order.
pub fn chars_of(s: &str) -> (v: Vec<char>)
    ensures
        v@ == s@,
{
    let mut v: Vec<char> = Vec::new();
    for c in it: s.chars()
        invariant
            v@ == it.seq().take(it.index() as int),
    {
        v.push(c);
    }
    v
}

/// A `String` holding exactly the characters of `v`.
pub fn string_of(v: &Vec<char>) -> (s: String)
    ensures
        s@ == v@,
{
    let mut s = String::new();
    let mut i: usize = 0;
    while i < v.len()
        invariant
            i <= v.len(),
            s@ == v@.take(i as int),
        decreases v.len() - i,
    {
        push_char(&mut s, v[i]);
        i = i + 1;
        assert(v@.take(i as int) =~= v@.take(i - 1).push(v@[i - 1]));
    }
    assert(v@.take(v.len() as int) =~= v@);
    s
}

} // verus!

verus! {

/// The decimal digit character for `d < 10`.
pub open spec fn digit_char(d: nat) -> char {
    (('0' as u32) + d) as char
}

/// The decimal numeral of `n`, without leading zeros.
pub open spec fn spec_decimal(n: nat) -> Seq<char>
    decreases n,
{
    if n < 10 {
        seq![digit_char(n)]
    } else {
        spec_decimal(n / 10).push(digit_char(n % 10))
    }
}

pub(crate) fn digit(d: u64) -> (c: char)
    requires
        d < 10,
    ensures
        c == digit_char(d as nat),
{
    ((d as u8) + 48) as char
}

/// The decimal numeral of `n`.
pub fn decimal_u64(n: u64) -> (v: Vec<char>)
    ensures
        v@ == spec_decimal(n as nat),
    decreases n,
{
    if n < 10 {
        let mut v = Vec::new();
        v.push(digit(n));
        v
    } else {
        let mut v = decimal_u64(n / 10);
        v.push(digit(n % 10));
        v
    }
}

} // verus!

verus! {

/// ECMA-262 `StrWhiteSpaceChar`: the `WhiteSpace` code points (tab,
/// vertical tab, form feed, the byte order mark `U+FEFF` and every `Zs`
/// space) and the `LineTerminator`s (line feed, carriage return, `U+2028`,
/// `U+2029`).  Unlike Unicode `White_Space` it leaves out `U+0085`.
pub open spec fn is_white_space(c: char) -> bool {
    let u = c as u32;
    (0x9 <= u <= 0xd) || u == 0x20 || u == 0xa0 || u == 0x1680 || (0x2000 <= u <= 0x200a) || u
        == 0x2028 || u == 0x2029 || u == 0x202f || u == 0x205f || u == 0x3000 || u == 0xfeff
}

pub fn white_space(c: char) -> (r: bool)
    ensures
        r == is_white_space(c),
{
    let u = c as u32;
    (0x9 <= u && u <= 0xd) || u == 0x20 || u == 0xa0 || u == 0x1680 || (0x2000 <= u && u <= 0x200a)
        || u == 0x2028 || u == 0x2029 || u == 0x202f || u == 0x205f || u == 0x3000 || u == 0xfeff
}

/// The number of bytes of `c` in UTF-8.
pub open spec fn utf8_width(c: char) -> int {
    let u = c as u32;
    if u < 0x80 {
        1
    } else if u < 0x800 {
        2
    } else if u < 0x10000 {
        3
    } else {
        4
    }
}

pub fn utf8_len(c: char) -> (r: usize)
    ensures
        r == utf8_width(c),
{
    let u = c as u32;
    if u < 0x80 {
        1
    } else if u < 0x800 {
        2
    } else if u < 0x10000 {
        3
    } else {
        4
    }
}

/// The first byte of `c` in UTF-8.
pub open spec fn first_utf8_byte(c: char) -> nat {
    let u = c as u32;
    if u < 0x80 {
        u as nat
    } else if u < 0x800 {
        0xc0 + (u as nat) / 0x40
    } else if u < 0x10000 {
        0xe0 + (u as nat) / 0x1000
    } else {
        0xf0 + (u as nat) / 0x40000
    }
}

pub fn first_byte(c: char) -> (r: u8)
    ensures
        r == first_utf8_byte(c),
{
    let u = c as u32;
    assert(u <= 0x10ffff) by {
        vstd::utf8::char_is_scalar(c);
    }
    if u < 0x80 {
        u as u8
    } else if u < 0x800 {
        (0xc0 + u / 0x40) as u8
    } else if u < 0x10000 {
        (0xe0 + u / 0x1000) as u8
    } else {
        (0xf0 + u / 0x40000) as u8
    }
}

/// `v` followed by `w`.
pub fn extend(v: &mut Vec<char>, w: Vec<char>)
    ensures
        final(v)@ == old(v)@ + w@,
{
    let mut w = w;
    v.append(&mut w);
}

/// The lower-case hexadecimal digit for `d < 16`.
pub open spec fn hex_digit_char(d: nat) -> char {
    if d < 10 {
        digit_char(d)
    } else {
        (('a' as u32) + (d - 10)) as char
    }
}

pub fn hex_digit(d: u32) -> (c: char)
    requires
        d < 16,
    ensures
        c == hex_digit_char(d as nat),
{
    if d < 10 {
        ((d as u8) + 48) as char
    } else {
        ((d as u8) + 87) as char
    }
}

/// The lower-case hexadecimal numeral of `n`, without leading zeros.
pub open spec fn spec_lower_hex(n: nat) -> Seq<char>
    decreases n,
{
    if n < 16 {
        seq![hex_digit_char(n)]
    } else {
        spec_lower_hex(n / 16).push(hex_digit_char(n % 16))
    }
}

pub fn lower_hex(n: u32) -> (v: Vec<char>)
    ensures
        v@ == spec_lower_hex(n as nat),
    decreases n,
{
    if n < 16 {
        let mut v = Vec::new();
        v.push(hex_digit(n));
        v
    } else {
        let mut v = lower_hex(n / 16);
        v.push(hex_digit(n % 16));
        v
    }
}

/// `Debug` of a string (`<str as Debug>::fmt`): the text between double
/// quotes, with escapes.  Named rather than written out: the escaping
/// rules follow the Unicode tables of the standard library.
pub uninterp spec fn debug_quoted(s: Seq<char>) -> Seq<char>;

/// Renders `s` with `Debug` (`format!("{s:?}")`); the contract claims only
/// that the result is [`debug_quoted`] of the characters of `s`, a function
/// of them alone.
#[verifier::external_body]
pub(crate) fn debug_str(s: &str) -> (r: String)
    ensures
        r@ == debug_quoted(s@),
{
    format!("{s:?}")
}

/// The `Debug` rendering of the characters `v`.
pub fn debug_chars(v: &Vec<char>) -> (r: Vec<char>)
    ensures
        r@ == debug_quoted(v@),
{
    let s = string_of(v);
    chars_of(&debug_str(s.as_str()))
}

} // verus!

verus! {

/// `char::from_u32`; the contract claims what its documentation states:
/// the character with scalar value `v`, none when `v` is a surrogate or
/// above `0x10FFFF`.
#[verifier::external_body]
pub(crate) fn char_from_u32(v: u32) -> (r: Option<char>)
    ensures
        r is Some <==> (v <= 0x10ffff && !(0xd800 <= v <= 0xdfff)),
        r matches Some(c) ==> c as u32 == v,
{
    char::from_u32(v)
}

} // verus!

verus! {

/// The index after the last character before `k` that is not white space
/// (`0` when there is none).
pub open spec fn trailing_ws_start(s: Seq<char>, k: int) -> int
    decreases k,
{
    if 0 < k <= s.len() && is_white_space(s[k - 1]) {
        trailing_ws_start(s, k - 1)
    } else {
        k
    }
}

/// The first index at or after `i` that is not white space.
pub open spec fn leading_ws_end(s: Seq<char>, i: int) -> int
    decreases s.len() - i,
{
    if 0 <= i < s.len() && is_white_space(s[i]) {
        leading_ws_end(s, i + 1)
    } else {
        i
    }
}

/// ECMA-262 `TrimString`: `s` without its leading and trailing white
/// space (see [`is_white_space`]).
pub open spec fn spec_trim(s: Seq<char>) -> Seq<char> {
    let a = leading_ws_end(s, 0);
    let b = trailing_ws_start(s, s.len() as int);
    if a < b {
        s.subrange(a, b)
    } else {
        seq![]
    }
}

/// `s` without its leading and trailing white space.
pub fn trim(s: &Vec<char>) -> (r: Vec<char>)
    ensures
        r@ == spec_trim(s@),
{
    let mut a: usize = 0;
    while a < s.len() && white_space(s[a])
        invariant
            a <= s.len(),
            leading_ws_end(s@, a as int) == leading_ws_end(s@, 0),
        decreases s.len() - a,
    {
        a = a + 1;
    }
    let mut b: usize = s.len();
    while b > 0 && white_space(s[b - 1])
        invariant
            b <= s.len(),
            trailing_ws_start(s@, b as int) == trailing_ws_start(s@, s@.len() as int),
        decreases b,
    {
        b = b - 1;
    }
    let mut r = Vec::new();
    if a < b {
        let mut p = a;
        while p < b
            invariant
                a <= p <= b <= s.len(),
                r@ == s@.subrange(a as int, p as int),
            decreases b - p,
        {
            r.push(s[p]);
            p = p + 1;
            assert(r@ =~= s@.subrange(a as int, p as int));
        }
    }
    r
}

} // verus!
