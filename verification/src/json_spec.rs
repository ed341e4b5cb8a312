//! What `JSON.parse` computes, stated over the characters of its source:
//! the grammar the parser accepts, the value it builds, and the message of
//! each syntax error.

use vstd::prelude::*;

use crate::text::{first_utf8_byte, utf8_width, spec_decimal, debug_quoted, spec_lower_hex};
use crate::numeral::digit_value;

verus! {

/// A parsed JSON value.  Object members are listed in source order; the
/// object the engine stores inserts them in that order.
pub enum Json {
    Null,
    Bool(bool),
    /// The numeral as written (it satisfies [`json_numeral`]).
    Number(Seq<char>),
    Str(Seq<char>),
    Array(Seq<Json>),
    Object(Seq<(Seq<char>, Json)>),
}

pub open spec fn is_ascii_digit(c: char) -> bool {
    '0' <= c && c <= '9'
}

/// The characters a JSON numeral is scanned over.
pub open spec fn is_number_char(c: char) -> bool {
    is_ascii_digit(c) || c == '-' || c == '+' || c == '.' || c == 'e' || c == 'E'
}

/// JSON's white space (RFC 8259): space, tab, line feed, carriage return.
pub open spec fn is_json_ws(c: char) -> bool {
    c == ' ' || c == '\t' || c == '\n' || c == '\r'
}

/// The first index at or after `i` that is not white space.
pub open spec fn ws_end(s: Seq<char>, i: int) -> int
    decreases s.len() - i,
{
    if 0 <= i < s.len() && is_json_ws(s[i]) {
        ws_end(s, i + 1)
    } else {
        i
    }
}

pub proof fn lemma_ws_end(s: Seq<char>, i: int)
    ensures
        ws_end(s, i) >= i,
        0 <= i <= s.len() ==> ws_end(s, i) <= s.len(),
        0 <= ws_end(s, i) < s.len() ==> !is_json_ws(s[ws_end(s, i)]),
        forall|k: int| i <= k < ws_end(s, i) ==> is_json_ws(#[trigger] s[k]),
    decreases s.len() - i,
{
    if 0 <= i < s.len() && is_json_ws(s[i]) {
        lemma_ws_end(s, i + 1);
    }
}

/// The first index at or after `i` holding no digit.
pub open spec fn digits_end(t: Seq<char>, i: int) -> int
    decreases t.len() - i,
{
    if 0 <= i < t.len() && is_ascii_digit(t[i]) {
        digits_end(t, i + 1)
    } else {
        i
    }
}

/// The first index at or after `i` holding no numeral character.
pub open spec fn number_end(s: Seq<char>, i: int) -> int
    decreases s.len() - i,
{
    if 0 <= i < s.len() && is_number_char(s[i]) {
        number_end(s, i + 1)
    } else {
        i
    }
}

pub open spec fn is_sign(c: char) -> bool {
    c == '+' || c == '-'
}

/// The numerals of JSON (RFC 8259): an optional `-`, an integer part
/// without leading zeros, an optional fraction with at least one digit,
/// and an optional exponent with at least one digit.
pub open spec fn json_numeral(t: Seq<char>) -> bool {
    let a = if t.len() > 0 && t[0] == '-' {
        1int
    } else {
        0int
    };
    let b = digits_end(t, a);
    let c = if b < t.len() && t[b] == '.' {
        digits_end(t, b + 1)
    } else {
        b
    };
    &&& b > a
    &&& (t[a] != '0' || b == a + 1)
    &&& (b < t.len() && t[b] == '.' ==> c > b + 1)
    &&& (c == t.len() || (c < t.len() && (t[c] == 'e' || t[c] == 'E') && {
        let f = if c + 1 < t.len() && is_sign(t[c + 1]) {
            c + 2
        } else {
            c + 1
        };
        digits_end(t, f) > f && digits_end(t, f) == t.len()
    }))
}

/// `s[i..]` begins with `w`.
pub open spec fn starts_with_at(s: Seq<char>, i: int, w: Seq<char>) -> bool {
    0 <= i && i + w.len() <= s.len() && s.subrange(i, i + w.len()) == w
}

/// The index `k` such that `s[i..k]` takes exactly `n` bytes in UTF-8, if
/// there is one (what `get(..n)` on the string slice `s[i..]` succeeds on).
pub open spec fn utf8_prefix_end(s: Seq<char>, i: int, n: int) -> Option<int>
    decreases n,
{
    if n <= 0 {
        Some(i)
    } else if !(0 <= i < s.len()) {
        None
    } else if utf8_width(s[i]) > n {
        None
    } else {
        utf8_prefix_end(s, i + 1, n - utf8_width(s[i]))
    }
}

/// Unicode scalar values: what `char::from_u32` accepts.
pub open spec fn is_scalar_value(v: nat) -> bool {
    v <= 0x10ffff && !(0xd800 <= v <= 0xdfff)
}

/// An ASCII hexadecimal digit.
pub open spec fn is_hex_char(c: char) -> bool {
    ('0' <= c && c <= '9') || ('a' <= c && c <= 'f') || ('A' <= c && c <= 'F')
}

/// Four hexadecimal digits at `i`, and their value.
pub open spec fn hex4_at(s: Seq<char>, i: int) -> Option<nat> {
    if 0 <= i && i + 4 <= s.len() && is_hex_char(s[i]) && is_hex_char(s[i + 1]) && is_hex_char(s[i + 2])
        && is_hex_char(s[i + 3]) {
        Some(digit_value(s[i]) * 0x1000 + digit_value(s[i + 1]) * 0x100 + digit_value(s[i + 2]) * 0x10
            + digit_value(s[i + 3]))
    } else {
        None
    }
}

pub open spec fn is_high_surrogate(v: nat) -> bool {
    0xd800 <= v < 0xdc00
}

pub open spec fn is_low_surrogate(v: nat) -> bool {
    0xdc00 <= v < 0xe000
}

/// The code point a surrogate pair encodes.
pub open spec fn pair_code_point(high: nat, low: nat) -> nat {
    (0x10000 + (high - 0xd800) * 0x400 + (low - 0xdc00)) as nat
}

/// `\u` followed by the four bytes at `i`: exactly four hexadecimal
/// digits naming a code point; a high surrogate must be followed by
/// `\u` and a low one, the pair naming one character.
pub open spec fn spec_decode_unicode_escape(s: Seq<char>, i: int) -> Result<(Seq<char>, int), Seq<char>> {
    match utf8_prefix_end(s, i, 4) {
        None => Err("unicode escape needs four hex digits"@),
        Some(k) => match hex4_at(s, i) {
            None => Err("invalid hex in \\u"@ + s.subrange(i, k)),
            Some(cp) => if is_high_surrogate(cp) {
                match hex4_at(s, k + 2) {
                    Some(low) => if starts_with_at(s, k, seq!['\\', 'u']) && is_low_surrogate(low) {
                        Ok((seq![pair_code_point(cp, low) as char], k + 6))
                    } else {
                        Err("invalid unicode code point 0x"@ + spec_lower_hex(cp))
                    },
                    None => Err("invalid unicode code point 0x"@ + spec_lower_hex(cp)),
                }
            } else if is_low_surrogate(cp) {
                Err("invalid unicode code point 0x"@ + spec_lower_hex(cp))
            } else {
                Ok((seq![cp as char], k))
            },
        },
    }
}

/// The character whose code is the byte `b` (`b as char`).
pub open spec fn byte_char(b: nat) -> char {
    b as char
}

/// The escape whose letter is `c`, the rest of the source starting at `i`.
pub open spec fn spec_dispatch_escape(c: char, s: Seq<char>, i: int) -> Result<(Seq<char>, int), Seq<char>> {
    if c == '"' {
        Ok((seq!['"'], i))
    } else if c == '\\' {
        Ok((seq!['\\'], i))
    } else if c == '/' {
        Ok((seq!['/'], i))
    } else if c == 'b' {
        Ok((seq!['\u{8}'], i))
    } else if c == 'f' {
        Ok((seq!['\u{c}'], i))
    } else if c == 'n' {
        Ok((seq!['\n'], i))
    } else if c == 'r' {
        Ok((seq!['\r'], i))
    } else if c == 't' {
        Ok((seq!['\t'], i))
    } else if c == 'u' {
        spec_decode_unicode_escape(s, i)
    } else {
        Err("unknown escape \\"@.push(byte_char(first_utf8_byte(c))))
    }
}

/// The escape after a backslash, which stands just before `i`.
pub open spec fn spec_decode_escape(s: Seq<char>, i: int) -> Result<(Seq<char>, int), Seq<char>> {
    if !(0 <= i < s.len()) {
        Err("lone backslash at end of input"@)
    } else {
        spec_dispatch_escape(s[i], s, i + 1)
    }
}

pub proof fn lemma_decode_escape_advances(s: Seq<char>, i: int)
    ensures
        spec_decode_escape(s, i) matches Ok((_, k)) ==> i < k <= s.len(),
{
    if 0 <= i < s.len() && s[i] == 'u' {
        lemma_utf8_prefix_end(s, i + 1, 4);
    }
}

pub proof fn lemma_utf8_prefix_end(s: Seq<char>, i: int, n: int)
    ensures
        utf8_prefix_end(s, i, n) matches Some(k) ==> (i <= k && (0 <= i ==> k <= s.len() || n <= 0)),
        n > 0 ==> (utf8_prefix_end(s, i, n) matches Some(k) ==> i < k <= s.len()),
    decreases n,
{
    if n > 0 && 0 <= i < s.len() && utf8_width(s[i]) <= n {
        lemma_utf8_prefix_end(s, i + 1, n - utf8_width(s[i]));
    }
}

/// The body of a string literal from `i`, `acc` holding what was decoded
/// so far; on success, the decoded text and the index after the closing
/// quote.
pub open spec fn spec_decode_string(s: Seq<char>, i: int, acc: Seq<char>) -> Result<(Seq<char>, int), Seq<char>>
    decreases s.len() - i,
{
    if !(0 <= i < s.len()) {
        Err("unterminated string literal"@)
    } else if s[i] == '"' {
        Ok((acc, i + 1))
    } else if (s[i] as u32) < 0x20 {
        Err("control character in string literal"@)
    } else if s[i] == '\\' {
        match spec_decode_escape(s, i + 1) {
            Ok((piece, k)) => {
                proof {
                    lemma_decode_escape_advances(s, i + 1);
                }
                spec_decode_string(s, k, acc + piece)
            },
            Err(e) => Err(e),
        }
    } else {
        spec_decode_string(s, i + 1, acc.push(s[i]))
    }
}

pub proof fn lemma_decode_string_advances(s: Seq<char>, i: int, acc: Seq<char>)
    ensures
        spec_decode_string(s, i, acc) matches Ok((_, k)) ==> i < k <= s.len(),
    decreases s.len() - i,
{
    if 0 <= i < s.len() && s[i] != '"' && (s[i] as u32) >= 0x20 {
        if s[i] == '\\' {
            lemma_decode_escape_advances(s, i + 1);
            if let Ok((piece, k)) = spec_decode_escape(s, i + 1) {
                lemma_decode_string_advances(s, k, acc + piece);
            }
        } else {
            lemma_decode_string_advances(s, i + 1, acc.push(s[i]));
        }
    }
}

pub open spec fn spec_parse_null(s: Seq<char>, i: int) -> Result<(Json, int), Seq<char>> {
    if starts_with_at(s, i, seq!['n', 'u', 'l', 'l']) {
        Ok((Json::Null, i + 4))
    } else {
        Err("expected 'null'"@)
    }
}

pub open spec fn spec_parse_bool(s: Seq<char>, i: int) -> Result<(Json, int), Seq<char>> {
    if starts_with_at(s, i, seq!['t', 'r', 'u', 'e']) {
        Ok((Json::Bool(true), i + 4))
    } else if starts_with_at(s, i, seq!['f', 'a', 'l', 's', 'e']) {
        Ok((Json::Bool(false), i + 5))
    } else {
        Err("expected 'true' or 'false'"@)
    }
}

pub open spec fn spec_parse_number(s: Seq<char>, i: int) -> Result<(Json, int), Seq<char>> {
    let t = s.subrange(i, number_end(s, i));
    if json_numeral(t) {
        Ok((Json::Number(t), number_end(s, i)))
    } else {
        Err("invalid number "@ + debug_quoted(t))
    }
}

/// A value starting at or after `i`.
pub open spec fn spec_parse_value(s: Seq<char>, i: int) -> Result<(Json, int), Seq<char>>
    decreases s.len() - i, 0int,
{
    let j = ws_end(s, i);
    proof {
        lemma_ws_end(s, i);
    }
    if !(0 <= j < s.len()) {
        Err("unexpected end of input"@)
    } else {
        let c = s[j];
        if c == '{' {
            spec_collect_object_members(s, j + 1, seq![], false)
        } else if c == '[' {
            spec_collect_array_elements(s, j + 1, seq![], false)
        } else if c == '"' {
            match spec_decode_string(s, j + 1, seq![]) {
                Ok((t, k)) => Ok((Json::Str(t), k)),
                Err(e) => Err(e),
            }
        } else if c == 't' || c == 'f' {
            spec_parse_bool(s, j)
        } else if c == 'n' {
            spec_parse_null(s, j)
        } else if c == '-' || is_ascii_digit(c) {
            spec_parse_number(s, j)
        } else {
            Err("unexpected byte "@ + spec_decimal(first_utf8_byte(c)) + " at start of value"@)
        }
    }
}

/// Array elements from `i` (after the `[`), `acc` holding those parsed so
/// far; `after` tells whether an element was just read, so that a `,` or
/// the closing `]` must come next.  Elements are separated by single
/// commas, with none before the `]`.
pub open spec fn spec_collect_array_elements(s: Seq<char>, i: int, acc: Seq<Json>, after: bool) -> Result<(Json, int), Seq<char>>
    decreases s.len() - i, 1int,
{
    let j = ws_end(s, i);
    proof {
        lemma_ws_end(s, i);
    }
    if !(0 <= j < s.len()) {
        Err("unterminated array literal"@)
    } else if s[j] == ']' && (after || acc.len() == 0) {
        Ok((Json::Array(acc), j + 1))
    } else if after {
        if s[j] == ',' {
            spec_collect_array_elements(s, j + 1, acc, false)
        } else {
            Err("expected ',' or ']' after array element"@)
        }
    } else {
        match spec_parse_value(s, j) {
            Ok((v, m)) => if i < m <= s.len() {
                spec_collect_array_elements(s, m, acc.push(v), true)
            } else {
                Err("unterminated array literal"@)
            },
            Err(e) => Err(e),
        }
    }
}

/// Object members from `i` (after the `{`), `acc` holding those parsed so
/// far; `after` tells whether a member was just read, so that a `,` or the
/// closing `}` must come next.  Members are separated by single commas,
/// with none before the `}`.
pub open spec fn spec_collect_object_members(s: Seq<char>, i: int, acc: Seq<(Seq<char>, Json)>, after: bool) -> Result<(Json, int), Seq<char>>
    decreases s.len() - i, 1int,
{
    let j = ws_end(s, i);
    proof {
        lemma_ws_end(s, i);
    }
    if !(0 <= j < s.len()) {
        Err("unterminated object literal"@)
    } else if s[j] == '}' && (after || acc.len() == 0) {
        Ok((Json::Object(acc), j + 1))
    } else if after {
        if s[j] == ',' {
            spec_collect_object_members(s, j + 1, acc, false)
        } else {
            Err("expected ',' or '}' after object member"@)
        }
    } else if s[j] == '"' {
        match spec_decode_string(s, j + 1, seq![]) {
            Ok((key, k)) => {
                let t = ws_end(s, k);
                proof {
                    lemma_decode_string_advances(s, j + 1, seq![]);
                    lemma_ws_end(s, k);
                }
                if 0 <= t < s.len() && s[t] == ':' {
                    match spec_parse_value(s, t + 1) {
                        Ok((v, m)) => if i < m <= s.len() {
                            spec_collect_object_members(s, m, acc.push((key, v)), true)
                        } else {
                            Err("unterminated object literal"@)
                        },
                        Err(e) => Err(e),
                    }
                } else {
                    Err("expected ':' after object key"@)
                }
            },
            Err(e) => Err(e),
        }
    } else {
        Err("expected string key, got "@ + spec_decimal(first_utf8_byte(s[j])))
    }
}

/// `JSON.parse` of the whole source: one value, then only white space.
pub open spec fn spec_parse_json(s: Seq<char>) -> Result<Json, Seq<char>> {
    match spec_parse_value(s, 0) {
        Ok((v, k)) => {
            let t = ws_end(s, k);
            if t >= s.len() {
                Ok(v)
            } else {
                Err("unexpected trailing content: "@ + debug_quoted(s.subrange(t, s.len() as int)))
            }
        },
        Err(e) => Err(e),
    }
}

} // verus!

verus! {

use crate::value::{SlotV, StepV, Val, array_props};

pub open spec fn member_props(ms: Seq<(Seq<char>, Json)>, sl: Seq<SlotV>) -> Seq<(Seq<char>, SlotV)> {
    Seq::new(ms.len(), |i: int| (ms[i].0, sl[i]))
}

/// The allocations that store `j` (nested objects first, each object after
/// its members, step indices counted from `base`) and the slot holding it.
pub open spec fn flatten(j: Json, base: nat) -> (Seq<StepV>, SlotV)
    decreases j,
{
    match j {
        Json::Null => (seq![], SlotV::Value(Val::Null)),
        Json::Bool(b) => (seq![], SlotV::Value(Val::Boolean(b))),
        Json::Number(t) => (seq![], SlotV::NumberText(t)),
        Json::Str(t) => (seq![], SlotV::Value(Val::String(t))),
        Json::Array(es) => {
            let inner = flatten_elements(es, base);
            (inner.0.push(StepV::NewObject(array_props(inner.1))), SlotV::Fresh(base + inner.0.len()))
        },
        Json::Object(ms) => {
            let inner = flatten_members(ms, base);
            (inner.0.push(StepV::NewObject(member_props(ms, inner.1))), SlotV::Fresh(base + inner.0.len()))
        },
    }
}

pub open spec fn flatten_elements(es: Seq<Json>, base: nat) -> (Seq<StepV>, Seq<SlotV>)
    decreases es,
{
    if es.len() == 0 {
        (seq![], seq![])
    } else {
        let rest = flatten_elements(es.subrange(0, es.len() - 1), base);
        let last = flatten(es[es.len() - 1], base + rest.0.len());
        (rest.0 + last.0, rest.1.push(last.1))
    }
}

pub open spec fn flatten_members(ms: Seq<(Seq<char>, Json)>, base: nat) -> (Seq<StepV>, Seq<SlotV>)
    decreases ms,
{
    if ms.len() == 0 {
        (seq![], seq![])
    } else {
        let rest = flatten_members(ms.subrange(0, ms.len() - 1), base);
        let last = flatten(ms[ms.len() - 1].1, base + rest.0.len());
        (rest.0 + last.0, rest.1.push(last.1))
    }
}

} // verus!
