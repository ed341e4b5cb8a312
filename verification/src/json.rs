//! `JSON.parse` and `JSON.stringify`.
//!
//! The parser reads the source's characters and answers with the
//! allocations that build the parsed value in the engine's heap (objects
//! and arrays after the values inside them), or with the `SyntaxError` it
//! throws for any source that is not a JSON text (RFC 8259) between white
//! space.

use vstd::prelude::*;

use crate::numeral::digit_value;
use crate::json_spec::{is_json_ws, is_hex_char, hex4_at, pair_code_point, is_number_char, is_ascii_digit, ws_end, utf8_prefix_end, spec_decode_unicode_escape, spec_dispatch_escape, spec_decode_escape, spec_decode_string, lemma_decode_escape_advances};
use crate::text::{chars_of, string_of, utf8_len, first_byte, decimal_u64, extend, lower_hex, debug_chars, spec_decimal};


verus! {

/// A byte that may occur in a JSON numeral: a digit, a sign, `.`, `e`, `E`.
pub fn is_number_byte(b: u8) -> (r: bool)
    ensures
        r == is_number_char(b as char),
{
    (48 <= b && b <= 57) || b == 45 || b == 43 || b == 46 || b == 101 || b == 69
}

fn is_number_character(c: char) -> (r: bool)
    ensures
        r == is_number_char(c),
{
    (c as u32) < 128 && is_number_byte(c as u8)
}

fn is_digit(c: char) -> (r: bool)
    ensures
        r == is_ascii_digit(c),
{
    '0' <= c && c <= '9'
}

fn skip_ws(s: &Vec<char>, i: usize) -> (j: usize)
    requires
        i <= s.len(),
    ensures
        j == ws_end(s@, i as int),
        i <= j <= s.len(),
{
    let mut j = i;
    while j < s.len() && (s[j] == ' ' || s[j] == '\t' || s[j] == '\n' || s[j] == '\r')
        invariant
            i <= j <= s.len(),
            ws_end(s@, j as int) == ws_end(s@, i as int),
        decreases s.len() - j,
    {
        j = j + 1;
    }
    j
}

/// `s[i..k]` as a vector.
fn slice_chars(s: &Vec<char>, i: usize, k: usize) -> (v: Vec<char>)
    requires
        i <= k <= s.len(),
    ensures
        v@ == s@.subrange(i as int, k as int),
{
    let mut v = Vec::new();
    let mut p = i;
    while p < k
        invariant
            i <= p <= k <= s.len(),
            v@ == s@.subrange(i as int, p as int),
        decreases k - p,
    {
        v.push(s[p]);
        p = p + 1;
        assert(v@ =~= s@.subrange(i as int, p as int));
    }
    v
}

/// The index after the characters at `i` that take exactly `n` bytes in
/// UTF-8 (see [`utf8_prefix_end`]).
fn utf8_prefix(s: &Vec<char>, i: usize, n: usize) -> (r: Option<usize>)
    requires
        i <= s.len(),
    ensures
        match r {
            Some(k) => utf8_prefix_end(s@, i as int, n as int) == Some(k as int) && i <= k <= s.len(),
            None => utf8_prefix_end(s@, i as int, n as int) is None,
        },
{
    let mut k = i;
    let mut left = n;
    while left > 0 && k < s.len() && utf8_len(s[k]) <= left
        invariant
            i <= k <= s.len(),
            utf8_prefix_end(s@, k as int, left as int) == utf8_prefix_end(s@, i as int, n as int),
        decreases left,
    {
        left = left - utf8_len(s[k]);
        k = k + 1;
    }
    if left > 0 {
        None
    } else {
        Some(k)
    }
}

fn hex_value(c: char) -> (r: Option<u32>)
    ensures
        match r {
            Some(v) => is_hex_char(c) && v == digit_value(c) && v < 16,
            None => !is_hex_char(c),
        },
{
    if '0' <= c && c <= '9' {
        Some((c as u32) - 48)
    } else if 'a' <= c && c <= 'f' {
        Some((c as u32) - 87)
    } else if 'A' <= c && c <= 'F' {
        Some((c as u32) - 55)
    } else {
        None
    }
}

/// Four hexadecimal digits at `i` and their value (see [`hex4_at`]).
fn hex4_value(s: &Vec<char>, i: usize) -> (r: Option<u32>)
    requires
        i <= s.len(),
    ensures
        match r {
            Some(v) => hex4_at(s@, i as int) == Some(v as nat),
            None => hex4_at(s@, i as int) is None,
        },
{
    if s.len() - i < 4 {
        return None;
    }
    match (hex_value(s[i]), hex_value(s[i + 1]), hex_value(s[i + 2]), hex_value(s[i + 3])) {
        (Some(a), Some(b), Some(c), Some(d)) => Some(a * 0x1000 + b * 0x100 + c * 0x10 + d),
        _ => None,
    }
}

/// `\u` followed by four bytes at `i`: the character four hexadecimal
/// digits name, a surrogate pair read as one character (see
/// [`spec_decode_unicode_escape`]).
pub fn decode_unicode_escape(s: &Vec<char>, i: usize) -> (r: Result<(Vec<char>, usize), Vec<char>>)
    requires
        i <= s.len(),
    ensures
        match r {
            Ok((t, k)) => spec_decode_unicode_escape(s@, i as int) == Ok::<(Seq<char>, int), Seq<char>>((t@, k as int)),
            Err(e) => spec_decode_unicode_escape(s@, i as int) == Err::<(Seq<char>, int), Seq<char>>(e@),
        },
{
    let k = match utf8_prefix(s, i, 4) {
        Some(k) => k,
        None => {
            return Err(chars_of("unicode escape needs four hex digits"));
        },
    };
    let cp = match hex4_value(s, i) {
        Some(cp) => cp,
        None => {
            let mut e = chars_of("invalid hex in \\u");
            extend(&mut e, slice_chars(s, i, k));
            return Err(e);
        },
    };
    let mut bad = chars_of("invalid unicode code point 0x");
    extend(&mut bad, lower_hex(cp));
    if 0xd800 <= cp && cp < 0xdc00 {
        if s.len() - k < 2 {
            return Err(bad);
        }
        let low = match hex4_value(s, k + 2) {
            Some(low) => low,
            None => {
                return Err(bad);
            },
        };
        let mut w = Vec::new();
        w.push('\\');
        w.push('u');
        assert(w@ =~= seq!['\\', 'u']);
        if !(starts_with(s, k, &w) && 0xdc00 <= low && low < 0xe000) {
            return Err(bad);
        }
        let v: u32 = 0x10000 + (cp - 0xd800) * 0x400 + (low - 0xdc00);
        match crate::text::char_from_u32(v) {
            Some(c) => {
                let mut t = Vec::new();
                t.push(c);
                proof {
                    vstd::utf8::char_u32_cast(c, v);
                }
                assert(t@ =~= seq![pair_code_point(cp as nat, low as nat) as char]);
                Ok((t, k + 6))
            },
            None => Err(bad),
        }
    } else if 0xdc00 <= cp && cp < 0xe000 {
        Err(bad)
    } else {
        match crate::text::char_from_u32(cp) {
            Some(c) => {
                let mut t = Vec::new();
                t.push(c);
                proof {
                    vstd::utf8::char_u32_cast(c, cp);
                }
                assert(t@ =~= seq![cp as char]);
                Ok((t, k))
            },
            None => Err(bad),
        }
    }
}

/// The escape whose letter is `c`, the rest of the source starting at `i`
/// (see [`spec_dispatch_escape`]).
pub fn dispatch_escape(c: char, s: &Vec<char>, i: usize) -> (r: Result<(Vec<char>, usize), Vec<char>>)
    requires
        i <= s.len(),
    ensures
        match r {
            Ok((t, k)) => spec_dispatch_escape(c, s@, i as int) == Ok::<(Seq<char>, int), Seq<char>>((t@, k as int)),
            Err(e) => spec_dispatch_escape(c, s@, i as int) == Err::<(Seq<char>, int), Seq<char>>(e@),
        },
{
    let mut t = Vec::new();
    if c == '"' {
        t.push('"');
    } else if c == '\\' {
        t.push('\\');
    } else if c == '/' {
        t.push('/');
    } else if c == 'b' {
        t.push('\u{8}');
    } else if c == 'f' {
        t.push('\u{c}');
    } else if c == 'n' {
        t.push('\n');
    } else if c == 'r' {
        t.push('\r');
    } else if c == 't' {
        t.push('\t');
    } else if c == 'u' {
        return decode_unicode_escape(s, i);
    } else {
        let mut e = chars_of("unknown escape \\");
        e.push(first_byte(c) as char);
        return Err(e);
    }
    assert(t@ =~= seq![t@[0]]);
    Ok((t, i))
}

/// The escape after a backslash standing just before `i` (see
/// [`spec_decode_escape`]).
pub fn decode_escape(s: &Vec<char>, i: usize) -> (r: Result<(Vec<char>, usize), Vec<char>>)
    requires
        i <= s.len(),
    ensures
        match r {
            Ok((t, k)) => spec_decode_escape(s@, i as int) == Ok::<(Seq<char>, int), Seq<char>>((t@, k as int)),
            Err(e) => spec_decode_escape(s@, i as int) == Err::<(Seq<char>, int), Seq<char>>(e@),
        },
{
    if i >= s.len() {
        return Err(chars_of("lone backslash at end of input"));
    }
    dispatch_escape(s[i], s, i + 1)
}

/// The body of a string literal from `i` to its closing quote: the decoded
/// text and the index after the quote (see [`spec_decode_string`]).
pub fn decode_string(s: &Vec<char>, i: usize) -> (r: Result<(Vec<char>, usize), Vec<char>>)
    requires
        i <= s.len(),
    ensures
        match r {
            Ok((t, k)) => spec_decode_string(s@, i as int, seq![]) == Ok::<(Seq<char>, int), Seq<char>>((t@, k as int))
                && i < k <= s.len(),
            Err(e) => spec_decode_string(s@, i as int, seq![]) == Err::<(Seq<char>, int), Seq<char>>(e@),
        },
{
    let mut acc: Vec<char> = Vec::new();
    let mut p = i;
    while p < s.len()
        invariant
            i <= p <= s.len(),
            spec_decode_string(s@, p as int, acc@) == spec_decode_string(s@, i as int, seq![]),
        decreases s.len() - p,
    {
        let c = s[p];
        if c == '"' {
            return Ok((acc, p + 1));
        } else if (c as u32) < 0x20 {
            return Err(chars_of("control character in string literal"));
        } else if c == '\\' {
            match decode_escape(s, p + 1) {
                Ok((piece, k)) => {
                    proof {
                        lemma_decode_escape_advances(s@, p + 1);
                    }
                    extend(&mut acc, piece);
                    p = k;
                },
                Err(e) => {
                    return Err(e);
                },
            }
        } else {
            acc.push(c);
            p = p + 1;
        }
    }
    Err(chars_of("unterminated string literal"))
}

} // verus!

verus! {

use crate::json_spec::{Json, spec_parse_value, spec_collect_array_elements, spec_collect_object_members,
    spec_parse_null, spec_parse_bool, spec_parse_number, starts_with_at, number_end, json_numeral, digits_end,
    is_sign, flatten, flatten_elements, flatten_members, member_props,
    lemma_ws_end, spec_parse_json};
use crate::value::{Slot, SlotV, Step, StepV, Val, JsValue, steps_view, slot_props_view, Plan, PlanV, Completion, CompletionV, index_props, array_props};

/// The relation of a parse to the allocations it appended.
pub open spec fn appended(before: Seq<Step>, after: Seq<Step>, j: Json) -> bool {
    steps_view(after) == steps_view(before) + flatten(j, before.len()).0
}

pub open spec fn parsed_as(r: Result<(Slot, usize), Vec<char>>, spec: Result<(Json, int), Seq<char>>,
    before: Seq<Step>, after: Seq<Step>, start: int, len: int) -> bool {
    match r {
        Ok((slot, k)) => spec matches Ok((j, k2)) && k2 == k && start < k <= len
            && appended(before, after, j) && slot@ == flatten(j, before.len()).1,
        Err(e) => spec == Err::<(Json, int), Seq<char>>(e@),
    }
}

pub(crate) fn digits_end_exec(t: &Vec<char>, i: usize) -> (r: usize)
    requires
        i <= t.len(),
    ensures
        r == digits_end(t@, i as int),
        i <= r <= t.len(),
{
    let mut k = i;
    while k < t.len() && is_digit(t[k])
        invariant
            i <= k <= t.len(),
            digits_end(t@, k as int) == digits_end(t@, i as int),
        decreases t.len() - k,
    {
        k = k + 1;
    }
    k
}

/// Whether `t` is a JSON numeral (see [`json_numeral`]).
pub fn is_json_numeral(t: &Vec<char>) -> (r: bool)
    ensures
        r == json_numeral(t@),
{
    let n = t.len();
    let a: usize = if n > 0 && t[0] == '-' {
        1
    } else {
        0
    };
    let b = digits_end_exec(t, a);
    if b == a {
        return false;
    }
    if t[a] == '0' && b != a + 1 {
        return false;
    }
    let dot = b < n && t[b] == '.';
    let c = if dot {
        digits_end_exec(t, b + 1)
    } else {
        b
    };
    if dot && c == b + 1 {
        return false;
    }
    if c == n {
        return true;
    }
    if !(t[c] == 'e' || t[c] == 'E') {
        return false;
    }
    let f = if c + 1 < n && (t[c + 1] == '+' || t[c + 1] == '-') {
        c + 2
    } else {
        c + 1
    };
    let g = digits_end_exec(t, f);
    g > f && g == n
}

fn starts_with(s: &Vec<char>, i: usize, w: &Vec<char>) -> (r: bool)
    requires
        i <= s.len(),
    ensures
        r == starts_with_at(s@, i as int, w@),
{
    if w.len() > s.len() - i {
        return false;
    }
    let mut k: usize = 0;
    while k < w.len()
        invariant
            i + w.len() <= s.len(),
            k <= w.len(),
            forall|m: int| 0 <= m < k ==> s@[i + m] == w@[m],
        decreases w.len() - k,
    {
        if s[i + k] != w[k] {
            assert(s@.subrange(i as int, i + w.len())[k as int] != w@[k as int]);
            return false;
        }
        k = k + 1;
    }
    assert(s@.subrange(i as int, i + w.len()) =~= w@);
    true
}

fn primitive(v: JsValue, s: &Vec<char>, k: usize, steps: &Vec<Step>) -> (r: Result<(Slot, usize), Vec<char>>)
    ensures
        r == Ok::<(Slot, usize), Vec<char>>((Slot::Value(v), k)),
{
    Ok((Slot::Value(v), k))
}

fn parse_null(s: &Vec<char>, i: usize) -> (r: Result<usize, Vec<char>>)
    requires
        i <= s.len(),
    ensures
        match r {
            Ok(k) => spec_parse_null(s@, i as int) == Ok::<(Json, int), Seq<char>>((Json::Null, k as int)),
            Err(e) => spec_parse_null(s@, i as int) == Err::<(Json, int), Seq<char>>(e@),
        },
{
    let mut w = Vec::new();
    w.push('n');
    w.push('u');
    w.push('l');
    w.push('l');
    assert(w@ =~= seq!['n', 'u', 'l', 'l']);
    if starts_with(s, i, &w) {
        Ok(i + 4)
    } else {
        Err(chars_of("expected 'null'"))
    }
}

fn parse_bool(s: &Vec<char>, i: usize) -> (r: Result<(bool, usize), Vec<char>>)
    requires
        i <= s.len(),
    ensures
        match r {
            Ok((b, k)) => spec_parse_bool(s@, i as int) == Ok::<(Json, int), Seq<char>>((Json::Bool(b), k as int)),
            Err(e) => spec_parse_bool(s@, i as int) == Err::<(Json, int), Seq<char>>(e@),
        },
{
    let mut t = Vec::new();
    t.push('t');
    t.push('r');
    t.push('u');
    t.push('e');
    assert(t@ =~= seq!['t', 'r', 'u', 'e']);
    let mut f = Vec::new();
    f.push('f');
    f.push('a');
    f.push('l');
    f.push('s');
    f.push('e');
    assert(f@ =~= seq!['f', 'a', 'l', 's', 'e']);
    if starts_with(s, i, &t) {
        Ok((true, i + 4))
    } else if starts_with(s, i, &f) {
        Ok((false, i + 5))
    } else {
        Err(chars_of("expected 'true' or 'false'"))
    }
}

fn parse_number(s: &Vec<char>, i: usize) -> (r: Result<(Vec<char>, usize), Vec<char>>)
    requires
        i < s.len(),
        is_number_char(s@[i as int]),
    ensures
        match r {
            Ok((t, k)) => spec_parse_number(s@, i as int) == Ok::<(Json, int), Seq<char>>((Json::Number(t@), k as int))
                && i < k <= s.len(),
            Err(e) => spec_parse_number(s@, i as int) == Err::<(Json, int), Seq<char>>(e@),
        },
{
    let mut e = i;
    while e < s.len() && is_number_character(s[e])
        invariant
            i <= e <= s.len(),
            number_end(s@, e as int) == number_end(s@, i as int),
            e == i ==> is_number_char(s@[i as int]),
        decreases s.len() - e,
    {
        e = e + 1;
    }
    let text = slice_chars(s, i, e);
    if is_json_numeral(&text) {
        Ok((text, e))
    } else {
        let mut m = chars_of("invalid number ");
        extend(&mut m, debug_chars(&text));
        Err(m)
    }
}

/// A value at or after `i` (see [`spec_parse_value`]); on success the
/// allocations that build it are appended to `steps`.
fn parse_value(s: &Vec<char>, i: usize, steps: &mut Vec<Step>) -> (r: Result<(Slot, usize), Vec<char>>)
    requires
        i <= s.len(),
    ensures
        parsed_as(r, spec_parse_value(s@, i as int), old(steps)@, final(steps)@, i as int, s.len() as int),
    decreases s.len() - i, 0int,
{
    let j = skip_ws(s, i);
    if j >= s.len() {
        return Err(chars_of("unexpected end of input"));
    }
    let c = s[j];
    let ghost before = steps@;
    if c == '{' {
        collect_object_members(s, j + 1, steps)
    } else if c == '[' {
        collect_array_elements(s, j + 1, steps)
    } else if c == '"' {
        match decode_string(s, j + 1) {
            Ok((t, k)) => {
                assert(steps_view(before) + seq![] =~= steps_view(before));
                Ok((Slot::Value(JsValue::String(string_of(&t))), k))
            },
            Err(e) => Err(e),
        }
    } else if c == 't' || c == 'f' {
        match parse_bool(s, j) {
            Ok((b, k)) => {
                assert(steps_view(before) + seq![] =~= steps_view(before));
                Ok((Slot::Value(JsValue::Boolean(b)), k))
            },
            Err(e) => Err(e),
        }
    } else if c == 'n' {
        match parse_null(s, j) {
            Ok(k) => {
                assert(steps_view(before) + seq![] =~= steps_view(before));
                Ok((Slot::Value(JsValue::Null), k))
            },
            Err(e) => Err(e),
        }
    } else if c == '-' || is_digit(c) {
        match parse_number(s, j) {
            Ok((t, k)) => {
                assert(steps_view(before) + seq![] =~= steps_view(before));
                Ok((Slot::NumberText(string_of(&t)), k))
            },
            Err(e) => Err(e),
        }
    } else {
        let mut m = chars_of("unexpected byte ");
        extend(&mut m, decimal_u64(first_byte(c) as u64));
        extend(&mut m, chars_of(" at start of value"));
        Err(m)
    }
}

/// Array elements after the `[` that stands just before `start` (see
/// [`spec_collect_array_elements`]).
fn collect_array_elements(s: &Vec<char>, start: usize, steps: &mut Vec<Step>) -> (r: Result<(Slot, usize), Vec<char>>)
    requires
        0 < start <= s.len(),
    ensures
        parsed_as(r, spec_collect_array_elements(s@, start as int, seq![], false), old(steps)@, final(steps)@,
            start - 1, s.len() as int),
    decreases s.len() - start, 1int,
{
    let ghost base = steps@.len();
    let ghost old_steps = steps@;
    let ghost mut acc: Seq<Json> = seq![];
    let mut props: Vec<(String, Slot)> = Vec::new();
    let mut count: usize = 0;
    let mut i = start;
    let mut after = false;
    loop
        invariant
            0 < start <= i <= s.len(),
            count == acc.len(),
            count <= i,
            base == old_steps.len(),
            old_steps == old(steps)@,
            spec_collect_array_elements(s@, i as int, acc, after) == spec_collect_array_elements(
                s@,
                start as int,
                seq![],
                false,
            ),
            steps_view(steps@) == steps_view(old_steps) + flatten_elements(acc, base).0,
            flatten_elements(acc, base).1.len() == acc.len(),
            slot_props_view(props@) == index_props(flatten_elements(acc, base).1),
        decreases s.len() - i,
    {
        let j = skip_ws(s, i);
        if j >= s.len() {
            return Err(chars_of("unterminated array literal"));
        }
        if s[j] == ']' && (after || count == 0) {
            let n: u32 = if count <= 0xffff_ffff {
                count as u32
            } else {
                0xffff_ffff
            };
            let ghost sl = flatten_elements(acc, base).1;
            props.push((string_of(&chars_of("length")), Slot::WholeNumber(n)));
            assert(slot_props_view(props@) =~= array_props(sl));
            let idx = steps.len();
            let ghost pre = steps@;
            assert(spec_collect_array_elements(s@, i as int, acc, after) == Ok::<(Json, int), Seq<char>>((Json::Array(acc), j + 1)));
            assert(steps_view(steps@).len() == steps@.len());
            assert(idx == base + flatten_elements(acc, base).0.len());
            steps.push(Step::NewObject(props));
            assert(steps_view(steps@) =~= steps_view(pre).push(StepV::NewObject(array_props(sl))));
            assert(flatten(Json::Array(acc), base).0 == flatten_elements(acc, base).0.push(StepV::NewObject(array_props(sl))));
            assert(steps_view(steps@) =~= steps_view(old_steps) + flatten(Json::Array(acc), base).0);
            return Ok((Slot::Fresh(idx), j + 1));
        }
        if after {
            if s[j] == ',' {
                i = j + 1;
                after = false;
                continue;
            }
            return Err(chars_of("expected ',' or ']' after array element"));
        }
        let ghost before = steps@;
        match parse_value(s, j, steps) {
            Err(e) => {
                return Err(e);
            },
            Ok((slot, m)) => {
                let ghost v = spec_parse_value(s@, j as int)->Ok_0.0;
                let ghost prev = flatten_elements(acc, base);
                let key = string_of(&decimal_u64(count as u64));
                let ghost old_props = props@;
                props.push((key, slot));
                proof {
                    let next = acc.push(v);
                    assert(next.subrange(0, next.len() - 1) =~= acc);
                    assert(steps_view(before).len() == base + prev.0.len());
                    let last = flatten(v, base + prev.0.len());
                    assert(flatten_elements(next, base).1 == prev.1.push(last.1));
                    assert(flatten_elements(next, base).0 == prev.0 + last.0);
                    assert(before.len() == base + prev.0.len());
                    assert(slot@ == last.1);
                    assert(key@ == spec_decimal(count as nat));
                    assert(slot_props_view(props@) =~= slot_props_view(old_props).push((key@, slot@)));
                    acc = next;
                    assert(slot_props_view(props@) =~= index_props(flatten_elements(acc, base).1));
                    assert(steps_view(steps@) =~= steps_view(old_steps) + flatten_elements(acc, base).0);
                }
                count = count + 1;
                i = m;
                after = true;
            },
        }
    }
}

/// Object members after the `{` that stands just before `start` (see
/// [`spec_collect_object_members`]).
fn collect_object_members(s: &Vec<char>, start: usize, steps: &mut Vec<Step>) -> (r: Result<(Slot, usize), Vec<char>>)
    requires
        0 < start <= s.len(),
    ensures
        parsed_as(r, spec_collect_object_members(s@, start as int, seq![], false), old(steps)@, final(steps)@,
            start - 1, s.len() as int),
    decreases s.len() - start, 1int,
{
    let ghost base = steps@.len();
    let ghost old_steps = steps@;
    let ghost mut acc: Seq<(Seq<char>, Json)> = seq![];
    let mut props: Vec<(String, Slot)> = Vec::new();
    let mut i = start;
    let mut after = false;
    loop
        invariant
            0 < start <= i <= s.len(),
            base == old_steps.len(),
            old_steps == old(steps)@,
            spec_collect_object_members(s@, i as int, acc, after) == spec_collect_object_members(
                s@,
                start as int,
                seq![],
                false,
            ),
            props.len() == acc.len(),
            steps_view(steps@) == steps_view(old_steps) + flatten_members(acc, base).0,
            flatten_members(acc, base).1.len() == acc.len(),
            slot_props_view(props@) == member_props(acc, flatten_members(acc, base).1),
        decreases s.len() - i,
    {
        let j = skip_ws(s, i);
        if j >= s.len() {
            return Err(chars_of("unterminated object literal"));
        }
        if s[j] == '}' && (after || props.len() == 0) {
            let idx = steps.len();
            let ghost pre = steps@;
            let ghost sl = flatten_members(acc, base).1;
            assert(steps_view(steps@).len() == steps@.len());
            assert(idx == base + flatten_members(acc, base).0.len());
            steps.push(Step::NewObject(props));
            assert(steps_view(steps@) =~= steps_view(pre).push(StepV::NewObject(member_props(acc, sl))));
            assert(flatten(Json::Object(acc), base).0 == flatten_members(acc, base).0.push(StepV::NewObject(member_props(acc, sl))));
            assert(steps_view(steps@) =~= steps_view(old_steps) + flatten(Json::Object(acc), base).0);
            return Ok((Slot::Fresh(idx), j + 1));
        }
        if after {
            if s[j] == ',' {
                i = j + 1;
                after = false;
                continue;
            }
            return Err(chars_of("expected ',' or '}' after object member"));
        }
        if s[j] != '"' {
            let mut m = chars_of("expected string key, got ");
            extend(&mut m, decimal_u64(first_byte(s[j]) as u64));
            return Err(m);
        }
        let (key, k) = match decode_string(s, j + 1) {
            Ok(r) => r,
            Err(e) => {
                return Err(e);
            },
        };
        let t = skip_ws(s, k);
        if !(t < s.len() && s[t] == ':') {
            return Err(chars_of("expected ':' after object key"));
        }
        let ghost before = steps@;
        match parse_value(s, t + 1, steps) {
            Err(e) => {
                return Err(e);
            },
            Ok((slot, m)) => {
                let ghost v = spec_parse_value(s@, t + 1)->Ok_0.0;
                let ghost prev = flatten_members(acc, base);
                let ghost old_props = props@;
                props.push((string_of(&key), slot));
                proof {
                    let next = acc.push((key@, v));
                    assert(next.subrange(0, next.len() - 1) =~= acc);
                    assert(steps_view(before).len() == base + prev.0.len());
                    let last = flatten(v, base + prev.0.len());
                    assert(flatten_members(next, base).1 == prev.1.push(last.1));
                    assert(flatten_members(next, base).0 == prev.0 + last.0);
                    assert(before.len() == base + prev.0.len());
                    assert(slot@ == last.1);
                    assert(slot_props_view(props@) =~= slot_props_view(old_props).push((key@, slot@)));
                    acc = next;
                    assert(slot_props_view(props@) =~= member_props(acc, flatten_members(acc, base).1));
                    assert(steps_view(steps@) =~= steps_view(old_steps) + flatten_members(acc, base).0);
                }
                i = m;
                after = true;
            },
        }
    }
}

} // verus!

verus! {

use crate::value::vals;

/// The plan that builds `j` in an otherwise untouched heap.
pub open spec fn plan_of(j: Json) -> PlanV {
    PlanV { steps: flatten(j, 0).0, result: flatten(j, 0).1 }
}

/// `JSON.parse` of the characters `source`: the plan that builds the
/// value, or the message of the syntax error (see [`spec_parse_json`]).
pub fn parse_value_top_level(source: &Vec<char>) -> (r: Result<Plan, Vec<char>>)
    ensures
        match r {
            Ok(p) => spec_parse_json(source@) matches Ok(j) && p@ == plan_of(j),
            Err(e) => spec_parse_json(source@) == Err::<Json, Seq<char>>(e@),
        },
{
    let mut steps: Vec<Step> = Vec::new();
    assert(steps_view(steps@) =~= seq![]);
    match parse_value(source, 0, &mut steps) {
        Err(e) => Err(e),
        Ok((slot, k)) => {
            let t = skip_ws(source, k);
            if t >= source.len() {
                assert(steps_view(steps@) =~= flatten(spec_parse_value(source@, 0)->Ok_0.0, 0).0);
                Ok(Plan { steps, result: slot })
            } else {
                let mut m = chars_of("unexpected trailing content: ");
                extend(&mut m, debug_chars(&slice_chars(source, t, source.len())));
                Err(m)
            }
        },
    }
}

/// The first argument when it is a string, else the empty string.
pub open spec fn first_string_arg(args: Seq<Val>) -> Seq<char> {
    if args.len() > 0 && args[0] is String {
        args[0]->String_0
    } else {
        seq![]
    }
}

/// `JSON.parse(source)`: builds the parsed value, or throws
/// `"SyntaxError: <message>"` leaving the heap untouched.
pub open spec fn spec_json_parse(args: Seq<Val>) -> CompletionV {
    match spec_parse_json(first_string_arg(args)) {
        Ok(j) => CompletionV::Normal(plan_of(j)),
        Err(m) => CompletionV::Throw(Val::String("SyntaxError: "@ + m)),
    }
}

/// `JSON.parse` (see [`spec_json_parse`]).
pub fn parse_impl(args: &Vec<JsValue>) -> (r: Completion)
    ensures
        r@ == spec_json_parse(vals(args@)),
{
    let source: Vec<char> = if args.len() > 0 {
        match &args[0] {
            JsValue::String(s) => chars_of(s.as_str()),
            _ => Vec::new(),
        }
    } else {
        Vec::new()
    };
    assert(source@ == first_string_arg(vals(args@)));
    match parse_value_top_level(&source) {
        Ok(plan) => Completion::Normal(plan),
        Err(m) => {
            let mut text = chars_of("SyntaxError: ");
            extend(&mut text, m);
            Completion::Throw(JsValue::String(string_of(&text)))
        },
    }
}

} // verus!

verus! {

use crate::json_text::{hex4, escape_char, escape_text, quote, join, render, render_items, render_members};
use crate::array::{looks_like_array, spec_looks_like_array, recorded_length, spec_recorded_length};
use crate::number::{is_finite, number_to_string};
use crate::coercion::{first_arg, spec_arg_at};
use crate::text::hex_digit;
use crate::value::{HeapView, HeapV, ObjectView, ObjectV, kv_view};
use crate::object::{ecma_order, first_entries, ordered_properties};

fn hex4_exec(n: u32) -> (r: Vec<char>)
    requires
        n < 0x10000,
    ensures
        r@ == hex4(n as nat),
{
    let mut v = Vec::new();
    v.push(hex_digit((n / 0x1000) % 16));
    v.push(hex_digit((n / 0x100) % 16));
    v.push(hex_digit((n / 0x10) % 16));
    v.push(hex_digit(n % 16));
    assert(v@ =~= hex4(n as nat));
    v
}

fn escape_into(out: &mut Vec<char>, c: char)
    ensures
        final(out)@ == old(out)@ + escape_char(c),
{
    let ghost before = out@;
    if c == '"' {
        out.push('\\');
        out.push('"');
    } else if c == '\\' {
        out.push('\\');
        out.push('\\');
    } else if c == '\n' {
        out.push('\\');
        out.push('n');
    } else if c == '\r' {
        out.push('\\');
        out.push('r');
    } else if c == '\t' {
        out.push('\\');
        out.push('t');
    } else if (c as u32) < 0x20 {
        out.push('\\');
        out.push('u');
        extend(out, hex4_exec(c as u32));
    } else {
        out.push(c);
    }
    assert(out@ =~= before + escape_char(c));
}

/// Appends the JSON string literal for `s` to `out`.
fn quote_into(out: &mut Vec<char>, s: &Vec<char>)
    ensures
        final(out)@ == old(out)@ + quote(s@),
{
    let ghost before = out@;
    out.push('"');
    let mut i: usize = 0;
    while i < s.len()
        invariant
            i <= s.len(),
            out@ == before + seq!['"'] + escape_text(s@.subrange(0, i as int)),
        decreases s.len() - i,
    {
        let ghost next = s@.subrange(0, i + 1);
        assert(next.subrange(0, i as int) =~= s@.subrange(0, i as int));
        escape_into(out, s[i]);
        i = i + 1;
        assert(out@ =~= before + seq!['"'] + escape_text(next));
    }
    assert(s@.subrange(0, s@.len() as int) =~= s@);
    out.push('"');
    assert(out@ =~= before + quote(s@));
}

/// The JSON string literal for `s`: quotes around it, `"`, `\`, newline,
/// carriage return and tab escaped by letter, other control characters
/// as `\u00XX`.
pub fn stringify_string(s: &str) -> (r: String)
    ensures
        r@ == quote(s@),
{
    let mut out = Vec::new();
    quote_into(&mut out, &chars_of(s));
    assert(out@ =~= quote(s@));
    string_of(&out)
}

/// Appends `item` to the comma-separated list `out` holds after its
/// opening bracket.
proof fn lemma_join_push(items: Seq<Seq<char>>, x: Seq<char>)
    ensures
        join(items.push(x)) == if items.len() == 0 {
            x
        } else {
            join(items) + seq![','] + x
        },
{
    assert(items.push(x).subrange(0, items.len() as int) =~= items);
}

/// The text `JSON.stringify` writes for `v` (see [`render`]).
fn render_value(v: &JsValue, heap: &HeapView, fuel: usize) -> (r: Result<Option<Vec<char>>, ()>)
    ensures
        match r {
            Ok(Some(t)) => render(heap@, v@, fuel as nat) == Ok::<Option<Seq<char>>, ()>(Some(t@)),
            Ok(None) => render(heap@, v@, fuel as nat) == Ok::<Option<Seq<char>>, ()>(None),
            Err(()) => render(heap@, v@, fuel as nat) is Err,
        },
    decreases fuel, 0nat,
{
    match v {
        JsValue::Null => Ok(Some(chars_of("null"))),
        JsValue::Boolean(b) => Ok(Some(
            if *b {
                chars_of("true")
            } else {
                chars_of("false")
            },
        )),
        JsValue::Number(n) => {
            if is_finite(n.bits) {
                Ok(Some(chars_of(number_to_string(n).as_str())))
            } else {
                Ok(Some(chars_of("null")))
            }
        },
        JsValue::String(s) => {
            let mut out = Vec::new();
            quote_into(&mut out, &chars_of(s.as_str()));
            assert(out@ =~= quote(s@));
            Ok(Some(out))
        },
        JsValue::Object(id) => match heap.object(*id) {
            None => Ok(None),
            Some(o) => {
                if fuel == 0 {
                    return Err(());
                }
                if looks_like_array(o) {
                    match render_array(o, heap, fuel - 1) {
                        Ok(t) => Ok(Some(t)),
                        Err(()) => Err(()),
                    }
                } else {
                    match render_object(o, heap, fuel - 1) {
                        Ok(t) => Ok(Some(t)),
                        Err(()) => Err(()),
                    }
                }
            },
        },
        _ => Ok(None),
    }
}

proof fn lemma_items_err_stays(h: HeapV, o: ObjectV, fuel: nat, k: nat, n: nat)
    requires
        k <= n,
        render_items(h, o, fuel, k) is Err,
    ensures
        render_items(h, o, fuel, n) is Err,
    decreases n - k,
{
    if k < n {
        lemma_items_err_stays(h, o, fuel, k, (n - 1) as nat);
    }
}

proof fn lemma_members_err_stays(h: HeapV, ps: Seq<(Seq<char>, Val)>, fuel: nat, k: nat, n: nat)
    requires
        k <= n <= ps.len(),
        render_members(h, ps, fuel, k) is Err,
    ensures
        render_members(h, ps, fuel, n) is Err,
    decreases n - k,
{
    if k < n {
        lemma_members_err_stays(h, ps, fuel, k, (n - 1) as nat);
    }
}

fn render_array(o: &ObjectView, heap: &HeapView, fuel: usize) -> (r: Result<Vec<char>, ()>)
    ensures
        match r {
            Ok(t) => render_items(heap@, o@, fuel as nat, spec_recorded_length(o@) as nat) matches Ok(items)
                && t@ == seq!['['] + join(items) + seq![']'],
            Err(()) => render_items(heap@, o@, fuel as nat, spec_recorded_length(o@) as nat) is Err,
        },
    decreases fuel, 1nat,
{
    let length = recorded_length(o);
    let mut out = Vec::new();
    out.push('[');
    let ghost mut items: Seq<Seq<char>> = seq![];
    let mut i: u32 = 0;
    while i < length
        invariant
            i <= length,
            length == spec_recorded_length(o@),
            render_items(heap@, o@, fuel as nat, i as nat) == Ok::<Seq<Seq<char>>, ()>(items),
            out@ == seq!['['] + join(items),
        decreases length - i,
    {
        let key = decimal_u64(i as u64);
        let ghost old_items = items;
        let piece: Vec<char> = match o.get(&key) {
            None => chars_of("null"),
            Some(v) => match render_value(v, heap, fuel) {
                Err(()) => {
                    proof {
                        lemma_items_err_stays(heap@, o@, fuel as nat, (i + 1) as nat, length as nat);
                    }
                    return Err(());
                },
                Ok(None) => chars_of("null"),
                Ok(Some(t)) => t,
            },
        };
        proof {
            items = items.push(piece@);
            lemma_join_push(old_items, piece@);
        }
        if i > 0 {
            out.push(',');
        }
        extend(&mut out, piece);
        i = i + 1;
    }
    out.push(']');
    Ok(out)
}

fn render_object(o: &ObjectView, heap: &HeapView, fuel: usize) -> (r: Result<Vec<char>, ()>)
    ensures
        match r {
            Ok(t) => render_members(heap@, ecma_order(first_entries(o@.properties)), fuel as nat, ecma_order(first_entries(o@.properties)).len()) matches Ok(items)
                && t@ == seq!['{'] + join(items) + seq!['}'],
            Err(()) => render_members(heap@, ecma_order(first_entries(o@.properties)), fuel as nat, ecma_order(first_entries(o@.properties)).len()) is Err,
        },
    decreases fuel, 1nat,
{
    let ps = ordered_properties(o);
    let ghost eo = ecma_order(first_entries(o@.properties));
    let mut out = Vec::new();
    out.push('{');
    let ghost mut items: Seq<Seq<char>> = seq![];
    let mut emitted = false;
    let mut i: usize = 0;
    while i < ps.len()
        invariant
            i <= ps.len(),
            emitted == (items.len() > 0),
            eo == ecma_order(first_entries(o@.properties)),
            eo.len() == ps.len(),
            kv_view(ps@) == eo,
            render_members(heap@, eo, fuel as nat, i as nat) == Ok::<Seq<Seq<char>>, ()>(items),
            out@ == seq!['{'] + join(items),
        decreases ps.len() - i,
    {
        assert(eo[i as int] == (ps@[i as int].0@, ps@[i as int].1@));
        match render_value(&ps[i].1, heap, fuel) {
            Err(()) => {
                proof {
                    assert(render_members(heap@, eo, fuel as nat, (i + 1) as nat) is Err);
                    lemma_members_err_stays(heap@, eo, fuel as nat, (i + 1) as nat, eo.len());
                }
                return Err(());
            },
            Ok(None) => {},
            Ok(Some(t)) => {
                let mut piece = Vec::new();
                quote_into(&mut piece, &chars_of(ps[i].0.as_str()));
                piece.push(':');
                let ghost tt = t@;
                extend(&mut piece, t);
                assert(piece@ =~= quote(eo[i as int].0) + seq![':'] + tt);
                let ghost old_items = items;
                proof {
                    items = items.push(piece@);
                    lemma_join_push(old_items, piece@);
                }
                if emitted {
                    out.push(',');
                }
                extend(&mut out, piece);
                emitted = true;
            },
        }
        i = i + 1;
    }
    out.push('}');
    Ok(out)
}

/// `JSON.stringify(value)`: the text for the first argument, `undefined`
/// where it is left out; none when its objects nest deeper than the heap
/// snapshot has objects, that is, when they form a cycle.
pub open spec fn spec_stringify(h: HeapV, args: Seq<Val>) -> Option<Val> {
    match render(h, spec_arg_at(args, 0), h.objects.len()) {
        Ok(Some(t)) => Some(Val::String(t)),
        Ok(None) => Some(Val::Undefined),
        Err(()) => None,
    }
}

/// `JSON.stringify` (see [`spec_stringify`]).
pub fn stringify_impl(args: &Vec<JsValue>, heap: &HeapView) -> (r: Option<JsValue>)
    ensures
        match r {
            Some(v) => spec_stringify(heap@, vals(args@)) == Some(v@),
            None => spec_stringify(heap@, vals(args@)) is None,
        },
{
    match render_value(&first_arg(args), heap, heap.objects.len()) {
        Ok(Some(t)) => Some(JsValue::String(string_of(&t))),
        Ok(None) => Some(JsValue::Undefined),
        Err(()) => None,
    }
}

} // verus!
