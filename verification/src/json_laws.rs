//! `JSON.parse` reads back what `JSON.stringify` writes.

use vstd::prelude::*;

use crate::json_spec::{is_json_ws, Json, is_hex_char, hex4_at, flatten, flatten_elements, flatten_members, member_props, spec_decode_string, spec_decode_escape, spec_dispatch_escape, spec_decode_unicode_escape,
    utf8_prefix_end, is_scalar_value, json_numeral, is_number_char, is_ascii_digit, digits_end, number_end, ws_end,
    spec_parse_value, spec_parse_json, spec_collect_array_elements, spec_collect_object_members, spec_parse_number,
    spec_parse_bool, spec_parse_null, starts_with_at, is_sign, lemma_ws_end};
use crate::json_text::{hex4, escape_char, escape_text, quote, join};
use crate::numeral::{spec_parse_unsigned, spec_digits_at_most, digits_value, digit_value};
use crate::text::{hex_digit_char, digit_char, utf8_width};

verus! {

proof fn lemma_escape_text_front(x: Seq<char>)
    requires
        x.len() > 0,
    ensures
        escape_text(x) == escape_char(x[0]) + escape_text(x.subrange(1, x.len() as int)),
    decreases x.len(),
{
    if x.len() == 1 {
        assert(x.subrange(0, 0) =~= Seq::<char>::empty());
        assert(x.subrange(1, 1) =~= Seq::<char>::empty());
        assert(escape_text(Seq::<char>::empty()) == Seq::<char>::empty());
        assert(escape_text(x) =~= escape_char(x[0]));
    } else {
        let init = x.subrange(0, x.len() - 1);
        lemma_escape_text_front(init);
        assert(init.subrange(1, init.len() as int) =~= x.subrange(1, x.len() as int).subrange(
            0,
            x.len() - 2,
        ));
        assert(x.subrange(1, x.len() as int)[x.len() - 2] == x[x.len() - 1]);
    }
}

proof fn lemma_hex_digit_value(d: nat)
    requires
        d < 16,
    ensures
        digit_value(hex_digit_char(d)) == d,
        is_hex_char(hex_digit_char(d)),
{
}

/// The `\u00XX` escape of a control character reads back as that character.
proof fn lemma_control_escape(s: Seq<char>, p: int, c: char)
    requires
        (c as u32) < 0x20,
        0 <= p,
        p + 4 <= s.len(),
        s.subrange(p, p + 4) == hex4(c as nat),
    ensures
        spec_decode_unicode_escape(s, p) == Ok::<(Seq<char>, int), Seq<char>>((seq![c], p + 4)),
{
    let n = c as nat;
    let h = hex4(n);
    assert(s[p] == h[0] && s[p + 1] == h[1] && s[p + 2] == h[2] && s[p + 3] == h[3]);
    assert(h[0] == '0' && h[1] == '0');
    assert(utf8_prefix_end(s, p + 4, 0) == Some(p + 4));
    assert(utf8_prefix_end(s, p + 3, 1) == Some(p + 4));
    assert(utf8_prefix_end(s, p + 2, 2) == Some(p + 4));
    assert(utf8_prefix_end(s, p + 1, 3) == Some(p + 4));
    assert(utf8_prefix_end(s, p, 4) == Some(p + 4));
    lemma_hex_digit_value((n / 0x10) % 16);
    lemma_hex_digit_value(n % 16);
    assert(is_hex_char(h[2]) && is_hex_char(h[3]));
    assert(digit_value(h[0]) == 0 && digit_value(h[1]) == 0);
    assert(((n / 0x10) % 16) * 16 + n % 16 == n);
    assert(hex4_at(s, p) == Some(n));
    vstd::utf8::char_u32_cast(c, c as u32);
    assert(seq![n as char] =~= seq![c]);
}

/// Decoding the escaped text of `x` and its closing quote gives back `x`.
pub proof fn lemma_decode_escaped(x: Seq<char>, s: Seq<char>, p: int, acc: Seq<char>)
    requires
        0 <= p,
        p + escape_text(x).len() + 1 <= s.len(),
        s.subrange(p, p + escape_text(x).len() + 1) == escape_text(x) + seq!['"'],
    ensures
        spec_decode_string(s, p, acc) == Ok::<(Seq<char>, int), Seq<char>>((acc + x, p + escape_text(x).len() + 1)),
    decreases x.len(),
{
    let e = escape_text(x);
    if x.len() == 0 {
        assert(e.len() == 0);
        assert(s[p] == s.subrange(p, p + 1)[0]);
        assert(acc + x =~= acc);
    } else {
        lemma_escape_text_front(x);
        let c = x[0];
        let ec = escape_char(c);
        let rest = x.subrange(1, x.len() as int);
        let er = escape_text(rest);
        assert(e == ec + er);
        let q = p + ec.len();
        assert forall|k: int| 0 <= k < ec.len() implies s[p + k] == #[trigger] ec[k] by {
            assert(s.subrange(p, p + e.len() + 1)[k] == s[p + k]);
        }
        assert(s.subrange(q, q + er.len() + 1) =~= er + seq!['"']) by {
            assert forall|k: int| 0 <= k < er.len() + 1 implies s.subrange(q, q + er.len() + 1)[k] == (er
                + seq!['"'])[k] by {
                assert(s.subrange(p, p + e.len() + 1)[ec.len() + k] == s[q + k]);
            }
        }
        lemma_decode_escaped(rest, s, q, acc.push(c));
        assert(acc.push(c) + rest =~= acc + x);
        if c == '"' || c == '\\' || c == '\n' || c == '\r' || c == '\t' {
            assert(s[p] == '\\');
            assert(s[p + 1] == ec[1]);
            assert(spec_decode_escape(s, p + 1) == Ok::<(Seq<char>, int), Seq<char>>((seq![c], p + 2)));
            assert(acc + seq![c] =~= acc.push(c));
        } else if (c as u32) < 0x20 {
            assert(ec[0] == '\\' && ec[1] == 'u');
            assert(s[p] == '\\');
            assert(s[p + 1] == 'u');
            assert(s.subrange(p + 2, p + 6) =~= hex4(c as nat)) by {
                assert forall|k: int| 0 <= k < 4 implies #[trigger] s.subrange(p + 2, p + 6)[k] == hex4(c as nat)[k] by {
                    assert(ec[2 + k] == hex4(c as nat)[k]);
                }
            }
            lemma_control_escape(s, p + 2, c);
            assert(acc + seq![c] =~= acc.push(c));
        } else {
            assert(ec[0] == c);
            assert(s[p] == c);
        }
    }
}


/// The text of a JSON value in the form `JSON.stringify` writes it.
pub open spec fn print_json(j: Json) -> Seq<char>
    decreases j,
{
    match j {
        Json::Null => seq!['n', 'u', 'l', 'l'],
        Json::Bool(b) => if b {
            seq!['t', 'r', 'u', 'e']
        } else {
            seq!['f', 'a', 'l', 's', 'e']
        },
        Json::Number(t) => t,
        Json::Str(t) => quote(t),
        Json::Array(es) => seq!['['] + join(print_elements(es)) + seq![']'],
        Json::Object(ms) => seq!['{'] + join(print_members(ms)) + seq!['}'],
    }
}

pub open spec fn print_elements(es: Seq<Json>) -> Seq<Seq<char>>
    decreases es,
{
    if es.len() == 0 {
        seq![]
    } else {
        seq![print_json(es[0])] + print_elements(es.subrange(1, es.len() as int))
    }
}

pub open spec fn print_members(ms: Seq<(Seq<char>, Json)>) -> Seq<Seq<char>>
    decreases ms,
{
    if ms.len() == 0 {
        seq![]
    } else {
        seq![quote(ms[0].0) + seq![':'] + print_json(ms[0].1)] + print_members(
            ms.subrange(1, ms.len() as int),
        )
    }
}

/// Values whose numbers are written as JSON numerals.
pub open spec fn printable(j: Json) -> bool
    decreases j,
{
    match j {
        Json::Number(t) => json_numeral(t),
        Json::Array(es) => all_printable(es),
        Json::Object(ms) => all_printable_members(ms),
        _ => true,
    }
}

pub open spec fn all_printable(es: Seq<Json>) -> bool
    decreases es,
{
    es.len() == 0 || (printable(es[0]) && all_printable(es.subrange(1, es.len() as int)))
}

pub open spec fn all_printable_members(ms: Seq<(Seq<char>, Json)>) -> bool
    decreases ms,
{
    ms.len() == 0 || (printable(ms[0].1) && all_printable_members(ms.subrange(1, ms.len() as int)))
}

proof fn lemma_starts_with_split(s: Seq<char>, i: int, a: Seq<char>, b: Seq<char>)
    requires
        starts_with_at(s, i, a + b),
    ensures
        starts_with_at(s, i, a),
        starts_with_at(s, i + a.len(), b),
{
    let w = a + b;
    let sub = s.subrange(i, i + w.len());
    assert(sub == w);
    assert(s.subrange(i, i + a.len()) =~= sub.subrange(0, a.len() as int));
    assert(sub.subrange(0, a.len() as int) =~= a);
    assert(s.subrange(i + a.len(), i + a.len() + b.len()) =~= sub.subrange(a.len() as int, w.len() as int));
    assert(sub.subrange(a.len() as int, w.len() as int) =~= b);
}

proof fn lemma_starts_with_at_index(s: Seq<char>, i: int, w: Seq<char>, k: int)
    requires
        starts_with_at(s, i, w),
        0 <= k < w.len(),
    ensures
        s[i + k] == w[k],
{
    assert(s.subrange(i, i + w.len())[k] == s[i + k]);
}

proof fn lemma_join_front(items: Seq<Seq<char>>)
    requires
        items.len() > 0,
    ensures
        items.len() == 1 ==> join(items) == items[0],
        items.len() > 1 ==> join(items) == items[0] + seq![','] + join(items.subrange(1, items.len() as int)),
    decreases items.len(),
{
    let n = items.len() as int;
    let tail = items.subrange(1, n);
    if n > 2 {
        let init = items.subrange(0, n - 1);
        lemma_join_front(init);
        assert(tail.subrange(0, tail.len() - 1) =~= init.subrange(1, init.len() as int));
        assert(tail[tail.len() - 1] == items[n - 1]);
        assert(init[0] == items[0]);
        assert(join(tail) == join(init.subrange(1, init.len() as int)) + seq![','] + items[n - 1]);
        assert(join(items) == join(init) + seq![','] + items[n - 1]);
        assert(join(items) =~= items[0] + seq![','] + join(tail));
    } else if n == 2 {
        let init = items.subrange(0, 1);
        assert(init[0] == items[0]);
        assert(join(init) == items[0]);
        assert(tail.len() == 1 && tail[0] == items[1]);
        assert(join(tail) == items[1]);
        assert(join(items) == join(init) + seq![','] + items[1]);
    }
}

proof fn lemma_digits_end(t: Seq<char>, i: int)
    requires
        0 <= i,
    ensures
        i <= digits_end(t, i),
        i <= t.len() ==> digits_end(t, i) <= t.len(),
        forall|k: int| i <= k < digits_end(t, i) ==> is_ascii_digit(#[trigger] t[k]),
    decreases t.len() - i,
{
    if 0 <= i < t.len() && is_ascii_digit(t[i]) {
        lemma_digits_end(t, i + 1);
    }
}

/// A numeral is made of numeral characters only.
pub(crate) proof fn lemma_json_numeral_chars(t: Seq<char>)
    requires
        json_numeral(t),
    ensures
        forall|k: int| 0 <= k < t.len() ==> is_number_char(#[trigger] t[k]),
        t.len() > 0,
        t[0] == '-' || is_ascii_digit(t[0]),
{
    let a = if t.len() > 0 && t[0] == '-' {
        1int
    } else {
        0int
    };
    let b = digits_end(t, a);
    lemma_digits_end(t, a);
    assert(is_ascii_digit(t[a]));
    let d = if b < t.len() && t[b] == '.' {
        digits_end(t, b + 1)
    } else {
        b
    };
    if b < t.len() && t[b] == '.' {
        lemma_digits_end(t, b + 1);
    }
    if d < t.len() {
        let f = if d + 1 < t.len() && is_sign(t[d + 1]) {
            d + 2
        } else {
            d + 1
        };
        lemma_digits_end(t, f);
    }
}

proof fn lemma_number_end(s: Seq<char>, i: int, n: int)
    requires
        0 <= i,
        0 <= n,
        i + n <= s.len(),
        forall|k: int| i <= k < i + n ==> is_number_char(#[trigger] s[k]),
        i + n == s.len() || !is_number_char(s[i + n]),
    ensures
        number_end(s, i) == i + n,
    decreases n,
{
    if n > 0 {
        lemma_number_end(s, i + 1, n - 1);
    }
}

proof fn lemma_print_start(j: Json)
    requires
        printable(j),
    ensures
        print_json(j).len() > 0,
        !is_json_ws(print_json(j)[0]),
        print_json(j)[0] != ']',
        print_json(j)[0] != '}',
        print_json(j)[0] != ',',
{
    match j {
        Json::Number(t) => {
            lemma_json_numeral_chars(t);
        },
        Json::Str(t) => {
            assert(quote(t)[0] == '"');
        },
        Json::Array(es) => {
            assert(print_json(j)[0] == '[');
        },
        Json::Object(ms) => {
            assert(print_json(j)[0] == '{');
        },
        _ => {},
    }
}

/// The printed text of a value, followed by a character that cannot
/// continue a numeral, parses back to the value.
#[verifier::spinoff_prover]
#[verifier::rlimit(40)]
pub proof fn lemma_parse_printed(j: Json, s: Seq<char>, i: int)
    requires
        printable(j),
        starts_with_at(s, i, print_json(j)),
        i + print_json(j).len() == s.len() || !is_number_char(s[i + print_json(j).len()]),
    ensures
        spec_parse_value(s, i) == Ok::<(Json, int), Seq<char>>((j, i + print_json(j).len())),
    decreases j,
{
    let p = print_json(j);
    lemma_print_start(j);
    lemma_starts_with_at_index(s, i, p, 0);
    lemma_ws_end(s, i);
    assert(ws_end(s, i) == i);
    match j {
        Json::Null => {
            assert(spec_parse_null(s, i) == Ok::<(Json, int), Seq<char>>((Json::Null, i + 4)));
        },
        Json::Bool(b) => {
            if b {
                assert(spec_parse_bool(s, i) == Ok::<(Json, int), Seq<char>>((j, i + 4)));
            } else {
                assert(s.subrange(i, i + 4)[0] == 'f');
                assert(s.subrange(i, i + 4) != seq!['t', 'r', 'u', 'e']);
                assert(spec_parse_bool(s, i) == Ok::<(Json, int), Seq<char>>((j, i + 5)));
            }
        },
        Json::Number(t) => {
            lemma_json_numeral_chars(t);
            assert forall|k: int| i <= k < i + t.len() implies is_number_char(#[trigger] s[k]) by {
                lemma_starts_with_at_index(s, i, t, k - i);
            }
            lemma_number_end(s, i, t.len() as int);
            assert(spec_parse_number(s, i) == Ok::<(Json, int), Seq<char>>((j, i + t.len())));
        },
        Json::Str(t) => {
            let e = escape_text(t);
            assert(p =~= seq!['"'] + (e + seq!['"']));
            lemma_starts_with_split(s, i, seq!['"'], e + seq!['"']);
            lemma_decode_escaped(t, s, i + 1, seq![]);
            assert(seq![] + t =~= t);
        },
        Json::Array(es) => {
            let body = join(print_elements(es));
            assert(p =~= seq!['['] + (body + seq![']']));
            lemma_starts_with_split(s, i, seq!['['], body + seq![']']);
            if es.len() == 0 {
                assert(body =~= Seq::<char>::empty());
                lemma_starts_with_at_index(s, i + 1, body + seq![']'], 0);
                lemma_ws_end(s, i + 1);
                assert(es =~= Seq::<Json>::empty());
            } else {
                lemma_collect_printed_elements(es, s, i + 1, seq![]);
                assert(seq![] + es =~= es);
            }
        },
        Json::Object(ms) => {
            let body = join(print_members(ms));
            assert(p =~= seq!['{'] + (body + seq!['}']));
            lemma_starts_with_split(s, i, seq!['{'], body + seq!['}']);
            if ms.len() == 0 {
                assert(body =~= Seq::<char>::empty());
                lemma_starts_with_at_index(s, i + 1, body + seq!['}'], 0);
                lemma_ws_end(s, i + 1);
                assert(ms =~= Seq::<(Seq<char>, Json)>::empty());
            } else {
                lemma_collect_printed_members(ms, s, i + 1, seq![]);
                assert(seq![] + ms =~= ms);
            }
        },
    }
}

#[verifier::spinoff_prover]
#[verifier::rlimit(40)]
proof fn lemma_collect_printed_elements(es: Seq<Json>, s: Seq<char>, i: int, acc: Seq<Json>)
    requires
        all_printable(es),
        es.len() > 0,
        starts_with_at(s, i, join(print_elements(es)) + seq![']']),
    ensures
        spec_collect_array_elements(s, i, acc, false) == Ok::<(Json, int), Seq<char>>(
            (Json::Array(acc + es), i + join(print_elements(es)).len() + 1),
        ),
    decreases es,
{
    let pe = print_elements(es);
    lemma_ws_end(s, i);
    {
        let p0 = print_json(es[0]);
        let rest = es.subrange(1, es.len() as int);
        let pr = print_elements(rest);
        assert(pe[0] == p0);
        assert(pe.subrange(1, pe.len() as int) =~= pr);
        lemma_join_front(pe);
        lemma_print_start(es[0]);
        let tail = if es.len() == 1 {
            seq![']']
        } else {
            seq![','] + (join(pr) + seq![']'])
        };
        assert(join(pe) + seq![']'] =~= p0 + tail);
        lemma_starts_with_split(s, i, p0, tail);
        let m = i + p0.len();
        lemma_starts_with_at_index(s, i, p0, 0);
        lemma_starts_with_at_index(s, m, tail, 0);
        assert(ws_end(s, i) == i);
        lemma_parse_printed(es[0], s, i);
        lemma_ws_end(s, m);
        assert(ws_end(s, m) == m);
        assert(acc.push(es[0]) + rest =~= acc + es);
        assert(spec_collect_array_elements(s, i, acc, false) == spec_collect_array_elements(
            s,
            m,
            acc.push(es[0]),
            true,
        ));
        if es.len() == 1 {
            assert(rest.len() == 0);
            assert(acc.push(es[0]) =~= acc + es);
        } else {
            lemma_starts_with_split(s, m, seq![','], join(pr) + seq![']']);
            lemma_collect_printed_elements(rest, s, m + 1, acc.push(es[0]));
        }
    }
}

#[verifier::spinoff_prover]
#[verifier::rlimit(40)]
proof fn lemma_collect_printed_members(
    ms: Seq<(Seq<char>, Json)>,
    s: Seq<char>,
    i: int,
    acc: Seq<(Seq<char>, Json)>,
)
    requires
        all_printable_members(ms),
        ms.len() > 0,
        starts_with_at(s, i, join(print_members(ms)) + seq!['}']),
    ensures
        spec_collect_object_members(s, i, acc, false) == Ok::<(Json, int), Seq<char>>(
            (Json::Object(acc + ms), i + join(print_members(ms)).len() + 1),
        ),
    decreases ms,
{
    let pm = print_members(ms);
    lemma_ws_end(s, i);
    {
        let key = ms[0].0;
        let v = ms[0].1;
        let pv = print_json(v);
        let e = escape_text(key);
        let p0 = quote(key) + seq![':'] + pv;
        let rest = ms.subrange(1, ms.len() as int);
        let pr = print_members(rest);
        assert(pm[0] == p0);
        assert(pm.subrange(1, pm.len() as int) =~= pr);
        lemma_join_front(pm);
        lemma_print_start(v);
        let tail = if ms.len() == 1 {
            seq!['}']
        } else {
            seq![','] + (join(pr) + seq!['}'])
        };
        assert(join(pm) + seq!['}'] =~= seq!['"'] + ((e + seq!['"']) + (seq![':'] + (pv + tail))));
        lemma_starts_with_split(s, i, seq!['"'], (e + seq!['"']) + (seq![':'] + (pv + tail)));
        lemma_starts_with_split(s, i + 1, e + seq!['"'], seq![':'] + (pv + tail));
        let k = i + 1 + e.len() + 1;
        lemma_starts_with_split(s, k, seq![':'], pv + tail);
        lemma_starts_with_split(s, k + 1, pv, tail);
        let m = k + 1 + pv.len();
        lemma_starts_with_at_index(s, i, seq!['"'], 0);
        lemma_starts_with_at_index(s, k, seq![':'], 0);
        lemma_starts_with_at_index(s, m, tail, 0);
        assert(ws_end(s, i) == i);
        lemma_decode_escaped(key, s, i + 1, seq![]);
        assert(seq![] + key =~= key);
        lemma_ws_end(s, k);
        assert(ws_end(s, k) == k);
        lemma_parse_printed(v, s, k + 1);
        lemma_ws_end(s, m);
        assert(ws_end(s, m) == m);
        assert(acc.push((key, v)) + rest =~= acc + ms);
        assert(p0.len() == m - i);
        assert(spec_collect_object_members(s, i, acc, false) == spec_collect_object_members(
            s,
            m,
            acc.push((key, v)),
            true,
        ));
        if ms.len() == 1 {
            assert(rest.len() == 0);
            assert(acc.push((key, v)) =~= acc + ms);
        } else {
            lemma_starts_with_split(s, m, seq![','], join(pr) + seq!['}']);
            lemma_collect_printed_members(rest, s, m + 1, acc.push((key, v)));
        }
    }
}

/// `JSON.parse` reads back every value in the text `JSON.stringify` writes
/// for it.
pub proof fn law_json_round_trip(j: Json)
    requires
        printable(j),
    ensures
        spec_parse_json(print_json(j)) == Ok::<Json, Seq<char>>(j),
{
    let p = print_json(j);
    assert(p.subrange(0, p.len() as int) =~= p);
    lemma_parse_printed(j, p, 0);
    lemma_ws_end(p, p.len() as int);
}


proof fn lemma_ws_end_run(s: Seq<char>, i: int, m: int)
    requires
        0 <= i <= m <= s.len(),
        forall|k: int| i <= k < m ==> is_json_ws(#[trigger] s[k]),
        m == s.len() || !is_json_ws(s[m]),
    ensures
        ws_end(s, i) == m,
    decreases m - i,
{
    if i < m {
        lemma_ws_end_run(s, i + 1, m);
    }
}

/// Spaces, tabs, line feeds and carriage returns before and after the text
/// `JSON.stringify` writes change nothing `JSON.parse` reads from it.
pub proof fn law_parse_ignores_surrounding_white_space(j: Json, w1: Seq<char>, w2: Seq<char>)
    requires
        printable(j),
        forall|i: int| 0 <= i < w1.len() ==> #[trigger] w1[i] == ' ' || w1[i] == '\t' || w1[i] == '\n' || w1[i] == '\r',
        forall|i: int| 0 <= i < w2.len() ==> #[trigger] w2[i] == ' ' || w2[i] == '\t' || w2[i] == '\n' || w2[i] == '\r',
    ensures
        spec_parse_json(w1 + print_json(j) + w2) == Ok::<Json, Seq<char>>(j),
{
    let p = print_json(j);
    let s = w1 + p + w2;
    let m = w1.len() as int;
    let q = m + p.len();
    lemma_print_start(j);
    assert(s[m] == p[0]);
    assert forall|k: int| 0 <= k < m implies is_json_ws(#[trigger] s[k]) by {
        assert(s[k] == w1[k]);
    }
    lemma_ws_end_run(s, 0, m);
    lemma_ws_end_run(s, m, m);
    assert(spec_parse_value(s, 0) == spec_parse_value(s, m));
    assert(s.subrange(m, q) =~= p);
    if q < s.len() {
        assert(s[q] == w2[0]);
        assert(!is_number_char(s[q]));
    }
    lemma_parse_printed(j, s, m);
    assert forall|k: int| q <= k < s.len() implies is_json_ws(#[trigger] s[k]) by {
        assert(s[k] == w2[k - q]);
    }
    lemma_ws_end_run(s, q, s.len() as int);
}
} // verus!

verus! {

use crate::array::{spec_looks_like_array, spec_recorded_length};
use crate::coercion::spec_arg_at;
use crate::json::{spec_stringify, spec_json_parse, plan_of, first_string_arg};
use crate::json_text::{render, render_items, render_members};
use crate::object::{ecma_order, first_entries, lemma_ecma_order_within, lemma_first_entries_within};
use crate::number::{is_finite_bits, is_zero_bits, spec_number_to_string};
use crate::number_text::{plain_rendering, law_number_text_is_json_numeral};
use crate::text::spec_decimal;
use crate::value::{Val, HeapV, ObjectV, heap_object, lookup, CompletionV, StepV, SlotV, array_props, runnable, step_refers_back, slot_refers_back};

/// The JSON value `JSON.stringify` writes for `v`: `Ok(None)` where it
/// leaves the value out, `Err` where more than `fuel` objects are nested
/// (as [`render`]).
pub open spec fn json_of(h: HeapV, v: Val, fuel: nat) -> Result<Option<Json>, ()>
    decreases fuel, 0nat,
{
    match v {
        Val::Null => Ok(Some(Json::Null)),
        Val::Boolean(b) => Ok(Some(Json::Bool(b))),
        Val::Number(bits, display) => Ok(Some(
            if is_finite_bits(bits) {
                Json::Number(spec_number_to_string(bits, display))
            } else {
                Json::Null
            },
        )),
        Val::String(s) => Ok(Some(Json::Str(s))),
        Val::Object(id) => match heap_object(h, id) {
            None => Ok(None),
            Some(o) => if fuel == 0 {
                Err(())
            } else if spec_looks_like_array(o) {
                match json_items(h, o, (fuel - 1) as nat, spec_recorded_length(o) as nat) {
                    Ok(es) => Ok(Some(Json::Array(es))),
                    Err(()) => Err(()),
                }
            } else {
                match json_members(h, ecma_order(first_entries(o.properties)), (fuel - 1) as nat, ecma_order(first_entries(o.properties)).len()) {
                    Ok(ms) => Ok(Some(Json::Object(ms))),
                    Err(()) => Err(()),
                }
            },
        },
        _ => Ok(None),
    }
}

pub open spec fn json_items(h: HeapV, o: ObjectV, fuel: nat, n: nat) -> Result<Seq<Json>, ()>
    decreases fuel, n + 1,
{
    if n == 0 {
        Ok(seq![])
    } else {
        match json_items(h, o, fuel, (n - 1) as nat) {
            Err(()) => Err(()),
            Ok(es) => match lookup(o.properties, spec_decimal((n - 1) as nat)) {
                None => Ok(es.push(Json::Null)),
                Some(v) => match json_of(h, v, fuel) {
                    Err(()) => Err(()),
                    Ok(None) => Ok(es.push(Json::Null)),
                    Ok(Some(j)) => Ok(es.push(j)),
                },
            },
        }
    }
}

pub open spec fn json_members(h: HeapV, ps: Seq<(Seq<char>, Val)>, fuel: nat, n: nat) -> Result<Seq<(Seq<char>, Json)>, ()>
    decreases fuel, n + 1,
{
    if n == 0 || n > ps.len() {
        Ok(seq![])
    } else {
        match json_members(h, ps, fuel, (n - 1) as nat) {
            Err(()) => Err(()),
            Ok(ms) => match json_of(h, ps[n - 1].1, fuel) {
                Err(()) => Err(()),
                Ok(None) => Ok(ms),
                Ok(Some(j)) => Ok(ms.push((ps[n - 1].0, j))),
            },
        }
    }
}

pub open spec fn printed(r: Result<Option<Json>, ()>) -> Result<Option<Seq<char>>, ()> {
    match r {
        Err(()) => Err(()),
        Ok(None) => Ok(None),
        Ok(Some(j)) => Ok(Some(print_json(j))),
    }
}

proof fn lemma_print_elements_push(es: Seq<Json>, x: Json)
    ensures
        print_elements(es.push(x)) == print_elements(es).push(print_json(x)),
    decreases es.len(),
{
    let e2 = es.push(x);
    if es.len() == 0 {
        assert(e2.subrange(1, 1) =~= Seq::<Json>::empty());
        assert(print_elements(e2.subrange(1, 1)) == Seq::<Seq<char>>::empty());
        assert(e2[0] == x);
        assert(print_elements(e2) =~= seq![print_json(x)]);
    } else {
        let rest = es.subrange(1, es.len() as int);
        lemma_print_elements_push(rest, x);
        assert(e2.subrange(1, e2.len() as int) =~= rest.push(x));
        assert(print_elements(e2) =~= print_elements(es).push(print_json(x)));
    }
}

proof fn lemma_print_members_push(ms: Seq<(Seq<char>, Json)>, m: (Seq<char>, Json))
    ensures
        print_members(ms.push(m)) == print_members(ms).push(quote(m.0) + seq![':'] + print_json(m.1)),
    decreases ms.len(),
{
    let m2 = ms.push(m);
    if ms.len() == 0 {
        assert(m2.subrange(1, 1) =~= Seq::<(Seq<char>, Json)>::empty());
        assert(print_members(m2.subrange(1, 1)) == Seq::<Seq<char>>::empty());
        assert(m2[0] == m);
        assert(print_members(m2) =~= seq![quote(m.0) + seq![':'] + print_json(m.1)]);
    } else {
        let rest = ms.subrange(1, ms.len() as int);
        lemma_print_members_push(rest, m);
        assert(m2.subrange(1, m2.len() as int) =~= rest.push(m));
        assert(print_members(m2) =~= print_members(ms).push(quote(m.0) + seq![':'] + print_json(m.1)));
    }
}

/// `JSON.stringify` writes the printed form of the value [`json_of`] gives.
pub proof fn lemma_render_is_printed(h: HeapV, v: Val, fuel: nat)
    ensures
        render(h, v, fuel) == printed(json_of(h, v, fuel)),
    decreases fuel, 0nat,
{
    reveal_strlit("null");
    reveal_strlit("true");
    reveal_strlit("false");
    assert("null"@ =~= seq!['n', 'u', 'l', 'l']);
    assert("true"@ =~= seq!['t', 'r', 'u', 'e']);
    assert("false"@ =~= seq!['f', 'a', 'l', 's', 'e']);
    match v {
        Val::Object(id) => match heap_object(h, id) {
            None => {},
            Some(o) => if fuel > 0 {
                if spec_looks_like_array(o) {
                    lemma_render_items(h, o, (fuel - 1) as nat, spec_recorded_length(o) as nat);
                } else {
                    lemma_render_members(h, ecma_order(first_entries(o.properties)), (fuel - 1) as nat, ecma_order(first_entries(o.properties)).len());
                }
            },
        },
        _ => {},
    }
}

proof fn lemma_render_items(h: HeapV, o: ObjectV, fuel: nat, n: nat)
    ensures
        render_items(h, o, fuel, n) == (match json_items(h, o, fuel, n) {
            Err(()) => Err::<Seq<Seq<char>>, ()>(()),
            Ok(es) => Ok(print_elements(es)),
        }),
    decreases fuel, n + 1,
{
    reveal_strlit("null");
    assert("null"@ =~= seq!['n', 'u', 'l', 'l']);
    if n == 0 {
        assert(print_elements(Seq::<Json>::empty()) =~= Seq::<Seq<char>>::empty());
    } else {
        lemma_render_items(h, o, fuel, (n - 1) as nat);
        if let Ok(es) = json_items(h, o, fuel, (n - 1) as nat) {
            lemma_print_elements_push(es, Json::Null);
            if let Some(v) = lookup(o.properties, spec_decimal((n - 1) as nat)) {
                lemma_render_is_printed(h, v, fuel);
                if let Ok(Some(j)) = json_of(h, v, fuel) {
                    lemma_print_elements_push(es, j);
                }
            }
        }
    }
}

proof fn lemma_render_members(h: HeapV, ps: Seq<(Seq<char>, Val)>, fuel: nat, n: nat)
    ensures
        render_members(h, ps, fuel, n) == (match json_members(h, ps, fuel, n) {
            Err(()) => Err::<Seq<Seq<char>>, ()>(()),
            Ok(ms) => Ok(print_members(ms)),
        }),
    decreases fuel, n + 1,
{
    if n == 0 || n > ps.len() {
        assert(print_members(Seq::<(Seq<char>, Json)>::empty()) =~= Seq::<Seq<char>>::empty());
    } else {
        lemma_render_members(h, ps, fuel, (n - 1) as nat);
        if let Ok(ms) = json_members(h, ps, fuel, (n - 1) as nat) {
            lemma_render_is_printed(h, ps[n - 1].1, fuel);
            if let Ok(Some(j)) = json_of(h, ps[n - 1].1, fuel) {
                lemma_print_members_push(ms, (ps[n - 1].0, j));
            }
        }
    }
}

/// `JSON.parse` of what `JSON.stringify` returns for a value builds the
/// JSON tree that value denotes, provided each number in it is written as
/// a numeral.
pub proof fn law_parse_after_stringify(h: HeapV, args: Seq<Val>, j: Json)
    requires
        json_of(h, spec_arg_at(args, 0), h.objects.len()) == Ok::<Option<Json>, ()>(Some(j)),
        printable(j),
    ensures
        spec_stringify(h, args) == Some(Val::String(print_json(j))),
        spec_json_parse(seq![Val::String(print_json(j))]) == CompletionV::Normal(plan_of(j)),
{
    lemma_render_is_printed(h, spec_arg_at(args, 0), h.objects.len());
    law_json_round_trip(j);
    assert(first_string_arg(seq![Val::String(print_json(j))]) == print_json(j));
}

/// Every step from `base` on allocates an object whose fresh slots name
/// allocations before it (counting steps from `base`).
pub open spec fn objects_refer_back(st: Seq<StepV>, base: nat) -> bool {
    forall|t: int| 0 <= t < st.len() ==> (#[trigger] st[t] matches StepV::NewObject(ps) && props_below(ps, base + t))
}

/// Each fresh slot among `ps` names a step before `n`.
pub open spec fn props_below(ps: Seq<(Seq<char>, SlotV)>, n: int) -> bool {
    forall|j: int| 0 <= j < ps.len() ==> ((#[trigger] ps[j]).1 matches SlotV::Fresh(k) ==> k < n)
}

pub open spec fn slots_below(sl: Seq<SlotV>, n: nat) -> bool {
    forall|i: int| 0 <= i < sl.len() ==> ((#[trigger] sl[i]) matches SlotV::Fresh(k) ==> k < n)
}

proof fn lemma_flatten_refers_back(j: Json, base: nat)
    ensures
        objects_refer_back(flatten(j, base).0, base),
        flatten(j, base).1 matches SlotV::Fresh(k) ==> k < base + flatten(j, base).0.len(),
    decreases j,
{
    match j {
        Json::Array(es) => {
            lemma_flatten_elements_refer_back(es, base);
            let inner = flatten_elements(es, base);
            let st = flatten(j, base).0;
            let ps = array_props(inner.1);
            assert forall|t: int| 0 <= t < st.len() implies (#[trigger] st[t] matches StepV::NewObject(qs) && props_below(qs, base + t)) by {
                if t < inner.0.len() {
                    assert(st[t] == inner.0[t]);
                } else {
                    assert(st[t] == StepV::NewObject(ps));
                    assert forall|i: int| 0 <= i < ps.len() implies ((#[trigger] ps[i]).1 matches SlotV::Fresh(k) ==> k < base + t) by {
                        if i < inner.1.len() {
                            assert(ps[i].1 == inner.1[i]);
                        }
                    }
                }
            }
        },
        Json::Object(ms) => {
            lemma_flatten_members_refer_back(ms, base);
            let inner = flatten_members(ms, base);
            let st = flatten(j, base).0;
            let ps = member_props(ms, inner.1);
            assert forall|t: int| 0 <= t < st.len() implies (#[trigger] st[t] matches StepV::NewObject(qs) && props_below(qs, base + t)) by {
                if t < inner.0.len() {
                    assert(st[t] == inner.0[t]);
                } else {
                    assert(st[t] == StepV::NewObject(ps));
                    assert forall|i: int| 0 <= i < ps.len() implies ((#[trigger] ps[i]).1 matches SlotV::Fresh(k) ==> k < base + t) by {
                        assert(ps[i].1 == inner.1[i]);
                    }
                }
            }
        },
        _ => {},
    }
}

proof fn lemma_flatten_elements_refer_back(es: Seq<Json>, base: nat)
    ensures
        objects_refer_back(flatten_elements(es, base).0, base),
        slots_below(flatten_elements(es, base).1, base + flatten_elements(es, base).0.len()),
        flatten_elements(es, base).1.len() == es.len(),
    decreases es,
{
    if es.len() > 0 {
        let init = es.subrange(0, es.len() - 1);
        lemma_flatten_elements_refer_back(init, base);
        let rest = flatten_elements(init, base);
        let b2 = base + rest.0.len();
        lemma_flatten_refers_back(es[es.len() - 1], b2);
        let last = flatten(es[es.len() - 1], b2);
        let st = rest.0 + last.0;
        assert forall|t: int| 0 <= t < st.len() implies (#[trigger] st[t] matches StepV::NewObject(qs) && props_below(qs, base + t)) by {
            if t < rest.0.len() {
                assert(st[t] == rest.0[t]);
            } else {
                assert(st[t] == last.0[t - rest.0.len()]);
            }
        }
        let sl = rest.1.push(last.1);
        assert forall|i: int| 0 <= i < sl.len() implies ((#[trigger] sl[i]) matches SlotV::Fresh(k) ==> k < base + st.len()) by {
            if i < rest.1.len() {
                assert(sl[i] == rest.1[i]);
            }
        }
    }
}

proof fn lemma_flatten_members_refer_back(ms: Seq<(Seq<char>, Json)>, base: nat)
    ensures
        objects_refer_back(flatten_members(ms, base).0, base),
        slots_below(flatten_members(ms, base).1, base + flatten_members(ms, base).0.len()),
        flatten_members(ms, base).1.len() == ms.len(),
    decreases ms,
{
    if ms.len() > 0 {
        let init = ms.subrange(0, ms.len() - 1);
        lemma_flatten_members_refer_back(init, base);
        let rest = flatten_members(init, base);
        let b2 = base + rest.0.len();
        lemma_flatten_refers_back(ms[ms.len() - 1].1, b2);
        let last = flatten(ms[ms.len() - 1].1, b2);
        let st = rest.0 + last.0;
        assert forall|t: int| 0 <= t < st.len() implies (#[trigger] st[t] matches StepV::NewObject(qs) && props_below(qs, base + t)) by {
            if t < rest.0.len() {
                assert(st[t] == rest.0[t]);
            } else {
                assert(st[t] == last.0[t - rest.0.len()]);
            }
        }
        let sl = rest.1.push(last.1);
        assert forall|i: int| 0 <= i < sl.len() implies ((#[trigger] sl[i]) matches SlotV::Fresh(k) ==> k < base + st.len()) by {
            if i < rest.1.len() {
                assert(sl[i] == rest.1[i]);
            }
        }
    }
}

/// The plan `JSON.parse` returns can be run in order: every object it
/// allocates refers only to objects allocated before it, and its result
/// names one of them.
pub proof fn law_parse_plans_are_runnable(args: Seq<Val>)
    ensures
        spec_json_parse(args) matches CompletionV::Normal(p) ==> runnable(p),
{
    if let Ok(j) = spec_parse_json(first_string_arg(args)) {
        lemma_flatten_refers_back(j, 0);
        let p = plan_of(j);
        assert forall|i: nat| i < p.steps.len() implies #[trigger] step_refers_back(p.steps, i) by {
            assert(p.steps[i as int] matches StepV::NewObject(qs) && props_below(qs, i as int));
            if let StepV::NewObject(qs) = p.steps[i as int] {
                assert forall|t: int| 0 <= t < qs.len() implies slot_refers_back(p.steps, (#[trigger] qs[t]).1, i) by {
                    if let SlotV::Fresh(k) = qs[t].1 {
                        assert(p.steps[k as int] is NewObject);
                    }
                }
            }
        }
        if let SlotV::Fresh(k) = p.result {
            assert(p.steps[k as int] is NewObject);
        }
    }
}

/// A ranking of the heap's objects, each below `bound`, that every data
/// property holding an object of the heap lowers: what an object graph
/// without cycles admits.
pub open spec fn ranked(h: HeapV, rank: spec_fn(u64) -> nat, bound: nat) -> bool {
    forall|id: u64|
        (#[trigger] heap_object(h, id)) is Some ==> rank(id) < bound && children_below(
            h,
            rank,
            heap_object(h, id)->Some_0,
            rank(id),
        )
}

/// `v` is not an object of the heap, or one ranked below `r`.
pub open spec fn leads_below(h: HeapV, rank: spec_fn(u64) -> nat, v: Val, r: nat) -> bool {
    match v {
        Val::Object(c) => heap_object(h, c) is Some ==> rank(c) < r,
        _ => true,
    }
}

proof fn lemma_lookup_is_a_value<T>(ps: Seq<(Seq<char>, T)>, k: Seq<char>)
    ensures
        lookup(ps, k) matches Some(v) ==> exists|i: int| 0 <= i < ps.len() && (#[trigger] ps[i]).1 == v,
    decreases ps.len(),
{
    if ps.len() > 0 && ps[0].0 != k {
        lemma_lookup_is_a_value(ps.drop_first(), k);
        if let Some(v) = lookup(ps, k) {
            let i = choose|i: int| 0 <= i < ps.drop_first().len() && (#[trigger] ps.drop_first()[i]).1 == v;
            assert(ps[i + 1] == ps.drop_first()[i]);
        }
    }
}

/// The values `o` lists all lead to objects ranked below `r`.
pub open spec fn children_below(h: HeapV, rank: spec_fn(u64) -> nat, o: ObjectV, r: nat) -> bool {
    forall|i: int| 0 <= i < o.properties.len() ==> leads_below(h, rank, (#[trigger] o.properties[i]).1, r)
}

proof fn lemma_render_ok(h: HeapV, rank: spec_fn(u64) -> nat, v: Val, fuel: nat)
    requires
        ranked(h, rank, h.objects.len()),
        leads_below(h, rank, v, fuel),
    ensures
        render(h, v, fuel) is Ok,
    decreases fuel, 0nat,
{
    if let Val::Object(id) = v {
        if let Some(o) = heap_object(h, id) {
            assert(rank(id) < fuel);
            assert(children_below(h, rank, o, rank(id)));
            assert(children_below(h, rank, o, (fuel - 1) as nat)) by {
                assert forall|i: int| 0 <= i < o.properties.len() implies leads_below(
                    h,
                    rank,
                    (#[trigger] o.properties[i]).1,
                    (fuel - 1) as nat,
                ) by {
                    assert(leads_below(h, rank, o.properties[i].1, rank(id)));
                }
            }
            if spec_looks_like_array(o) {
                lemma_items_ok(h, rank, o, (fuel - 1) as nat, spec_recorded_length(o) as nat);
            } else {
                let eo = ecma_order(first_entries(o.properties));
                let fe = first_entries(o.properties);
                lemma_ecma_order_within(fe);
                lemma_first_entries_within(o.properties);
                assert forall|i: int| 0 <= i < eo.len() implies leads_below(
                    h,
                    rank,
                    (#[trigger] eo[i]).1,
                    (fuel - 1) as nat,
                ) by {
                    assert(fe.contains(eo[i]));
                    let m = choose|m: int| 0 <= m < fe.len() && fe[m] == eo[i];
                    assert(o.properties.contains(fe[m]));
                    let k = choose|k: int| 0 <= k < o.properties.len() && o.properties[k] == eo[i];
                    assert(leads_below(h, rank, o.properties[k].1, (fuel - 1) as nat));
                }
                lemma_members_ok(h, rank, eo, (fuel - 1) as nat, eo.len());
            }
        }
    }
}

proof fn lemma_items_ok(h: HeapV, rank: spec_fn(u64) -> nat, o: ObjectV, fuel: nat, n: nat)
    requires
        ranked(h, rank, h.objects.len()),
        children_below(h, rank, o, fuel),
    ensures
        render_items(h, o, fuel, n) is Ok,
    decreases fuel, n + 1,
{
    if n > 0 {
        lemma_items_ok(h, rank, o, fuel, (n - 1) as nat);
        let key = spec_decimal((n - 1) as nat);
        lemma_lookup_is_a_value(o.properties, key);
        if let Some(v) = lookup(o.properties, key) {
            let i = choose|i: int| 0 <= i < o.properties.len() && (#[trigger] o.properties[i]).1 == v;
            assert(o.properties[i].1 == v);
            lemma_render_ok(h, rank, v, fuel);
        }
    }
}

proof fn lemma_members_ok(h: HeapV, rank: spec_fn(u64) -> nat, ps: Seq<(Seq<char>, Val)>, fuel: nat, n: nat)
    requires
        ranked(h, rank, h.objects.len()),
        forall|i: int| 0 <= i < ps.len() ==> leads_below(h, rank, (#[trigger] ps[i]).1, fuel),
    ensures
        render_members(h, ps, fuel, n) is Ok,
    decreases fuel, n + 1,
{
    if n > 0 && n <= ps.len() {
        lemma_members_ok(h, rank, ps, fuel, (n - 1) as nat);
        assert(leads_below(h, rank, ps[n - 1].1, fuel));
        lemma_render_ok(h, rank, ps[n - 1].1, fuel);
    }
}

/// `JSON.stringify` answers (a string, or `undefined`) on every heap whose
/// objects can be ranked so that each object's data properties lead to
/// lower ranks, that is on every heap without a cycle; it refuses only a
/// cyclic structure.
pub proof fn law_stringify_answers_without_cycles(h: HeapV, rank: spec_fn(u64) -> nat, args: Seq<Val>)
    requires
        ranked(h, rank, h.objects.len()),
    ensures
        spec_stringify(h, args) is Some,
{
    let v = spec_arg_at(args, 0);
    if let Val::Object(id) = v {
        if let Some(o) = heap_object(h, id) {
            assert(rank(id) < h.objects.len());
        }
    }
    lemma_render_ok(h, rank, v, h.objects.len());
}


/// A number's decimal rendering, where `JSON.stringify` lays its text out
/// from it (finite and nonzero), has the plain shape.
pub open spec fn renders_plainly(v: Val) -> bool {
    match v {
        Val::Number(b, t) => (is_finite_bits(b) && !is_zero_bits(b)) ==> plain_rendering(t),
        _ => true,
    }
}

/// Every data property of `o` renders plainly.
pub open spec fn object_renders_plainly(o: ObjectV) -> bool {
    forall|j: int| 0 <= j < o.properties.len() ==> renders_plainly(#[trigger] o.properties[j].1)
}

/// Every object of the heap renders plainly.
pub open spec fn heap_renders_plainly(h: HeapV) -> bool {
    forall|id: u64| (#[trigger] heap_object(h, id)) is Some ==> object_renders_plainly(heap_object(h, id)->Some_0)
}

pub open spec fn printable_result(r: Result<Option<Json>, ()>) -> bool {
    match r {
        Ok(Some(j)) => printable(j),
        _ => true,
    }
}

proof fn lemma_all_printable_push(es: Seq<Json>, x: Json)
    ensures
        all_printable(es.push(x)) == (all_printable(es) && printable(x)),
    decreases es.len(),
{
    let e2 = es.push(x);
    if es.len() == 0 {
        assert(e2.subrange(1, 1) =~= Seq::<Json>::empty());
        assert(all_printable(Seq::<Json>::empty()));
        assert(e2[0] == x);
        assert(all_printable(e2) == (printable(e2[0]) && all_printable(e2.subrange(1, 1))));
    } else {
        let rest = es.subrange(1, es.len() as int);
        lemma_all_printable_push(rest, x);
        assert(e2.subrange(1, e2.len() as int) =~= rest.push(x));
        assert(e2[0] == es[0]);
        assert(all_printable(e2) == (printable(e2[0]) && all_printable(e2.subrange(1, e2.len() as int))));
        assert(all_printable(es) == (printable(es[0]) && all_printable(rest)));
    }
}

proof fn lemma_all_printable_members_push(ms: Seq<(Seq<char>, Json)>, m: (Seq<char>, Json))
    ensures
        all_printable_members(ms.push(m)) == (all_printable_members(ms) && printable(m.1)),
    decreases ms.len(),
{
    let m2 = ms.push(m);
    if ms.len() == 0 {
        assert(m2.subrange(1, 1) =~= Seq::<(Seq<char>, Json)>::empty());
        assert(all_printable_members(Seq::<(Seq<char>, Json)>::empty()));
        assert(m2[0] == m);
        assert(all_printable_members(m2) == (printable(m2[0].1) && all_printable_members(m2.subrange(1, 1))));
    } else {
        let rest = ms.subrange(1, ms.len() as int);
        lemma_all_printable_members_push(rest, m);
        assert(m2.subrange(1, m2.len() as int) =~= rest.push(m));
        assert(m2[0] == ms[0]);
        assert(all_printable_members(m2) == (printable(m2[0].1) && all_printable_members(m2.subrange(1, m2.len() as int))));
        assert(all_printable_members(ms) == (printable(ms[0].1) && all_printable_members(rest)));
    }
}

proof fn lemma_json_of_printable(h: HeapV, v: Val, fuel: nat)
    requires
        heap_renders_plainly(h),
        renders_plainly(v),
    ensures
        printable_result(json_of(h, v, fuel)),
    decreases fuel, 0nat,
{
    match v {
        Val::Number(bits, display) => {
            if is_finite_bits(bits) {
                if is_zero_bits(bits) {
                    reveal_strlit("0");
                    assert(digits_end("0"@, 1) == 1);
                } else {
                    law_number_text_is_json_numeral(display);
                }
            }
        },
        Val::Object(id) => {
            if let Some(o) = heap_object(h, id) {
                if fuel > 0 {
                    assert(object_renders_plainly(o));
                    if spec_looks_like_array(o) {
                        lemma_items_printable(h, o, (fuel - 1) as nat, spec_recorded_length(o) as nat);
                    } else {
                        let eo = ecma_order(first_entries(o.properties));
                        let fe = first_entries(o.properties);
                        lemma_ecma_order_within(fe);
                        lemma_first_entries_within(o.properties);
                        assert forall|i: int| 0 <= i < eo.len() implies renders_plainly(#[trigger] eo[i].1) by {
                            assert(fe.contains(eo[i]));
                            let m = choose|m: int| 0 <= m < fe.len() && fe[m] == eo[i];
                            assert(o.properties.contains(fe[m]));
                            let k = choose|k: int| 0 <= k < o.properties.len() && o.properties[k] == eo[i];
                            assert(renders_plainly(o.properties[k].1));
                        }
                        lemma_members_printable(h, eo, (fuel - 1) as nat, eo.len());
                    }
                }
            }
        },
        _ => {},
    }
}

proof fn lemma_items_printable(h: HeapV, o: ObjectV, fuel: nat, n: nat)
    requires
        heap_renders_plainly(h),
        object_renders_plainly(o),
    ensures
        json_items(h, o, fuel, n) matches Ok(es) ==> all_printable(es),
    decreases fuel, n + 1,
{
    if n == 0 {
        assert(all_printable(Seq::<Json>::empty()));
    } else {
        lemma_items_printable(h, o, fuel, (n - 1) as nat);
        if let Ok(es) = json_items(h, o, fuel, (n - 1) as nat) {
            lemma_all_printable_push(es, Json::Null);
            let key = spec_decimal((n - 1) as nat);
            lemma_lookup_is_a_value(o.properties, key);
            if let Some(v) = lookup(o.properties, key) {
                let i = choose|i: int| 0 <= i < o.properties.len() && (#[trigger] o.properties[i]).1 == v;
                assert(renders_plainly(o.properties[i].1));
                lemma_json_of_printable(h, v, fuel);
                if let Ok(Some(j)) = json_of(h, v, fuel) {
                    lemma_all_printable_push(es, j);
                }
            }
        }
    }
}

proof fn lemma_members_printable(h: HeapV, ps: Seq<(Seq<char>, Val)>, fuel: nat, n: nat)
    requires
        heap_renders_plainly(h),
        forall|i: int| 0 <= i < ps.len() ==> renders_plainly(#[trigger] ps[i].1),
    ensures
        json_members(h, ps, fuel, n) matches Ok(ms) ==> all_printable_members(ms),
    decreases fuel, n + 1,
{
    if n == 0 || n > ps.len() {
        assert(all_printable_members(Seq::<(Seq<char>, Json)>::empty()));
    } else {
        lemma_members_printable(h, ps, fuel, (n - 1) as nat);
        if let Ok(ms) = json_members(h, ps, fuel, (n - 1) as nat) {
            assert(renders_plainly(ps[n - 1].1));
            lemma_json_of_printable(h, ps[n - 1].1, fuel);
            if let Ok(Some(j)) = json_of(h, ps[n - 1].1, fuel) {
                lemma_all_printable_members_push(ms, (ps[n - 1].0, j));
            }
        }
    }
}

/// `JSON.parse` of what `JSON.stringify` returns builds the JSON tree the
/// value denotes, wherever each number's decimal rendering has the plain
/// shape (`[-]digits[.digits]`, as `Display` writes a finite double).
pub proof fn law_round_trip_of_plain_renderings(h: HeapV, args: Seq<Val>, j: Json)
    requires
        heap_renders_plainly(h),
        renders_plainly(spec_arg_at(args, 0)),
        json_of(h, spec_arg_at(args, 0), h.objects.len()) == Ok::<Option<Json>, ()>(Some(j)),
    ensures
        spec_stringify(h, args) == Some(Val::String(print_json(j))),
        spec_json_parse(seq![Val::String(print_json(j))]) == CompletionV::Normal(plan_of(j)),
{
    lemma_json_of_printable(h, spec_arg_at(args, 0), h.objects.len());
    law_parse_after_stringify(h, args, j);
}

} // verus!
