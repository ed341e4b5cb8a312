//! What `JSON.stringify` writes: string literals with escapes, and the
//! rendering of a value through the objects it reaches.

use vstd::prelude::*;

use crate::array::{spec_looks_like_array, spec_recorded_length};
use crate::number::{is_finite_bits, spec_number_to_string};
use crate::text::{hex_digit_char, spec_decimal};
use crate::object::{ecma_order, first_entries};
use crate::value::{Val, HeapV, ObjectV, heap_object, lookup};

verus! {

/// Four lower-case hexadecimal digits of `n < 0x10000`.
pub open spec fn hex4(n: nat) -> Seq<char> {
    seq![
        hex_digit_char((n / 0x1000) % 16),
        hex_digit_char((n / 0x100) % 16),
        hex_digit_char((n / 0x10) % 16),
        hex_digit_char(n % 16),
    ]
}

/// How a character is written inside a JSON string literal.
pub open spec fn escape_char(c: char) -> Seq<char> {
    if c == '"' {
        seq!['\\', '"']
    } else if c == '\\' {
        seq!['\\', '\\']
    } else if c == '\n' {
        seq!['\\', 'n']
    } else if c == '\r' {
        seq!['\\', 'r']
    } else if c == '\t' {
        seq!['\\', 't']
    } else if (c as u32) < 0x20 {
        seq!['\\', 'u'] + hex4(c as nat)
    } else {
        seq![c]
    }
}

pub open spec fn escape_text(s: Seq<char>) -> Seq<char>
    decreases s.len(),
{
    if s.len() == 0 {
        seq![]
    } else {
        escape_text(s.subrange(0, s.len() - 1)) + escape_char(s[s.len() - 1])
    }
}

/// The JSON string literal for `s`.
pub open spec fn quote(s: Seq<char>) -> Seq<char> {
    seq!['"'] + escape_text(s) + seq!['"']
}

/// `items` separated by commas.
pub open spec fn join(items: Seq<Seq<char>>) -> Seq<char>
    decreases items.len(),
{
    if items.len() == 0 {
        seq![]
    } else if items.len() == 1 {
        items[0]
    } else {
        join(items.subrange(0, items.len() - 1)) + seq![','] + items[items.len() - 1]
    }
}

/// The text `JSON.stringify` writes for `v`, `Ok(None)` for a value it
/// leaves out (`undefined`, functions, promises, an object missing from
/// the heap), and `Err` once more than `fuel` objects are nested (which
/// only a cycle can cause when `fuel` exceeds the number of objects).
/// A plain object's members come in ECMA-262 key order
/// ([`crate::object::ecma_order`]), as `Object.keys` lists them.
pub open spec fn render(h: HeapV, v: Val, fuel: nat) -> Result<Option<Seq<char>>, ()>
    decreases fuel, 0nat,
{
    match v {
        Val::Null => Ok(Some("null"@)),
        Val::Boolean(b) => Ok(Some(
            if b {
                "true"@
            } else {
                "false"@
            },
        )),
        Val::Number(bits, display) => Ok(Some(
            if is_finite_bits(bits) {
                spec_number_to_string(bits, display)
            } else {
                "null"@
            },
        )),
        Val::String(s) => Ok(Some(quote(s))),
        Val::Object(id) => match heap_object(h, id) {
            None => Ok(None),
            Some(o) => if fuel == 0 {
                Err(())
            } else if spec_looks_like_array(o) {
                match render_items(h, o, (fuel - 1) as nat, spec_recorded_length(o) as nat) {
                    Ok(items) => Ok(Some(seq!['['] + join(items) + seq![']'])),
                    Err(()) => Err(()),
                }
            } else {
                match render_members(h, ecma_order(first_entries(o.properties)), (fuel - 1) as nat, ecma_order(first_entries(o.properties)).len()) {
                    Ok(items) => Ok(Some(seq!['{'] + join(items) + seq!['}'])),
                    Err(()) => Err(()),
                }
            },
        },
        _ => Ok(None),
    }
}

/// The first `n` elements of an array object, each written as `null`
/// where the index is missing or the value is left out.
pub open spec fn render_items(h: HeapV, o: ObjectV, fuel: nat, n: nat) -> Result<Seq<Seq<char>>, ()>
    decreases fuel, n + 1,
{
    if n == 0 {
        Ok(seq![])
    } else {
        match render_items(h, o, fuel, (n - 1) as nat) {
            Err(()) => Err(()),
            Ok(items) => match lookup(o.properties, spec_decimal((n - 1) as nat)) {
                None => Ok(items.push("null"@)),
                Some(v) => match render(h, v, fuel) {
                    Err(()) => Err(()),
                    Ok(None) => Ok(items.push("null"@)),
                    Ok(Some(t)) => Ok(items.push(t)),
                },
            },
        }
    }
}

/// The first `n` of the data properties `ps` of a plain object as
/// `"key":value`, leaving out those whose value is left out.
pub open spec fn render_members(h: HeapV, ps: Seq<(Seq<char>, Val)>, fuel: nat, n: nat) -> Result<Seq<Seq<char>>, ()>
    decreases fuel, n + 1,
{
    if n == 0 || n > ps.len() {
        Ok(seq![])
    } else {
        match render_members(h, ps, fuel, (n - 1) as nat) {
            Err(()) => Err(()),
            Ok(items) => match render(h, ps[n - 1].1, fuel) {
                Err(()) => Err(()),
                Ok(None) => Ok(items),
                Ok(Some(t)) => Ok(items.push(quote(ps[n - 1].0) + seq![':'] + t)),
            },
        }
    }
}

} // verus!
