//! The ECMA-262 abstract operations the built-ins share: `ToString`,
//! `ToNumber`, `ToBoolean`, and argument access.

use vstd::prelude::*;

pub use crate::number::number_to_string;
use crate::number::{JsNumber, spec_number_to_string, is_nan, is_zero, is_nan_bits, is_zero_bits};
use crate::text::{chars_of, string_of, extend, decimal_u64, spec_decimal, trim, spec_trim};
use crate::value::{JsValue, Val, vals};
use crate::json_spec::{digits_end, is_sign};
use crate::json::digits_end_exec;
use crate::numeral::{digit_value, digit_of};
use crate::globals::digit_values;
use crate::json_spec::{is_ascii_digit, json_numeral, is_number_char};
use crate::json_laws::lemma_json_numeral_chars;
use crate::number_text::{plain_rendering, law_number_text_is_json_numeral};
use crate::number::is_finite_bits;
use crate::text::{is_white_space, leading_ws_end, trailing_ws_start};
use crate::number_text::lemma_digits_end_run;
use crate::numeral::lemma_decimal_reads_back;

verus! {

/// The `idx`-th argument, `undefined` past the end.
pub open spec fn spec_arg_at(args: Seq<Val>, idx: int) -> Val {
    if 0 <= idx < args.len() {
        args[idx]
    } else {
        Val::Undefined
    }
}

/// The first argument or `undefined`.
pub fn first_arg(args: &Vec<JsValue>) -> (r: JsValue)
    ensures
        r@ == spec_arg_at(vals(args@), 0),
{
    arg_at(args, 0)
}

/// The `idx`-th argument or `undefined`.
pub fn arg_at(args: &Vec<JsValue>, idx: usize) -> (r: JsValue)
    ensures
        r@ == spec_arg_at(vals(args@), idx as int),
{
    if idx < args.len() {
        args[idx].duplicate()
    } else {
        JsValue::Undefined
    }
}

/// ECMA-262 `ToString` as the runtime renders values (handles render
/// with their raw ids).
pub open spec fn spec_to_string(v: Val) -> Seq<char> {
    match v {
        Val::Undefined => "undefined"@,
        Val::Null => "null"@,
        Val::Boolean(b) => if b {
            "true"@
        } else {
            "false"@
        },
        Val::Number(bits, display) => spec_number_to_string(bits, display),
        Val::String(s) => s,
        Val::Object(id) => "[object Object#"@ + spec_decimal(id as nat) + "]"@,
        Val::Function(id) => "function fn#"@ + spec_decimal(id as nat) + "() { [native code] }"@,
        Val::Native(_) => "function () { [native code] }"@,
        Val::Promise(_) => "[object Promise]"@,
    }
}

/// `ToString(value)` (see [`spec_to_string`]).
pub fn to_string(value: &JsValue) -> (r: String)
    ensures
        r@ == spec_to_string(value@),
{
    match value {
        JsValue::Undefined => "undefined".to_owned(),
        JsValue::Null => "null".to_owned(),
        JsValue::Boolean(b) => if *b {
            "true".to_owned()
        } else {
            "false".to_owned()
        },
        JsValue::Number(n) => number_to_string(n),
        JsValue::String(s) => s.clone(),
        JsValue::Object(id) => {
            let mut v = chars_of("[object Object#");
            extend(&mut v, decimal_u64(*id));
            extend(&mut v, chars_of("]"));
            string_of(&v)
        },
        JsValue::Function(id) => {
            let mut v = chars_of("function fn#");
            extend(&mut v, decimal_u64(*id));
            extend(&mut v, chars_of("() { [native code] }"));
            string_of(&v)
        },
        JsValue::Native(_) => "function () { [native code] }".to_owned(),
        JsValue::Promise(_) => "[object Promise]".to_owned(),
    }
}

/// Where `ToNumber` finds its double: an encoding it knows, a decimal
/// literal (a [`str_decimal_literal`], which the embedder reads with
/// `str::parse::<f64>`), or the digit values of a `0x`, `0o` or `0b`
/// literal in their radix.
pub enum NumberSource {
    Bits(u64),
    Text(String),
    Digits(u32, Vec<u32>),
}

pub enum NumberSourceV {
    Bits(u64),
    Text(Seq<char>),
    Digits(u32, Seq<u32>),
}

impl View for NumberSource {
    type V = NumberSourceV;

    open spec fn view(&self) -> NumberSourceV {
        match self {
            NumberSource::Bits(b) => NumberSourceV::Bits(*b),
            NumberSource::Text(t) => NumberSourceV::Text(t@),
            NumberSource::Digits(r, ds) => NumberSourceV::Digits(*r, ds@),
        }
    }
}

/// The encoding of the quiet NaN the runtime produces.
pub open spec fn nan_bits() -> u64 {
    0x7ff8_0000_0000_0000
}

/// The encoding of `1.0`.
pub open spec fn one_bits() -> u64 {
    0x3ff0_0000_0000_0000
}

/// ECMA-262's `StrDecimalLiteral`: an optional sign, then `Infinity`, or
/// digits with an optional fraction (at least one digit in all) and an
/// optional exponent with at least one digit.
pub open spec fn str_decimal_literal(t: Seq<char>) -> bool {
    let a = if t.len() > 0 && is_sign(t[0]) {
        1int
    } else {
        0int
    };
    let b = digits_end(t, a);
    let c = if b < t.len() && t[b] == '.' {
        b + 1
    } else {
        b
    };
    let d = if b < t.len() && t[b] == '.' {
        digits_end(t, b + 1)
    } else {
        b
    };
    ||| t.subrange(a, t.len() as int) == "Infinity"@
    ||| {
        &&& (b > a || d > c)
        &&& (d == t.len() || (d < t.len() && (t[d] == 'e' || t[d] == 'E') && {
            let f = if d + 1 < t.len() && is_sign(t[d + 1]) {
                d + 2
            } else {
                d + 1
            };
            digits_end(t, f) > f && digits_end(t, f) == t.len()
        }))
    }
}

/// The radix a `0x`, `0o` or `0b` prefix names (`0` for none).
pub open spec fn prefix_radix(t: Seq<char>) -> nat {
    if t.len() >= 2 && t[0] == '0' {
        if t[1] == 'x' || t[1] == 'X' {
            16
        } else if t[1] == 'o' || t[1] == 'O' {
            8
        } else if t[1] == 'b' || t[1] == 'B' {
            2
        } else {
            0
        }
    } else {
        0
    }
}

/// ECMA-262 `StringToNumber` of the trimmed text `t`: `0` when it is
/// empty; a `0x` / `0o` / `0b` literal by its digits; a decimal literal as
/// text; NaN for anything else.
pub open spec fn string_to_number(t: Seq<char>) -> NumberSourceV {
    let r = prefix_radix(t);
    if t.len() == 0 {
        NumberSourceV::Bits(0)
    } else if r != 0 {
        let ds = t.subrange(2, t.len() as int);
        if ds.len() > 0 && forall|k: int| 0 <= k < ds.len() ==> digit_value(#[trigger] ds[k]) < r {
            NumberSourceV::Digits(r as u32, digit_values(ds))
        } else {
            NumberSourceV::Bits(nan_bits())
        }
    } else if str_decimal_literal(t) {
        NumberSourceV::Text(t)
    } else {
        NumberSourceV::Bits(nan_bits())
    }
}

/// ECMA-262 `ToNumber`: NaN for `undefined` and every handle, `0` for
/// `null` and `false`, `1` for `true`, a number itself, and for a string
/// [`string_to_number`] of its trimmed text.
pub open spec fn spec_to_number(v: Val) -> NumberSourceV {
    match v {
        Val::Undefined => NumberSourceV::Bits(nan_bits()),
        Val::Null => NumberSourceV::Bits(0),
        Val::Boolean(b) => if b {
            NumberSourceV::Bits(one_bits())
        } else {
            NumberSourceV::Bits(0)
        },
        Val::Number(bits, _) => NumberSourceV::Bits(bits),
        Val::String(s) => string_to_number(spec_trim(s)),
        _ => NumberSourceV::Bits(nan_bits()),
    }
}

/// Whether `t` is a [`str_decimal_literal`].
pub fn is_str_decimal_literal(t: &Vec<char>) -> (r: bool)
    ensures
        r == str_decimal_literal(t@),
{
    let n = t.len();
    let a: usize = if n > 0 && (t[0] == '+' || t[0] == '-') {
        1
    } else {
        0
    };
    let inf = chars_of("Infinity");
    let rest = slice_from(t, a);
    if crate::value::same_text(string_of(&rest).as_str(), &inf) {
        return true;
    }
    let b = digits_end_exec(t, a);
    let dot = b < n && t[b] == '.';
    let c = if dot {
        b + 1
    } else {
        b
    };
    let d = if dot {
        digits_end_exec(t, b + 1)
    } else {
        b
    };
    if !(b > a || d > c) {
        return false;
    }
    if d == n {
        return true;
    }
    if !(t[d] == 'e' || t[d] == 'E') {
        return false;
    }
    let f = if d + 1 < n && (t[d + 1] == '+' || t[d + 1] == '-') {
        d + 2
    } else {
        d + 1
    };
    let g = digits_end_exec(t, f);
    g > f && g == n
}

/// `t[i..]` as a vector.
fn slice_from(t: &Vec<char>, i: usize) -> (v: Vec<char>)
    requires
        i <= t.len(),
    ensures
        v@ == t@.subrange(i as int, t@.len() as int),
{
    let mut v = Vec::new();
    let mut p = i;
    while p < t.len()
        invariant
            i <= p <= t.len(),
            v@ == t@.subrange(i as int, p as int),
        decreases t.len() - p,
    {
        v.push(t[p]);
        p = p + 1;
        assert(v@ =~= t@.subrange(i as int, p as int));
    }
    v
}

/// `StringToNumber` of a trimmed text (see [`string_to_number`]).
fn text_to_number(t: Vec<char>) -> (r: NumberSource)
    ensures
        r@ == string_to_number(t@),
{
    if t.len() == 0 {
        return NumberSource::Bits(0);
    }
    let r: u32 = if t.len() >= 2 && t[0] == '0' {
        if t[1] == 'x' || t[1] == 'X' {
            16
        } else if t[1] == 'o' || t[1] == 'O' {
            8
        } else if t[1] == 'b' || t[1] == 'B' {
            2
        } else {
            0
        }
    } else {
        0
    };
    assert(r as nat == prefix_radix(t@));
    if r != 0 {
        let ghost ds = t@.subrange(2, t@.len() as int);
        if t.len() == 2 {
            return NumberSource::Bits(0x7ff8_0000_0000_0000);
        }
        let mut values: Vec<u32> = Vec::new();
        let mut p: usize = 2;
        while p < t.len()
            invariant
                2 <= p <= t.len(),
                2 <= r <= 16,
                r as nat == prefix_radix(t@),
                t@.len() > 2,
                ds == t@.subrange(2, t@.len() as int),
                values@ == digit_values(ds.subrange(0, p - 2)),
                forall|k: int| 0 <= k < p - 2 ==> digit_value(#[trigger] ds[k]) < r,
            decreases t.len() - p,
        {
            let d = digit_of(t[p]);
            if d >= r {
                assert(ds[p - 2] == t@[p as int]);
                assert(!(digit_value(ds[p - 2]) < r));
                return NumberSource::Bits(0x7ff8_0000_0000_0000);
            }
            values.push(d);
            p = p + 1;
            assert(ds[p - 3] == t@[p - 1]);
            assert(values@ =~= digit_values(ds.subrange(0, p - 2)));
        }
        assert(ds.subrange(0, ds.len() as int) =~= ds);
        return NumberSource::Digits(r, values);
    }
    if is_str_decimal_literal(&t) {
        NumberSource::Text(string_of(&t))
    } else {
        NumberSource::Bits(0x7ff8_0000_0000_0000)
    }
}

/// `ToNumber(value)` (see [`spec_to_number`]).
pub fn to_number(value: &JsValue) -> (r: NumberSource)
    ensures
        r@ == spec_to_number(value@),
{
    match value {
        JsValue::Undefined => NumberSource::Bits(0x7ff8_0000_0000_0000),
        JsValue::Null => NumberSource::Bits(0),
        JsValue::Boolean(b) => if *b {
            NumberSource::Bits(0x3ff0_0000_0000_0000)
        } else {
            NumberSource::Bits(0)
        },
        JsValue::Number(n) => NumberSource::Bits(n.bits),
        JsValue::String(s) => text_to_number(trim(&chars_of(s.as_str()))),
        _ => NumberSource::Bits(0x7ff8_0000_0000_0000),
    }
}

/// ECMA-262 `ToBoolean`: false for `undefined`, `null`, NaN, both zeros
/// and the empty string; true for every other value.
pub open spec fn spec_to_boolean(v: Val) -> bool {
    match v {
        Val::Undefined | Val::Null => false,
        Val::Boolean(b) => b,
        Val::Number(bits, _) => !(is_nan_bits(bits) || is_zero_bits(bits)),
        Val::String(s) => s.len() != 0,
        _ => true,
    }
}

/// `ToBoolean(value)` (see [`spec_to_boolean`]).
pub fn to_boolean(value: &JsValue) -> (r: bool)
    ensures
        r == spec_to_boolean(value@),
{
    match value {
        JsValue::Undefined | JsValue::Null => false,
        JsValue::Boolean(b) => *b,
        JsValue::Number(n) => !(is_nan(n.bits) || is_zero(n.bits)),
        JsValue::String(s) => !s.as_str().is_empty(),
        _ => true,
    }
}


/// `t` with each capital exponent mark `E` written as `e`.
pub open spec fn lower_exponent_marks(t: Seq<char>) -> Seq<char> {
    t.map_values(|c: char| if c == 'E' { 'e' } else { c })
}

proof fn lemma_digits_end_lower(t: Seq<char>, i: int)
    requires
        0 <= i <= t.len(),
    ensures
        digits_end(lower_exponent_marks(t), i) == digits_end(t, i),
    decreases t.len() - i,
{
    let u = lower_exponent_marks(t);
    if i < t.len() {
        assert(u[i] == (if t[i] == 'E' { 'e' } else { t[i] }));
        lemma_digits_end_lower(t, i + 1);
    }
}

/// The exponent mark of a decimal literal may be written `e` or `E` with
/// the same meaning: whether a text is a `StrDecimalLiteral` does not
/// depend on the case of its exponent marks.
pub proof fn law_exponent_mark_case_is_free(t: Seq<char>)
    ensures
        str_decimal_literal(t) == str_decimal_literal(lower_exponent_marks(t)),
{
    let u = lower_exponent_marks(t);
    assert(u.len() == t.len());
    assert forall|i: int| 0 <= i < t.len() implies #[trigger] u[i] == (if t[i] == 'E' { 'e' } else { t[i] }) by {}
    assert forall|i: int| 0 <= i <= t.len() implies #[trigger] digits_end(u, i) == digits_end(t, i) by {
        lemma_digits_end_lower(t, i);
    }
    reveal_strlit("Infinity");
    let inf = "Infinity"@;
    assert(inf =~= seq!['I', 'n', 'f', 'i', 'n', 'i', 't', 'y']);
    assert forall|a: int| 0 <= a <= t.len() implies (#[trigger] t.subrange(a, t.len() as int) == inf) == (
    u.subrange(a, t.len() as int) == inf) by {
        let ts = t.subrange(a, t.len() as int);
        let us = u.subrange(a, t.len() as int);
        if ts == inf {
            assert forall|j: int| 0 <= j < us.len() implies us[j] == inf[j] by {
                assert(us[j] == u[a + j]);
                assert(ts[j] == t[a + j]);
            }
            assert(us =~= inf);
        }
        if us == inf {
            assert forall|j: int| 0 <= j < ts.len() implies ts[j] == inf[j] by {
                assert(us[j] == u[a + j]);
                assert(ts[j] == t[a + j]);
            }
            assert(ts =~= inf);
        }
    }
}

/// Digits, a capital `E` and digits make a decimal literal.
pub proof fn law_capital_exponent_is_accepted(m: nat, n: nat)
    ensures
        str_decimal_literal(spec_decimal(m) + seq!['E'] + spec_decimal(n)),
{
    let dm = spec_decimal(m);
    let dn = spec_decimal(n);
    let t = dm + seq!['E'] + dn;
    lemma_decimal_reads_back(m);
    lemma_decimal_reads_back(n);
    let b = dm.len() as int;
    assert forall|i: int| 0 <= i < b implies is_ascii_digit(#[trigger] t[i]) by {
        assert(t[i] == dm[i]);
    }
    assert(t[b] == 'E');
    assert(!is_sign(t[0]));
    lemma_digits_end_run(t, 0, b);
    assert(t[b + 1] == dn[0]);
    assert(!is_sign(t[b + 1]));
    assert forall|i: int| b + 1 <= i < t.len() implies is_ascii_digit(#[trigger] t[i]) by {
        assert(t[i] == dn[i - b - 1]);
    }
    lemma_digits_end_run(t, b + 1, t.len() as int);
}


/// `ToBoolean`: `undefined` and `null` are false, a boolean is itself, a
/// string is true exactly when it is not empty (`"0"` and `"false"`
/// included), and every object, function and promise is true.
pub proof fn law_truthiness(v: Val)
    ensures
        (v is Undefined || v is Null) ==> !spec_to_boolean(v),
        v matches Val::Boolean(b) ==> spec_to_boolean(v) == b,
        v matches Val::String(s) ==> (spec_to_boolean(v) <==> s.len() > 0),
        (v is Object || v is Function || v is Native || v is Promise) ==> spec_to_boolean(v),
{
}


/// A JSON numeral is a decimal literal.
proof fn lemma_json_numeral_is_decimal_literal(t: Seq<char>)
    requires
        json_numeral(t),
    ensures
        str_decimal_literal(t),
{
    lemma_json_numeral_chars(t);
    assert(is_sign(t[0]) == (t[0] == '-'));
}

/// `Number` reads back what `String` writes for a number: the text of a
/// finite number (whose decimal rendering has the plain shape, where it is
/// not zero) is a decimal literal that `ToNumber` reads as it stands.
pub proof fn law_to_number_reads_to_string(b: u64, t: Seq<char>)
    requires
        is_finite_bits(b),
        is_zero_bits(b) || plain_rendering(t),
    ensures
        spec_to_number(Val::String(spec_to_string(Val::Number(b, t)))) == NumberSourceV::Text(
            spec_to_string(Val::Number(b, t)),
        ),
{
    let x = spec_to_string(Val::Number(b, t));
    if is_zero_bits(b) {
        reveal_strlit("0");
        assert(x =~= seq!['0']);
        assert(digits_end(x, 1) == 1);
        assert(json_numeral(x));
    } else {
        law_number_text_is_json_numeral(t);
    }
    lemma_json_numeral_chars(x);
    lemma_json_numeral_is_decimal_literal(x);
    assert(!is_white_space(x[0]));
    assert(is_number_char(x[x.len() - 1]));
    assert(!is_white_space(x[x.len() - 1]));
    assert(leading_ws_end(x, 0) == 0);
    assert(trailing_ws_start(x, x.len() as int) == x.len());
    assert(x.subrange(0, x.len() as int) =~= x);
    assert(spec_trim(x) == x);
    if x.len() >= 2 {
        assert(is_number_char(x[1]));
    }
    assert(prefix_radix(x) == 0);
}

} // verus!
