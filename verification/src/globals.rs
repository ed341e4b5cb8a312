//! The global functions `parseInt`, `parseFloat`, `Number`, `String`,
//! `Boolean` (the parts that do not read a double).

use vstd::prelude::*;

use crate::coercion::{str_decimal_literal, is_str_decimal_literal, first_arg, arg_at, to_string, spec_to_string, to_number, spec_to_number, to_boolean, spec_to_boolean, spec_arg_at, NumberSource, NumberSourceV};
use crate::number::{resolve_radix, spec_resolve_radix};
use crate::numeral::{digit_value, digit_of, lemma_decimal_reads_back};
use crate::text::{chars_of, string_of, trim, spec_trim, spec_decimal, is_white_space, leading_ws_end, trailing_ws_start};
use crate::value::{JsValue, Val, vals};
use crate::number_text::zeros;

verus! {

/// The end of the longest run of digits in `radix` from `i`.
pub open spec fn digit_prefix_end(t: Seq<char>, i: int, radix: nat) -> int
    decreases t.len() - i,
{
    if 0 <= i < t.len() && digit_value(t[i]) < radix {
        digit_prefix_end(t, i + 1, radix)
    } else {
        i
    }
}

/// The values of the digits `t`.
pub open spec fn digit_values(t: Seq<char>) -> Seq<u32> {
    t.map_values(|c: char| digit_value(c) as u32)
}

/// The number the digit values `ds` denote in `radix`.
pub open spec fn digits_number(ds: Seq<u32>, radix: nat) -> nat
    decreases ds.len(),
{
    if ds.len() == 0 {
        0
    } else {
        digits_number(ds.subrange(0, ds.len() - 1), radix) * radix + ds[ds.len() - 1] as nat
    }
}

/// The trimmed text without one leading sign.
pub open spec fn unsigned_body(t: Seq<char>) -> Seq<char> {
    if t.len() > 0 && (t[0] == '-' || t[0] == '+') {
        t.subrange(1, t.len() as int)
    } else {
        t
    }
}

pub open spec fn has_hex_prefix(t: Seq<char>) -> bool {
    t.len() >= 2 && t[0] == '0' && (t[1] == 'x' || t[1] == 'X')
}

/// ECMA-262 `parseInt(text, radix)` for a radix already resolved by
/// `ToInt32` (`0` when none was given): whether the trimmed text starts
/// with `-`, the radix used (`16` after a `0x` prefix, which counts when
/// no radix or radix 16 was given; `10` when none was given), and the
/// values of the longest run of digits in that radix after the sign and
/// prefix.  None (NaN) when that run is empty.
pub open spec fn spec_parse_int_body(text: Seq<char>, radix: nat) -> Option<(bool, u32, Seq<u32>)> {
    let t = spec_trim(text);
    let body = unsigned_body(t);
    let hex = (radix == 0 || radix == 16) && has_hex_prefix(body);
    let r: nat = if hex {
        16
    } else if radix == 0 {
        10
    } else {
        radix
    };
    let digits = if hex {
        body.subrange(2, body.len() as int)
    } else {
        body
    };
    let e = digit_prefix_end(digits, 0, r);
    if e == 0 {
        None
    } else {
        Some((t.len() > 0 && t[0] == '-', r as u32, digit_values(digits.subrange(0, e))))
    }
}

proof fn lemma_digit_prefix_end(t: Seq<char>, i: int, radix: nat)
    requires
        0 <= i <= t.len(),
    ensures
        i <= digit_prefix_end(t, i, radix) <= t.len(),
        forall|k: int| i <= k < digit_prefix_end(t, i, radix) ==> digit_value(#[trigger] t[k]) < radix,
    decreases t.len() - i,
{
    if i < t.len() && digit_value(t[i]) < radix {
        lemma_digit_prefix_end(t, i + 1, radix);
    }
}

/// See [`spec_parse_int_body`].
pub fn parse_int_body(text: &str, radix: u32) -> (r: Option<(bool, u32, Vec<u32>)>)
    requires
        radix == 0 || 2 <= radix <= 36,
    ensures
        match r {
            Some((neg, rr, ds)) => spec_parse_int_body(text@, radix as nat) == Some((neg, rr, ds@)),
            None => spec_parse_int_body(text@, radix as nat) is None,
        },
{
    let t = trim(&chars_of(text));
    let negative = t.len() > 0 && t[0] == '-';
    let start: usize = if t.len() > 0 && (t[0] == '-' || t[0] == '+') {
        1
    } else {
        0
    };
    let ghost body = t@.subrange(start as int, t@.len() as int);
    assert(t@ == spec_trim(text@));
    assert(body =~= unsigned_body(t@));
    let hex = (radix == 0 || radix == 16) && t.len() >= start + 2 && t[start] == '0' && (t[start + 1] == 'x'
        || t[start + 1] == 'X');
    assert(hex == ((radix == 0 || radix == 16) && has_hex_prefix(body)));
    let r: u32 = if hex {
        16
    } else if radix == 0 {
        10
    } else {
        radix
    };
    let p0: usize = if hex {
        start + 2
    } else {
        start
    };
    let ghost digits = t@.subrange(p0 as int, t@.len() as int);
    assert(digits =~= (if hex {
        body.subrange(2, body.len() as int)
    } else {
        body
    }));
    proof {
        lemma_digit_prefix_end(digits, 0, r as nat);
    }
    let mut ds: Vec<u32> = Vec::new();
    let mut p = p0;
    while p < t.len() && digit_of(t[p]) < r
        invariant
            p0 <= p <= t.len(),
            digits == t@.subrange(p0 as int, t@.len() as int),
            digit_prefix_end(digits, (p - p0) as int, r as nat) == digit_prefix_end(digits, 0, r as nat),
            ds@ == digit_values(digits.subrange(0, (p - p0) as int)),
        decreases t.len() - p,
    {
        let d = digit_of(t[p]);
        ds.push(d);
        p = p + 1;
        assert(digits[(p - 1 - p0) as int] == t@[p - 1]);
        assert(ds@ =~= digit_values(digits.subrange(0, (p - p0) as int)));
    }
    assert(p < t.len() ==> digits[(p - p0) as int] == t@[p as int]);
    assert(digit_prefix_end(digits, (p - p0) as int, r as nat) == (p - p0) as int);
    if ds.len() == 0 {
        None
    } else {
        Some((negative, r, ds))
    }
}

/// `parseInt(string, radix)` given the radix argument as a double: the
/// reading [`spec_parse_int_body`] makes of `ToString` of the first
/// argument with the radix `ToInt32` gives; none (NaN) when the radix is
/// unusable or no digit is read.
pub open spec fn spec_parse_int(args: Seq<Val>, radix_bits: u64) -> Option<(bool, u32, Seq<u32>)> {
    match spec_resolve_radix(radix_bits) {
        Some(radix) => spec_parse_int_body(spec_to_string(spec_arg_at(args, 0)), radix as nat),
        None => None,
    }
}

/// See [`spec_parse_int`]; `radix_bits` is `ToNumber` of the second argument.
/// The embedder computes the double the digit values denote in the radix,
/// negated after a `-`.
pub fn parse_int_impl(args: &Vec<JsValue>, radix_bits: u64) -> (r: Option<(bool, u32, Vec<u32>)>)
    ensures
        match r {
            Some((neg, rr, ds)) => spec_parse_int(vals(args@), radix_bits) == Some((neg, rr, ds@)),
            None => spec_parse_int(vals(args@), radix_bits) is None,
        },
{
    let text = to_string(&first_arg(args));
    match resolve_radix(radix_bits) {
        Some(radix) => parse_int_body(text.as_str(), radix),
        None => None,
    }
}

/// The radix argument of `parseInt`, for `ToNumber`.
pub fn parse_int_radix_arg(args: &Vec<JsValue>) -> (r: NumberSource)
    ensures
        r@ == spec_to_number(spec_arg_at(vals(args@), 1)),
{
    to_number(&arg_at(args, 1))
}

/// The length of the longest prefix of `t` no longer than `k` that is a
/// [`str_decimal_literal`] (`0` where there is none).
pub open spec fn literal_prefix_len(t: Seq<char>, k: nat) -> nat
    decreases k,
{
    if k <= t.len() && str_decimal_literal(t.subrange(0, k as int)) {
        k
    } else if k == 0 {
        0
    } else {
        literal_prefix_len(t, (k - 1) as nat)
    }
}

/// ECMA-262 `parseFloat` of `s`, as the text the embedder reads as a
/// double: the longest prefix of the trimmed text that is a
/// `StrDecimalLiteral`, empty (read as NaN) where no prefix is one.
pub open spec fn spec_parse_float_text(s: Seq<char>) -> Seq<char> {
    let t = spec_trim(s);
    t.subrange(0, literal_prefix_len(t, t.len()) as int)
}

/// The first `k` characters of `t`.
fn prefix_of(t: &Vec<char>, k: usize) -> (v: Vec<char>)
    requires
        k <= t.len(),
    ensures
        v@ == t@.subrange(0, k as int),
{
    let mut v: Vec<char> = Vec::new();
    let mut p: usize = 0;
    while p < k
        invariant
            p <= k <= t.len(),
            v@ == t@.subrange(0, p as int),
        decreases k - p,
    {
        v.push(t[p]);
        p = p + 1;
        assert(v@ =~= t@.subrange(0, p as int));
    }
    v
}

/// The longest prefix of `t` that is a decimal literal.
fn literal_prefix(t: &Vec<char>) -> (r: Vec<char>)
    ensures
        r@ == t@.subrange(0, literal_prefix_len(t@, t@.len()) as int),
{
    let mut k: usize = t.len();
    loop
        invariant
            k <= t.len(),
            literal_prefix_len(t@, t@.len()) == literal_prefix_len(t@, k as nat),
        decreases k,
    {
        let p = prefix_of(t, k);
        if is_str_decimal_literal(&p) {
            return p;
        }
        if k == 0 {
            return p;
        }
        k = k - 1;
    }
}

/// `parseFloat(string)`: the text to read as a double (see
/// [`spec_parse_float_text`]) of `ToString` of the first argument.
pub fn parse_float_impl(args: &Vec<JsValue>) -> (r: String)
    ensures
        r@ == spec_parse_float_text(spec_to_string(spec_arg_at(vals(args@), 0))),
{
    let text = to_string(&first_arg(args));
    let t = trim(&chars_of(text.as_str()));
    string_of(&literal_prefix(&t))
}

/// `parseFloat` reads the whole of a text that, trimmed, is a decimal
/// literal.
pub proof fn law_parse_float_reads_literal(s: Seq<char>)
    requires
        str_decimal_literal(spec_trim(s)),
    ensures
        spec_parse_float_text(s) == spec_trim(s),
{
    let t = spec_trim(s);
    assert(t.subrange(0, t.len() as int) =~= t);
}

/// `Number(value)`: `0` with no argument, else `ToNumber` of the first.
pub fn number_impl(args: &Vec<JsValue>) -> (r: NumberSource)
    ensures
        r@ == (if args.len() == 0 {
            NumberSourceV::Bits(0)
        } else {
            spec_to_number(spec_arg_at(vals(args@), 0))
        }),
{
    if args.len() == 0 {
        NumberSource::Bits(0)
    } else {
        to_number(&first_arg(args))
    }
}

/// `String(value)`: the empty string with no argument, else `ToString` of
/// the first.
pub fn string_impl(args: &Vec<JsValue>) -> (r: JsValue)
    ensures
        r@ == Val::String(
            if args.len() == 0 {
                Seq::<char>::empty()
            } else {
                spec_to_string(spec_arg_at(vals(args@), 0))
            },
        ),
{
    if args.len() == 0 {
        JsValue::String(String::new())
    } else {
        JsValue::String(to_string(&first_arg(args)))
    }
}

/// `Boolean(value)`: `ToBoolean` of the first argument.
pub fn boolean_impl(args: &Vec<JsValue>) -> (r: JsValue)
    ensures
        r@ == Val::Boolean(spec_to_boolean(spec_arg_at(vals(args@), 0))),
{
    JsValue::Boolean(to_boolean(&first_arg(args)))
}

/// `parseInt` reads back the decimal numeral of every natural number in
/// base 10, whatever white space surrounds it.
pub proof fn law_parse_int_reads_decimal(n: nat)
    ensures
        spec_parse_int_body(spec_decimal(n), 10) matches Some((neg, r, ds)) && !neg && r == 10 && digits_number(ds, 10)
            == n,
{
    let d = spec_decimal(n);
    lemma_decimal_reads_back(n);
    assert(!is_white_space(d[0]));
    assert(!is_white_space(d[d.len() - 1]));
    assert(leading_ws_end(d, 0) == 0);
    assert(trailing_ws_start(d, d.len() as int) == d.len());
    assert(d.subrange(0, d.len() as int) =~= d);
    assert(spec_trim(d) == d);
    assert(unsigned_body(d) == d);
    lemma_all_digits_prefix(d, 0);
    assert(d.subrange(0, d.len() as int) =~= d);
    lemma_digits_number_decimal(n);
}

proof fn lemma_all_digits_prefix(d: Seq<char>, i: int)
    requires
        0 <= i <= d.len(),
        forall|k: int| 0 <= k < d.len() ==> '0' <= #[trigger] d[k] <= '9',
    ensures
        digit_prefix_end(d, i, 10) == d.len(),
    decreases d.len() - i,
{
    if i < d.len() {
        assert('0' <= d[i] <= '9');
        lemma_all_digits_prefix(d, i + 1);
    }
}

proof fn lemma_digits_number_decimal(n: nat)
    ensures
        digits_number(digit_values(spec_decimal(n)), 10) == n,
    decreases n,
{
    let d = spec_decimal(n);
    let dv = digit_values(d);
    lemma_decimal_reads_back(n);
    assert(dv.len() == d.len());
    assert(dv[dv.len() - 1] == digit_value(d[d.len() - 1]) as u32);
    if n < 10 {
        assert(dv.subrange(0, 0) =~= Seq::<u32>::empty());
        assert(digit_value(d[0]) == n);
        assert(digits_number(dv, 10) == digits_number(dv.subrange(0, 0), 10) * 10 + dv[0] as nat);
    } else {
        lemma_digits_number_decimal(n / 10);
        assert(dv.subrange(0, dv.len() - 1) =~= digit_values(spec_decimal(n / 10)));
        assert(digit_value(d[d.len() - 1]) == n % 10);
        assert((n / 10) * 10 + n % 10 == n);
        assert(digits_number(dv, 10) == digits_number(dv.subrange(0, dv.len() - 1), 10) * 10 + dv[dv.len() - 1] as nat);
    }
}

proof fn lemma_digits_number_leading_zero(ds: Seq<u32>, r: nat)
    ensures
        digits_number(seq![0u32] + ds, r) == digits_number(ds, r),
    decreases ds.len(),
{
    let z = seq![0u32] + ds;
    if ds.len() == 0 {
        assert(z.subrange(0, 0) =~= Seq::<u32>::empty());
        assert(z[0] == 0);
        assert(digits_number(Seq::<u32>::empty(), r) == 0);
        assert(0 * r == 0) by (nonlinear_arith);
        assert(digits_number(z, r) == digits_number(z.subrange(0, 0), r) * r + z[0] as nat);
        assert(digits_number(ds, r) == 0);
    } else {
        let init = ds.subrange(0, ds.len() - 1);
        lemma_digits_number_leading_zero(init, r);
        assert(z.subrange(0, z.len() - 1) =~= seq![0u32] + init);
        assert(z[z.len() - 1] == ds[ds.len() - 1]);
        assert(digits_number(z, r) == digits_number(z.subrange(0, z.len() - 1), r) * r + z[z.len() - 1] as nat);
        assert(digits_number(ds, r) == digits_number(init, r) * r + ds[ds.len() - 1] as nat);
    }
}

proof fn lemma_zero_padded_number(k: nat, d: Seq<char>)
    ensures
        digits_number(digit_values(zeros(k) + d), 10) == digits_number(digit_values(d), 10),
    decreases k,
{
    if k == 0 {
        assert(zeros(0) + d =~= d);
    } else {
        let x = zeros((k - 1) as nat) + d;
        lemma_zero_padded_number((k - 1) as nat, d);
        assert(zeros(k) + d =~= seq!['0'] + x);
        assert(digit_value('0') == 0);
        assert(digit_values(seq!['0'] + x) =~= seq![0u32] + digit_values(x));
        lemma_digits_number_leading_zero(digit_values(x), 10);
    }
}

/// With no radix given (or radix 10), `parseInt` reads a numeral in base
/// 10 whatever leading zeros it has: they change neither the base nor the
/// value.
pub proof fn law_parse_int_reads_zero_padded_decimal(k: nat, n: nat, radix: nat)
    requires
        radix == 0 || radix == 10,
    ensures
        spec_parse_int_body(zeros(k) + spec_decimal(n), radix) matches Some((neg, r, ds)) && !neg && r == 10
            && digits_number(ds, 10) == n,
{
    let d = spec_decimal(n);
    let t = zeros(k) + d;
    lemma_decimal_reads_back(n);
    assert forall|i: int| 0 <= i < t.len() implies '0' <= #[trigger] t[i] <= '9' by {
        if i >= k {
            assert(t[i] == d[i - k]);
        }
    }
    assert(!is_white_space(t[0]));
    assert(!is_white_space(t[t.len() - 1]));
    assert(leading_ws_end(t, 0) == 0);
    assert(trailing_ws_start(t, t.len() as int) == t.len());
    assert(t.subrange(0, t.len() as int) =~= t);
    assert(spec_trim(t) == t);
    assert(unsigned_body(t) == t);
    assert(!has_hex_prefix(t));
    lemma_all_digits_prefix(t, 0);
    lemma_digits_number_decimal(n);
    lemma_zero_padded_number(k, d);
}

/// A leading `-` makes `parseInt`'s result negative and `+` leaves it
/// positive; neither changes the digits read (here a zero-padded decimal
/// numeral, with no radix given or radix 10).
pub proof fn law_parse_int_reads_sign(negative: bool, k: nat, n: nat, radix: nat)
    requires
        radix == 0 || radix == 10,
    ensures
        spec_parse_int_body(
            (if negative {
                seq!['-']
            } else {
                seq!['+']
            }) + zeros(k) + spec_decimal(n),
            radix,
        ) matches Some((neg, r, ds)) && neg == negative && r == 10 && digits_number(ds, 10) == n,
{
    let sign = if negative {
        '-'
    } else {
        '+'
    };
    let d = spec_decimal(n);
    let body = zeros(k) + d;
    let t = seq![sign] + zeros(k) + d;
    assert(t =~= seq![sign] + body);
    lemma_decimal_reads_back(n);
    assert forall|i: int| 0 <= i < body.len() implies '0' <= #[trigger] body[i] <= '9' by {
        if i >= k {
            assert(body[i] == d[i - k]);
        }
    }
    assert(t[t.len() - 1] == body[body.len() - 1]);
    assert(!is_white_space(t[0]));
    assert(!is_white_space(t[t.len() - 1]));
    assert(leading_ws_end(t, 0) == 0);
    assert(trailing_ws_start(t, t.len() as int) == t.len());
    assert(t.subrange(0, t.len() as int) =~= t);
    assert(spec_trim(t) == t);
    assert(unsigned_body(t) =~= body);
    assert(!has_hex_prefix(body));
    lemma_all_digits_prefix(body, 0);
    assert(body.subrange(0, body.len() as int) =~= body);
    lemma_digits_number_decimal(n);
    lemma_zero_padded_number(k, d);
}

/// After a `0x` (or `0X`) prefix the digits are read in base 16 when no
/// radix or radix 16 is given; with radix 10 only the leading `0` is read.
pub proof fn law_parse_int_hex_prefix(upper: bool, n: nat, radix: nat)
    requires
        radix == 0 || radix == 16 || radix == 10,
    ensures
        spec_parse_int_body(
            seq!['0', if upper { 'X' } else { 'x' }] + spec_decimal(n),
            radix,
        ) == (if radix == 10 {
            Some((false, 10u32, seq![0u32]))
        } else {
            Some((false, 16u32, digit_values(spec_decimal(n))))
        }),
{
    let x = if upper {
        'X'
    } else {
        'x'
    };
    let d = spec_decimal(n);
    let t = seq!['0', x] + d;
    lemma_decimal_reads_back(n);
    assert(t[t.len() - 1] == d[d.len() - 1]);
    assert(!is_white_space(t[0]));
    assert(!is_white_space(t[t.len() - 1]));
    assert(leading_ws_end(t, 0) == 0);
    assert(trailing_ws_start(t, t.len() as int) == t.len());
    assert(t.subrange(0, t.len() as int) =~= t);
    assert(spec_trim(t) == t);
    assert(unsigned_body(t) == t);
    assert(has_hex_prefix(t));
    if radix == 10 {
        assert(digit_value(t[1]) >= 10);
        assert(digit_prefix_end(t, 1, 10) == 1);
        assert(digit_prefix_end(t, 0, 10) == 1);
        assert(t.subrange(0, 1) =~= seq!['0']);
        assert(digit_values(seq!['0']) =~= seq![0u32]);
    } else {
        assert(t.subrange(2, t.len() as int) =~= d);
        assert forall|i: int| 0 <= i < d.len() implies digit_value(#[trigger] d[i]) < 16 by {
            assert('0' <= d[i] <= '9');
        }
        lemma_all_digits_prefix(d, 0);
        lemma_prefix_under(d, 0, 16);
        assert(d.subrange(0, d.len() as int) =~= d);
    }
}

proof fn lemma_prefix_under(d: Seq<char>, i: int, r: nat)
    requires
        0 <= i <= d.len(),
        forall|k: int| 0 <= k < d.len() ==> digit_value(#[trigger] d[k]) < r,
    ensures
        digit_prefix_end(d, i, r) == d.len(),
    decreases d.len() - i,
{
    if i < d.len() {
        assert(digit_value(d[i]) < r);
        lemma_prefix_under(d, i + 1, r);
    }
}

} // verus!
