//! ECMA-262 `Number::toString` laid out from a plain decimal rendering of
//! the same double (`[-]digits[.digits]`, as Rust's `Display` writes it):
//! the significant digits and the position of the decimal point are read
//! off the text, and the result is written in plain or exponent form as
//! the standard prescribes for the magnitude.

use vstd::prelude::*;

use crate::text::{spec_decimal, decimal_u64, extend};
use crate::json_spec::{is_ascii_digit, digits_end, json_numeral};
use crate::numeral::lemma_decimal_reads_back;

verus! {

/// Whether the rendering carries a minus sign.
pub open spec fn has_minus(t: Seq<char>) -> bool {
    t.len() > 0 && t[0] == '-'
}

/// The rendering without its sign.
pub open spec fn unsigned_part(t: Seq<char>) -> Seq<char> {
    if has_minus(t) {
        t.subrange(1, t.len() as int)
    } else {
        t
    }
}

/// The index of the first `.` at or after `i` (the length when none).
pub open spec fn point_at(b: Seq<char>, i: int) -> int
    decreases b.len() - i,
{
    if 0 <= i < b.len() && b[i] != '.' {
        point_at(b, i + 1)
    } else {
        i
    }
}

/// The digits of an unsigned rendering with its decimal point removed.
pub open spec fn all_digits(b: Seq<char>) -> Seq<char> {
    let p = point_at(b, 0);
    if p < b.len() {
        b.subrange(0, p) + b.subrange(p + 1, b.len() as int)
    } else {
        b
    }
}

/// The first index at or after `i` that does not hold `'0'`.
pub open spec fn skip_zeros(s: Seq<char>, i: int) -> int
    decreases s.len() - i,
{
    if 0 <= i < s.len() && s[i] == '0' {
        skip_zeros(s, i + 1)
    } else {
        i
    }
}

/// The index after the last character before `k` that is not `'0'`.
pub open spec fn trim_zeros_end(s: Seq<char>, k: int) -> int
    decreases k,
{
    if 0 < k <= s.len() && s[k - 1] == '0' {
        trim_zeros_end(s, k - 1)
    } else {
        k
    }
}

/// `m` zeros.
pub open spec fn zeros(m: nat) -> Seq<char> {
    Seq::new(m, |i: int| '0')
}

/// The layout ECMA-262 `Number::toString` gives the digits `d` (with
/// `k = |d|`) of a value `0.d × 10^n`: plain up to `10^21`, `0.`-prefixed
/// down to `10^-6`, and in exponent form beyond.
pub open spec fn ecma_layout(d: Seq<char>, n: int) -> Seq<char> {
    let k = d.len() as int;
    if k <= n <= 21 {
        d + zeros((n - k) as nat)
    } else if 0 < n <= 21 {
        d.subrange(0, n) + seq!['.'] + d.subrange(n, k)
    } else if -6 < n <= 0 {
        seq!['0', '.'] + zeros((-n) as nat) + d
    } else {
        let mantissa = if k == 1 {
            seq![d[0]]
        } else {
            seq![d[0], '.'] + d.subrange(1, k)
        };
        if n - 1 >= 0 {
            mantissa + seq!['e', '+'] + spec_decimal((n - 1) as nat)
        } else {
            mantissa + seq!['e', '-'] + spec_decimal((1 - n) as nat)
        }
    }
}

/// ECMA-262 `Number::toString` of a finite nonzero double, from its plain
/// decimal rendering `t`: its significant digits are those between the
/// leading and the trailing zeros (the point left out), and the point
/// stands `n` places after the first of them.  A rendering with no
/// nonzero digit is kept as it is.
pub open spec fn ecma_number_text(t: Seq<char>) -> Seq<char> {
    let b = unsigned_part(t);
    let all = all_digits(b);
    let f = skip_zeros(all, 0);
    let e = trim_zeros_end(all, all.len() as int);
    if e <= f {
        t
    } else if has_minus(t) {
        seq!['-'] + ecma_layout(all.subrange(f, e), point_at(b, 0) - f)
    } else {
        ecma_layout(all.subrange(f, e), point_at(b, 0) - f)
    }
}

/// The characters `t[a..b]`.
fn chars_between(t: &Vec<char>, a: usize, b: usize) -> (v: Vec<char>)
    requires
        a <= b <= t.len(),
    ensures
        v@ == t@.subrange(a as int, b as int),
{
    let mut v: Vec<char> = Vec::new();
    let mut i: usize = a;
    while i < b
        invariant
            a <= i <= b <= t.len(),
            v@ == t@.subrange(a as int, i as int),
        decreases b - i,
    {
        v.push(t[i]);
        i = i + 1;
        assert(v@ =~= t@.subrange(a as int, i as int));
    }
    v
}

/// Appends `m` zeros.
fn push_zeros(out: &mut Vec<char>, m: usize)
    ensures
        final(out)@ == old(out)@ + zeros(m as nat),
{
    let ghost start = out@;
    let mut i: usize = 0;
    while i < m
        invariant
            i <= m,
            out@ == start + zeros(i as nat),
        decreases m - i,
    {
        out.push('0');
        i = i + 1;
        assert(out@ =~= start + zeros(i as nat));
    }
}

/// The layout of `0.d × 10^n` (see [`ecma_layout`]), with `n` given as
/// `p - f`.
fn layout(d: &Vec<char>, p: usize, f: usize) -> (r: Vec<char>)
    requires
        d.len() > 0,
        f < usize::MAX,
    ensures
        r@ == ecma_layout(d@, p - f),
{
    let k = d.len();
    let mut out: Vec<char> = Vec::new();
    if p > f && p - f <= 21 {
        let n = p - f;
        if k <= n {
            extend(&mut out, chars_between(d, 0, k));
            push_zeros(&mut out, n - k);
            assert(d@.subrange(0, k as int) =~= d@);
        } else {
            extend(&mut out, chars_between(d, 0, n));
            out.push('.');
            extend(&mut out, chars_between(d, n, k));
        }
        return out;
    }
    if p <= f && f - p < 6 {
        out.push('0');
        out.push('.');
        push_zeros(&mut out, f - p);
        extend(&mut out, chars_between(d, 0, k));
        assert(d@.subrange(0, k as int) =~= d@);
        assert(out@ =~= seq!['0', '.'] + zeros((f - p) as nat) + d@);
        return out;
    }
    out.push(d[0]);
    if k > 1 {
        out.push('.');
        extend(&mut out, chars_between(d, 1, k));
    }
    let ghost mantissa = out@;
    out.push('e');
    if p > f {
        out.push('+');
        extend(&mut out, decimal_u64((p - f - 1) as u64));
    } else {
        out.push('-');
        extend(&mut out, decimal_u64((f - p + 1) as u64));
    }
    proof {
        if k == 1 {
            assert(mantissa =~= seq![d@[0]]);
        } else {
            assert(mantissa =~= seq![d@[0], '.'] + d@.subrange(1, k as int));
        }
    }
    assert(out@ =~= ecma_layout(d@, p - f));
    out
}

/// ECMA-262 `Number::toString` laid out from the plain decimal rendering
/// `t` (see [`ecma_number_text`]).
pub fn number_text(t: &Vec<char>) -> (r: Vec<char>)
    ensures
        r@ == ecma_number_text(t@),
{
    let minus = t.len() > 0 && t[0] == '-';
    let b = if minus {
        chars_between(t, 1, t.len())
    } else {
        chars_between(t, 0, t.len())
    };
    assert(b@ == unsigned_part(t@)) by {
        if !minus {
            assert(t@.subrange(0, t@.len() as int) =~= t@);
        }
    }
    let mut p: usize = 0;
    while p < b.len() && b[p] != '.'
        invariant
            p <= b.len(),
            point_at(b@, p as int) == point_at(b@, 0),
        decreases b.len() - p,
    {
        p = p + 1;
    }
    let all = if p < b.len() {
        let mut a = chars_between(&b, 0, p);
        extend(&mut a, chars_between(&b, p + 1, b.len()));
        a
    } else {
        chars_between(&b, 0, b.len())
    };
    assert(all@ == all_digits(b@)) by {
        if p >= b.len() {
            assert(b@.subrange(0, b@.len() as int) =~= b@);
        }
    }
    let mut f: usize = 0;
    while f < all.len() && all[f] == '0'
        invariant
            f <= all.len(),
            skip_zeros(all@, f as int) == skip_zeros(all@, 0),
        decreases all.len() - f,
    {
        f = f + 1;
    }
    let mut e: usize = all.len();
    while e > 0 && all[e - 1] == '0'
        invariant
            e <= all.len(),
            trim_zeros_end(all@, e as int) == trim_zeros_end(all@, all@.len() as int),
        decreases e,
    {
        e = e - 1;
    }
    if e <= f {
        let r = chars_between(t, 0, t.len());
        assert(r@ =~= t@);
        return r;
    }
    let d = chars_between(&all, f, e);
    let laid = layout(&d, p, f);
    if minus {
        let mut out: Vec<char> = Vec::new();
        out.push('-');
        extend(&mut out, laid);
        out
    } else {
        laid
    }
}

/// The shape of a plain decimal rendering of a finite nonzero double: an
/// optional minus sign, digits, optionally a point and more digits, and a
/// nonzero digit somewhere.
pub open spec fn plain_rendering(t: Seq<char>) -> bool {
    let b = unsigned_part(t);
    let p = point_at(b, 0);
    &&& p > 0
    &&& forall|i: int| 0 <= i < b.len() && i != p ==> is_ascii_digit(#[trigger] b[i])
    &&& (p < b.len() ==> p + 1 < b.len())
    &&& exists|i: int| 0 <= i < b.len() && i != p && #[trigger] b[i] != '0'
}

pub open spec fn all_ascii_digits(s: Seq<char>) -> bool {
    forall|i: int| 0 <= i < s.len() ==> is_ascii_digit(#[trigger] s[i])
}

pub proof fn lemma_digits_end_run(t: Seq<char>, i: int, j: int)
    requires
        0 <= i <= j <= t.len(),
        forall|m: int| i <= m < j ==> is_ascii_digit(#[trigger] t[m]),
        j == t.len() || !is_ascii_digit(t[j]),
    ensures
        digits_end(t, i) == j,
    decreases j - i,
{
    if i < j {
        lemma_digits_end_run(t, i + 1, j);
    }
}

proof fn lemma_point_at(b: Seq<char>, i: int)
    requires
        0 <= i <= b.len(),
    ensures
        i <= point_at(b, i) <= b.len(),
        point_at(b, i) < b.len() ==> b[point_at(b, i)] == '.',
        forall|m: int| i <= m < point_at(b, i) ==> b[m] != '.',
    decreases b.len() - i,
{
    if i < b.len() && b[i] != '.' {
        lemma_point_at(b, i + 1);
    }
}

proof fn lemma_skip_zeros(s: Seq<char>, i: int)
    requires
        0 <= i <= s.len(),
    ensures
        i <= skip_zeros(s, i) <= s.len(),
        skip_zeros(s, i) < s.len() ==> s[skip_zeros(s, i)] != '0',
        forall|m: int| i <= m < skip_zeros(s, i) ==> s[m] == '0',
    decreases s.len() - i,
{
    if i < s.len() && s[i] == '0' {
        lemma_skip_zeros(s, i + 1);
    }
}

proof fn lemma_trim_zeros_end(s: Seq<char>, k: int)
    requires
        0 <= k <= s.len(),
    ensures
        0 <= trim_zeros_end(s, k) <= k,
        forall|m: int| trim_zeros_end(s, k) <= m < k ==> s[m] == '0',
    decreases k,
{
    if 0 < k && s[k - 1] == '0' {
        lemma_trim_zeros_end(s, k - 1);
    }
}

/// The layouts of digits `d` without a leading zero, signed or not, are
/// JSON numerals.
#[verifier::spinoff_prover]
#[verifier::rlimit(60)]
proof fn lemma_layout_numeral(pre: Seq<char>, d: Seq<char>, n: int)
    requires
        pre == Seq::<char>::empty() || pre == seq!['-'],
        d.len() > 0,
        all_ascii_digits(d),
        d[0] != '0',
    ensures
        json_numeral(pre + ecma_layout(d, n)),
{
    let k = d.len() as int;
    let l = ecma_layout(d, n);
    let t = pre + l;
    let a = pre.len() as int;
    assert(t.len() > 0 && t[0] == '-' <==> a == 1) by {
        if a == 0 {
            assert(t[0] == l[0]);
        }
    }
    if k <= n <= 21 {
        let z = zeros((n - k) as nat);
        assert(l == d + z);
        assert forall|m: int| a <= m < t.len() implies is_ascii_digit(#[trigger] t[m]) by {
            assert(t[m] == l[m - a]);
            if m - a < k {
                assert(l[m - a] == d[m - a]);
            } else {
                assert(l[m - a] == z[m - a - k]);
            }
        }
        lemma_digits_end_run(t, a, t.len() as int);
        assert(t[a] == d[0]);
    } else if 0 < n <= 21 {
        let x = d.subrange(0, n);
        let y = d.subrange(n, k);
        assert(l == x + seq!['.'] + y);
        assert forall|m: int| a <= m < a + n implies is_ascii_digit(#[trigger] t[m]) by {
            assert(t[m] == l[m - a]);
            assert(l[m - a] == x[m - a]);
            assert(x[m - a] == d[m - a]);
        }
        assert(t[a + n] == '.');
        lemma_digits_end_run(t, a, a + n);
        assert forall|m: int| a + n + 1 <= m < t.len() implies is_ascii_digit(#[trigger] t[m]) by {
            assert(t[m] == l[m - a]);
            assert(l[m - a] == y[m - a - n - 1]);
            assert(y[m - a - n - 1] == d[m - a - 1]);
        }
        lemma_digits_end_run(t, a + n + 1, t.len() as int);
        assert(t[a] == d[0]);
    } else if -6 < n <= 0 {
        let z = zeros((-n) as nat);
        assert(l == seq!['0', '.'] + z + d);
        assert(t[a] == '0');
        assert(t[a + 1] == '.');
        lemma_digits_end_run(t, a, a + 1);
        assert forall|m: int| a + 2 <= m < t.len() implies is_ascii_digit(#[trigger] t[m]) by {
            assert(t[m] == l[m - a]);
            if m - a - 2 < -n {
                assert(l[m - a] == z[m - a - 2]);
            } else {
                assert(l[m - a] == d[m - a - 2 + n]);
            }
        }
        lemma_digits_end_run(t, a + 2, t.len() as int);
    } else {
        let mantissa = if k == 1 {
            seq![d[0]]
        } else {
            seq![d[0], '.'] + d.subrange(1, k)
        };
        let sign = if n - 1 >= 0 {
            '+'
        } else {
            '-'
        };
        let dec = if n - 1 >= 0 {
            spec_decimal((n - 1) as nat)
        } else {
            spec_decimal((1 - n) as nat)
        };
        lemma_decimal_reads_back((n - 1) as nat);
        lemma_decimal_reads_back((1 - n) as nat);
        assert(l == mantissa + seq!['e', sign] + dec);
        let c = a + mantissa.len();
        assert(t[a] == d[0]);
        assert(t[c] == 'e');
        assert(t[c + 1] == sign);
        if k == 1 {
            lemma_digits_end_run(t, a, a + 1);
        } else {
            assert(t[a + 1] == '.');
            lemma_digits_end_run(t, a, a + 1);
            assert forall|m: int| a + 2 <= m < c implies is_ascii_digit(#[trigger] t[m]) by {
                assert(t[m] == l[m - a]);
                assert(l[m - a] == mantissa[m - a]);
                assert(mantissa[m - a] == d[m - a - 1]);
            }
            lemma_digits_end_run(t, a + 2, c);
        }
        assert forall|m: int| c + 2 <= m < t.len() implies is_ascii_digit(#[trigger] t[m]) by {
            assert(t[m] == l[m - a]);
            assert(l[m - a] == dec[m - c - 2]);
        }
        lemma_digits_end_run(t, c + 2, t.len() as int);
    }
}

/// `Number::toString` of a finite nonzero double whose decimal rendering
/// has the plain shape is a JSON numeral.
pub proof fn law_number_text_is_json_numeral(t: Seq<char>)
    requires
        plain_rendering(t),
    ensures
        json_numeral(ecma_number_text(t)),
{
    let b = unsigned_part(t);
    let p = point_at(b, 0);
    let all = all_digits(b);
    lemma_point_at(b, 0);
    assert(all_ascii_digits(all) && exists|i: int| 0 <= i < all.len() && #[trigger] all[i] != '0') by {
        let w = choose|w: int| 0 <= w < b.len() && w != p && #[trigger] b[w] != '0';
        if p < b.len() {
            assert(all == b.subrange(0, p) + b.subrange(p + 1, b.len() as int));
            assert forall|i: int| 0 <= i < all.len() implies is_ascii_digit(#[trigger] all[i]) by {
                if i < p {
                    assert(all[i] == b[i]);
                } else {
                    assert(all[i] == b[i + 1]);
                }
            }
            if w < p {
                assert(all[w] == b[w]);
            } else {
                assert(all[w - 1] == b[w]);
            }
        } else {
            assert(all == b);
        }
    }
    let f = skip_zeros(all, 0);
    let e = trim_zeros_end(all, all.len() as int);
    lemma_skip_zeros(all, 0);
    lemma_trim_zeros_end(all, all.len() as int);
    let w = choose|i: int| 0 <= i < all.len() && #[trigger] all[i] != '0';
    assert(f <= w < e);
    let d = all.subrange(f, e);
    assert(d[0] == all[f]);
    assert(all_ascii_digits(d)) by {
        assert forall|i: int| 0 <= i < d.len() implies is_ascii_digit(#[trigger] d[i]) by {
            assert(d[i] == all[f + i]);
        }
    }
    if has_minus(t) {
        lemma_layout_numeral(seq!['-'], d, p - f);
    } else {
        lemma_layout_numeral(Seq::<char>::empty(), d, p - f);
        assert(Seq::<char>::empty() + ecma_layout(d, p - f) =~= ecma_layout(d, p - f));
    }
}


proof fn lemma_decimal_leads_nonzero(n: nat)
    requires
        n > 0,
    ensures
        spec_decimal(n)[0] != '0',
    decreases n,
{
    if n >= 10 {
        lemma_decimal_leads_nonzero(n / 10);
        lemma_decimal_reads_back(n / 10);
        assert(spec_decimal(n)[0] == spec_decimal(n / 10)[0]);
    }
}

/// `Number::toString` of a whole number: written as its decimal numeral
/// while that has at most 21 digits, and beyond in exponent form, its
/// first digit leading and `e+` followed by the number of digits less one
/// closing it.
pub proof fn law_number_text_of_whole_numbers(n: nat)
    requires
        n > 0,
    ensures
        spec_decimal(n).len() <= 21 ==> ecma_number_text(spec_decimal(n)) == spec_decimal(n),
        spec_decimal(n).len() > 21 ==> exists|m: Seq<char>|
            m.len() > 0 && m[0] == spec_decimal(n)[0] && #[trigger] ecma_number_text(spec_decimal(n)) == m + seq!['e', '+']
                + spec_decimal((spec_decimal(n).len() - 1) as nat),
{
    let t = spec_decimal(n);
    lemma_decimal_reads_back(n);
    lemma_decimal_leads_nonzero(n);
    assert(!has_minus(t));
    assert(unsigned_part(t) == t);
    lemma_point_at(t, 0);
    assert(point_at(t, 0) == t.len());
    assert(all_digits(t) == t);
    lemma_skip_zeros(t, 0);
    assert(skip_zeros(t, 0) == 0);
    lemma_trim_zeros_end(t, t.len() as int);
    let e = trim_zeros_end(t, t.len() as int);
    assert(e > 0);
    let d = t.subrange(0, e);
    let len = t.len() as int;
    assert(ecma_number_text(t) == ecma_layout(d, len));
    if len <= 21 {
        assert(d + zeros((len - e) as nat) =~= t);
    } else {
        let k = e;
        let mantissa = if k == 1 {
            seq![d[0]]
        } else {
            seq![d[0], '.'] + d.subrange(1, k)
        };
        assert(ecma_layout(d, len) == mantissa + seq!['e', '+'] + spec_decimal((len - 1) as nat));
        assert(mantissa[0] == t[0]);
    }
}


/// The rendering `0.` + `z` zeros + the digits of `n`.
pub open spec fn small_fraction_rendering(z: nat, n: nat) -> Seq<char> {
    seq!['0', '.'] + zeros(z) + spec_decimal(n)
}

/// `Number::toString` of a number below one written `0.` + `z` zeros +
/// the digits of `n` (no trailing zero): kept as it is while `z` is below
/// six, and beyond in exponent form, the first digit of `n` leading and
/// `e-` followed by `z + 1` closing it.
pub proof fn law_number_text_of_small_fractions(z: nat, n: nat)
    requires
        n % 10 != 0,
    ensures
        z < 6 ==> ecma_number_text(small_fraction_rendering(z, n)) == small_fraction_rendering(z, n),
        z >= 6 ==> exists|m: Seq<char>|
            m.len() > 0 && m[0] == spec_decimal(n)[0] && #[trigger] ecma_number_text(small_fraction_rendering(z, n))
                == m + seq!['e', '-'] + spec_decimal(z + 1),
{
    let d = spec_decimal(n);
    let t = seq!['0', '.'] + zeros(z) + d;
    lemma_decimal_reads_back(n);
    lemma_decimal_leads_nonzero(n);
    if n >= 10 {
        assert(d[d.len() - 1] == crate::text::digit_char(n % 10));
    } else {
        assert(d[0] == crate::text::digit_char(n));
    }
    assert(d[d.len() - 1] != '0');
    assert(!has_minus(t));
    assert(unsigned_part(t) == t);
    assert(t[1] == '.');
    assert(point_at(t, 1) == 1);
    assert(point_at(t, 0) == 1);
    let all = all_digits(t);
    assert(all =~= seq!['0'] + zeros(z) + d);
    lemma_skip_zeros(all, 0);
    let f = skip_zeros(all, 0);
    assert(all[1 + z as int] == d[0]);
    assert forall|m: int| 0 <= m < 1 + z implies all[m] == '0' by {}
    assert(f == 1 + z);
    assert(all[all.len() - 1] == d[d.len() - 1]);
    assert(trim_zeros_end(all, all.len() as int) == all.len());
    assert(all.subrange(f, all.len() as int) =~= d);
    assert(ecma_number_text(t) == ecma_layout(d, -(z as int)));
    if z >= 6 {
        let k = d.len() as int;
        let mantissa = if k == 1 {
            seq![d[0]]
        } else {
            seq![d[0], '.'] + d.subrange(1, k)
        };
        assert(1 - (-(z as int)) == z + 1);
        assert(ecma_layout(d, -(z as int)) == mantissa + seq!['e', '-'] + spec_decimal(z + 1));
        assert(mantissa[0] == d[0]);
    }
}

} // verus!
