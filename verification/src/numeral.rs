//! Integer numerals: the digits `from_str_radix` reads and the values
//! they denote.

use vstd::prelude::*;

use crate::text::{spec_decimal, digit_char};

verus! {

/// The value of a digit in bases up to 36 (`36` for other characters).
pub open spec fn digit_value(c: char) -> nat {
    if '0' <= c && c <= '9' {
        (c as u32 - '0' as u32) as nat
    } else if 'a' <= c && c <= 'z' {
        (c as u32 - 'a' as u32 + 10) as nat
    } else if 'A' <= c && c <= 'Z' {
        (c as u32 - 'A' as u32 + 10) as nat
    } else {
        36
    }
}

/// The value of a digit in bases up to 36 (`36` for other characters).
pub fn digit_of(c: char) -> (d: u32)
    ensures
        d == digit_value(c),
{
    if '0' <= c && c <= '9' {
        (c as u32) - 48
    } else if 'a' <= c && c <= 'z' {
        (c as u32) - 87
    } else if 'A' <= c && c <= 'Z' {
        (c as u32) - 55
    } else {
        36
    }
}

/// The value of `t` read as digits in `radix`, when every character is one.
pub open spec fn digits_value(t: Seq<char>, radix: nat) -> Option<nat>
    decreases t.len(),
{
    if t.len() == 0 {
        Some(0)
    } else {
        match digits_value(t.subrange(0, t.len() - 1), radix) {
            Some(v) => if digit_value(t[t.len() - 1]) < radix {
                Some(v * radix + digit_value(t[t.len() - 1]))
            } else {
                None
            },
            None => None,
        }
    }
}

/// At least one digit in `radix`, the value at most `max`.
pub open spec fn spec_digits_at_most(body: Seq<char>, radix: nat, max: nat) -> Option<nat> {
    if body.len() == 0 {
        None
    } else {
        match digits_value(body, radix) {
            Some(v) => if v <= max {
                Some(v)
            } else {
                None
            },
            None => None,
        }
    }
}

/// `from_str_radix` of an unsigned type whose largest value is `max`: an
/// optional `+`, then at least one digit, the value at most `max`.
pub open spec fn spec_parse_unsigned(t: Seq<char>, radix: nat, max: nat) -> Option<nat> {
    if t.len() > 0 && t[0] == '+' {
        spec_digits_at_most(t.subrange(1, t.len() as int), radix, max)
    } else {
        spec_digits_at_most(t, radix, max)
    }
}


proof fn lemma_digits_prefix(t: Seq<char>, radix: nat, k: int)
    requires
        0 <= k <= t.len(),
        radix > 0,
        digits_value(t, radix) is Some,
    ensures
        digits_value(t.subrange(0, k), radix) is Some,
        digits_value(t.subrange(0, k), radix)->Some_0 <= digits_value(t, radix)->Some_0,
    decreases t.len(),
{
    if k < t.len() {
        let p = t.subrange(0, t.len() - 1);
        lemma_digits_prefix(p, radix, k);
        assert(p.subrange(0, k) =~= t.subrange(0, k));
        let v = digits_value(p, radix)->Some_0;
        assert(v <= v * radix + digit_value(t[t.len() - 1])) by (nonlinear_arith)
            requires
                radix > 0,
        ;
    } else {
        assert(t.subrange(0, k) =~= t);
    }
}

/// The digits `t[start..]` in `radix`, when there is at least one and their
/// value is at most `max` (see [`spec_digits_at_most`]).
pub fn parse_digits(t: &Vec<char>, start: usize, radix: u32, max: u64) -> (r: Option<u64>)
    requires
        start <= t.len(),
        2 <= radix <= 36,
    ensures
        match r {
            Some(v) => spec_digits_at_most(t@.subrange(start as int, t@.len() as int), radix as nat, max as nat)
                == Some(v as nat),
            None => spec_digits_at_most(t@.subrange(start as int, t@.len() as int), radix as nat, max as nat) is None,
        },
{
    let ghost body = t@.subrange(start as int, t@.len() as int);
    if start >= t.len() {
        return None;
    }
    let mut v: u128 = 0;
    let mut p = start;
    while p < t.len()
        invariant
            start <= p <= t.len(),
            2 <= radix <= 36,
            body == t@.subrange(start as int, t@.len() as int),
            digits_value(t@.subrange(start as int, p as int), radix as nat) == Some(v as nat),
            v <= max,
        decreases t.len() - p,
    {
        let c = t[p];
        let d: u32 = if '0' <= c && c <= '9' {
            (c as u32) - 48
        } else if 'a' <= c && c <= 'z' {
            (c as u32) - 87
        } else if 'A' <= c && c <= 'Z' {
            (c as u32) - 55
        } else {
            36
        };
        assert(d == digit_value(c));
        let ghost pre = t@.subrange(start as int, p as int);
        let ghost next = t@.subrange(start as int, p + 1);
        assert(next.subrange(0, next.len() - 1) =~= pre);
        assert(next[next.len() - 1] == c);
        if d >= radix {
            assert(digits_value(next, radix as nat) is None);
            proof {
                if digits_value(body, radix as nat) is Some {
                    lemma_digits_prefix(body, radix as nat, (p + 1 - start) as int);
                    assert(body.subrange(0, (p + 1 - start) as int) =~= next);
                }
            }
            return None;
        }
        assert(v * (radix as u128) <= (max as u128) * 36) by (nonlinear_arith)
            requires
                v <= max,
                radix <= 36,
        ;
        let w: u128 = v * (radix as u128) + (d as u128);
        if w > max as u128 {
            assert(digits_value(next, radix as nat) == Some(w as nat));
            proof {
                if digits_value(body, radix as nat) is Some {
                    lemma_digits_prefix(body, radix as nat, (p + 1 - start) as int);
                    assert(body.subrange(0, (p + 1 - start) as int) =~= next);
                }
            }
            return None;
        }
        v = w;
        p = p + 1;
    }
    assert(t@.subrange(start as int, p as int) =~= body);
    Some(v as u64)
}

/// `from_str_radix` for an unsigned type whose largest value is `max`
/// (see [`spec_parse_unsigned`]).
pub fn parse_unsigned(t: &Vec<char>, radix: u32, max: u64) -> (r: Option<u64>)
    requires
        2 <= radix <= 36,
    ensures
        match r {
            Some(v) => spec_parse_unsigned(t@, radix as nat, max as nat) == Some(v as nat),
            None => spec_parse_unsigned(t@, radix as nat, max as nat) is None,
        },
{
    if t.len() > 0 && t[0] == '+' {
        parse_digits(t, 1, radix, max)
    } else {
        assert(t@.subrange(0, t@.len() as int) =~= t@);
        parse_digits(t, 0, radix, max)
    }
}

/// The decimal numeral of `n` is made of digits and reads back as `n`.
pub proof fn lemma_decimal_reads_back(n: nat)
    ensures
        spec_decimal(n).len() > 0,
        forall|k: int| 0 <= k < spec_decimal(n).len() ==> '0' <= #[trigger] spec_decimal(n)[k] <= '9',
        digits_value(spec_decimal(n), 10) == Some(n),
    decreases n,
{
    let d = spec_decimal(n);
    if n < 10 {
        assert(d.subrange(0, 0) =~= Seq::<char>::empty());
        assert(digit_value(digit_char(n)) == n);
        assert(digits_value(d.subrange(0, 0), 10) == Some(0nat));
    } else {
        lemma_decimal_reads_back(n / 10);
        let p = spec_decimal(n / 10);
        assert(d.subrange(0, d.len() - 1) =~= p);
        assert(d[d.len() - 1] == digit_char(n % 10));
        assert forall|k: int| 0 <= k < d.len() implies '0' <= #[trigger] d[k] <= '9' by {
            if k < p.len() {
                assert(d[k] == p[k]);
            }
        }
        assert(digit_value(digit_char(n % 10)) == n % 10);
        assert((n / 10) * 10 + n % 10 == n);
        assert(digits_value(d, 10) == Some((n / 10) * 10 + n % 10));
    }
}

/// `u32::from_str_radix` reads the decimal numeral of every `n` that fits.
pub proof fn law_decimal_parses_unsigned(n: nat, max: nat)
    requires
        n <= max,
    ensures
        spec_parse_unsigned(spec_decimal(n), 10, max) == Some(n),
{
    lemma_decimal_reads_back(n);
}

} // verus!
