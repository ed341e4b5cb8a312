//! Doubles as the library sees them: the IEEE-754 binary64 encoding (a
//! `u64`) together with the text Rust's `Display` gives for the value.  The
//! predicates below read the encoding's fields; no floating-point
//! arithmetic happens here.

use vstd::prelude::*;
use vstd::arithmetic::power2::{pow2, lemma_pow2_pos, lemma_pow2_strictly_increases, lemma2_to64, lemma_pow2_adds};
use vstd::arithmetic::div_mod::{lemma_fundamental_div_mod_converse, lemma_div_by_multiple, lemma_mod_multiples_basic, lemma_small_mod, lemma_basic_div, lemma_mul_mod_noop_left};
use vstd::arithmetic::mul::{lemma_mul_inequality, lemma_mul_is_commutative, lemma_mul_is_associative};
use vstd::bits::{lemma_u64_shr_is_div, lemma_u64_shl_is_mul};

use crate::text::{decimal_u64, chars_of, string_of};
use crate::number_text::{ecma_number_text, number_text};

verus! {

/// A number value: its binary64 encoding and the `Display` rendering of
/// that double (the shortest decimal that reads back to the same value).
pub struct JsNumber {
    pub bits: u64,
    pub display: String,
}

/// 2^52: the weight of the exponent field and the implicit leading bit.
pub open spec fn two52() -> nat {
    0x10_0000_0000_0000
}

pub open spec fn sign_field(b: u64) -> nat {
    (b as nat) / 0x8000_0000_0000_0000
}

pub open spec fn exponent_field(b: u64) -> nat {
    ((b as nat) / two52()) % 0x800
}

pub open spec fn mantissa_field(b: u64) -> nat {
    (b as nat) % two52()
}

pub open spec fn is_nan_bits(b: u64) -> bool {
    exponent_field(b) == 0x7ff && mantissa_field(b) != 0
}

pub open spec fn is_infinite_bits(b: u64) -> bool {
    exponent_field(b) == 0x7ff && mantissa_field(b) == 0
}

pub open spec fn is_finite_bits(b: u64) -> bool {
    exponent_field(b) != 0x7ff
}

/// `+0` or `-0`.
pub open spec fn is_zero_bits(b: u64) -> bool {
    exponent_field(b) == 0 && mantissa_field(b) == 0
}

pub open spec fn is_negative_bits(b: u64) -> bool {
    sign_field(b) == 1
}

/// For a finite double, its magnitude is `significand * 2^scale`.
pub open spec fn significand(b: u64) -> nat {
    if exponent_field(b) == 0 {
        mantissa_field(b)
    } else {
        mantissa_field(b) + two52()
    }
}

pub open spec fn scale(b: u64) -> int {
    if exponent_field(b) == 0 {
        -1074
    } else {
        exponent_field(b) - 1075
    }
}

/// `floor(|value|)` of a finite double.
pub open spec fn magnitude_floor(b: u64) -> nat {
    if scale(b) >= 0 {
        significand(b) * pow2(scale(b) as nat)
    } else {
        significand(b) / pow2((-scale(b)) as nat)
    }
}

/// A finite double whose value is a whole number.
pub open spec fn is_integral(b: u64) -> bool {
    scale(b) >= 0 || significand(b) % pow2((-scale(b)) as nat) == 0
}

/// The encoding `b` stands for the whole number `n` (and is not `-0`).
pub open spec fn encodes_nat(b: u64, n: nat) -> bool {
    &&& is_finite_bits(b)
    &&& !is_negative_bits(b)
    &&& is_integral(b)
    &&& magnitude_floor(b) == n
}

/// `n as u32` for a finite, non-negative `n`, and `0` for every other
/// double: truncation toward zero, saturating at `u32::MAX`.
pub open spec fn spec_array_length(b: u64) -> u32 {
    if !is_finite_bits(b) || is_negative_bits(b) {
        0
    } else if magnitude_floor(b) > u32::MAX {
        u32::MAX
    } else {
        magnitude_floor(b) as u32
    }
}

/// ECMA-262 `ToUint32`: `0` for NaN and the infinities, else the value
/// truncated toward zero, taken modulo `2^32`.
pub open spec fn spec_to_uint32(b: u64) -> nat {
    if !is_finite_bits(b) {
        0
    } else {
        let m = magnitude_floor(b) % 0x1_0000_0000;
        if is_negative_bits(b) && m != 0 {
            (0x1_0000_0000 - m) as nat
        } else {
            m
        }
    }
}

/// The radix `parseInt` settles on for its (numeric) radix argument `R`,
/// after ECMA-262 `ToInt32(R)`: `0` (no radix given: base 10, a `0x`
/// prefix allowed) when that is zero; the radix itself when it lies in
/// `2..=36`; none (the result is NaN) otherwise.  `ToInt32` and
/// `ToUint32` agree on `0..=36`, so the tests read the latter.
pub open spec fn spec_resolve_radix(b: u64) -> Option<u32> {
    let u = spec_to_uint32(b);
    if u == 0 {
        Some(0)
    } else if 2 <= u <= 36 {
        Some(u as u32)
    } else {
        None
    }
}

/// ECMA-262 `ToString(Number)`: `NaN`, `Infinity`, `-Infinity`, `0` for
/// both zeros, and otherwise the shortest decimal digits of the value
/// (those of its `Display` rendering), laid out in plain or exponent form
/// by magnitude ([`ecma_number_text`]).
pub open spec fn spec_number_to_string(b: u64, display: Seq<char>) -> Seq<char> {
    if is_nan_bits(b) {
        "NaN"@
    } else if is_infinite_bits(b) {
        if is_negative_bits(b) {
            "-Infinity"@
        } else {
            "Infinity"@
        }
    } else if is_zero_bits(b) {
        "0"@
    } else {
        ecma_number_text(display)
    }
}

/// The encoding's exponent and mantissa fields, and whether its sign bit is set.
fn fields(bits: u64) -> (r: (u64, u64, bool))
    ensures
        r.0 == exponent_field(bits),
        r.1 == mantissa_field(bits),
        r.2 == is_negative_bits(bits),
        r.0 < 0x800,
        r.1 < two52(),
{
    (bits / 0x10_0000_0000_0000 % 0x800, bits % 0x10_0000_0000_0000, bits >= 0x8000_0000_0000_0000)
}

pub fn is_nan(bits: u64) -> (r: bool)
    ensures
        r == is_nan_bits(bits),
{
    let (e, m, _) = fields(bits);
    e == 0x7ff && m != 0
}

pub fn is_finite(bits: u64) -> (r: bool)
    ensures
        r == is_finite_bits(bits),
{
    let (e, _, _) = fields(bits);
    e != 0x7ff
}

pub fn is_zero(bits: u64) -> (r: bool)
    ensures
        r == is_zero_bits(bits),
{
    let (e, m, _) = fields(bits);
    e == 0 && m == 0
}

pub fn is_negative(bits: u64) -> (r: bool)
    ensures
        r == is_negative_bits(bits),
{
    bits >= 0x8000_0000_0000_0000
}

proof fn lemma_pow2_52()
    ensures
        pow2(52) == two52(),
        pow2(32) == 0x1_0000_0000,
        pow2(53) == 2 * two52(),
        pow2(64) == 0x1_0000_0000_0000_0000,
{
    lemma2_to64();
    vstd::arithmetic::power2::lemma2_to64_rest();
}

/// For a finite, non-negative double: `floor(value)` when it fits in a
/// `u32` (none when it does not), and whether the value is whole.
fn floor_and_integral(bits: u64) -> (r: Option<(u32, bool)>)
    requires
        is_finite_bits(bits),
    ensures
        match r {
            Some((f, i)) => f == magnitude_floor(bits) && i == is_integral(bits),
            None => magnitude_floor(bits) > u32::MAX,
        },
{
    let (e, m, _) = fields(bits);
    proof {
        lemma_pow2_52();
    }
    if e == 0 {
        proof {
            lemma_pow2_strictly_increases(52, 1074);
            lemma_small_mod(m as nat, pow2(1074));
            lemma_basic_div(m as int, pow2(1074) as int);
        }
        return Some((0, m == 0));
    }
    let big: u64 = m + 0x10_0000_0000_0000;
    if e >= 1075 {
        proof {
            lemma_pow2_pos((e - 1075) as nat);
            lemma_mul_inequality(1, pow2((e - 1075) as nat) as int, big as int);
            lemma_mul_is_commutative(big as int, pow2((e - 1075) as nat) as int);
        }
        return None;
    }
    let shift: u64 = 1075 - e;
    if shift >= 64 {
        proof {
            lemma_pow2_strictly_increases(53, shift as nat);
            if shift > 64 {
                lemma_pow2_strictly_increases(64, shift as nat);
            }
            lemma_small_mod(big as nat, pow2(shift as nat));
            lemma_basic_div(big as int, pow2(shift as nat) as int);
        }
        return Some((0, false));
    }
    proof {
        lemma_pow2_strictly_increases(shift as nat, 64);
        lemma_pow2_pos(shift as nat);
        assert(1 * pow2(shift as nat) <= u64::MAX);
    }
    let pow: u64 = 1u64 << shift;
    proof {
        lemma_u64_shl_is_mul(1, shift);
        lemma_u64_shr_is_div(big, shift);
    }
    let q: u64 = big >> shift;
    let whole = big % pow == 0;
    if q > 0xffff_ffff {
        None
    } else {
        Some((q as u32, whole))
    }
}

/// `n as u32` for the length an array-shaped object records (see
/// [`spec_array_length`]).
pub fn array_length_of(bits: u64) -> (r: u32)
    ensures
        r == spec_array_length(bits),
{
    if !is_finite(bits) || is_negative(bits) {
        return 0;
    }
    match floor_and_integral(bits) {
        Some((f, _)) => f,
        None => u32::MAX,
    }
}

/// `floor(|value|) mod 2^32` of a finite double.
fn low_word_of_magnitude(bits: u64) -> (r: u64)
    requires
        is_finite_bits(bits),
    ensures
        r == magnitude_floor(bits) % 0x1_0000_0000,
{
    let (e, m, _) = fields(bits);
    proof {
        lemma_pow2_52();
        lemma2_to64();
    }
    if e == 0 {
        proof {
            lemma_pow2_strictly_increases(52, 1074);
            lemma_small_mod(m as nat, pow2(1074));
            lemma_basic_div(m as int, pow2(1074) as int);
        }
        return 0;
    }
    let big: u64 = m + 0x10_0000_0000_0000;
    if e >= 1075 {
        let s: u64 = e - 1075;
        if s >= 32 {
            proof {
                let k = pow2((s - 32) as nat);
                lemma_pow2_adds((s - 32) as nat, 32);
                assert(pow2(s as nat) == k * pow2(32));
                lemma_mul_is_associative(big as int, k as int, pow2(32) as int);
                lemma_mod_multiples_basic(big * k, pow2(32) as int);
            }
            return 0;
        }
        let low: u64 = big % 0x1_0000_0000;
        proof {
            lemma_pow2_strictly_increases(s as nat, 64);
            lemma_u64_shl_is_mul(1, s);
        }
        let p: u64 = 1u64 << s;
        proof {
            lemma_pow2_strictly_increases(s as nat, 32);
            lemma_mul_mod_noop_left(big as int, p as int, 0x1_0000_0000);
            assert(low * p <= 0xffff_ffff * 0x8000_0000) by (nonlinear_arith)
                requires
                    low < 0x1_0000_0000,
                    p <= 0x8000_0000,
            ;
        }
        return (low * p) % 0x1_0000_0000;
    }
    let shift: u64 = 1075 - e;
    if shift >= 64 {
        proof {
            lemma_pow2_strictly_increases(53, shift as nat);
            if shift > 64 {
                lemma_pow2_strictly_increases(64, shift as nat);
            }
            lemma_small_mod(big as nat, pow2(shift as nat));
            lemma_basic_div(big as int, pow2(shift as nat) as int);
        }
        return 0;
    }
    proof {
        lemma_u64_shr_is_div(big, shift);
    }
    let q: u64 = big >> shift;
    q % 0x1_0000_0000
}

/// ECMA-262 `ToUint32` of a double (see [`spec_to_uint32`]).
pub fn to_uint32(bits: u64) -> (r: u32)
    ensures
        r == spec_to_uint32(bits),
{
    if !is_finite(bits) {
        return 0;
    }
    let m = low_word_of_magnitude(bits);
    if is_negative(bits) && m != 0 {
        (0x1_0000_0000 - m) as u32
    } else {
        m as u32
    }
}

/// The radix `parseInt` settles on for its (numeric) radix argument (see
/// [`spec_resolve_radix`]).
pub fn resolve_radix(bits: u64) -> (r: Option<u32>)
    ensures
        r == spec_resolve_radix(bits),
{
    let u = to_uint32(bits);
    if u == 0 {
        Some(0)
    } else if 2 <= u && u <= 36 {
        Some(u)
    } else {
        None
    }
}

impl JsNumber {
    /// The double holding the whole number `n`, rendered in decimal.
    pub fn from_u32(n: u32) -> (r: JsNumber)
        ensures
            encodes_nat(r.bits, n as nat),
            r.display@ == crate::text::spec_decimal(n as nat),
    {
        let display = crate::text::string_of(&decimal_u64(n as u64));
        if n == 0 {
            proof {
                lemma2_to64();
                assert(significand(0) == 0);
                assert(0nat / pow2(1074) == 0) by {
                    lemma_pow2_pos(1074);
                }
                assert(0nat % pow2(1074) == 0) by {
                    lemma_pow2_pos(1074);
                    lemma_small_mod(0, pow2(1074));
                }
            }
            return JsNumber { bits: 0, display };
        }
        // k = floor(log2 n)
        let mut k: u64 = 0;
        let mut p: u64 = 1;
        proof {
            lemma2_to64();
        }
        while p <= (n as u64) / 2
            invariant
                k <= 31,
                p == pow2(k as nat),
                p <= n,
            decreases n - p,
        {
            proof {
                lemma_pow2_adds(k as nat, 1);
                lemma2_to64();
            }
            p = p * 2;
            k = k + 1;
            proof {
                if k > 31 {
                    lemma_pow2_strictly_increases(32, k as nat);
                }
            }
        }
        assert(p <= n && (n as int) < 2 * p);
        let shift: u64 = 52 - k;
        proof {
            lemma_pow2_52();
            lemma_pow2_adds(k as nat, shift as nat);
            lemma_pow2_pos(shift as nat);
            vstd::arithmetic::mul::lemma_mul_strict_inequality(n as int, 2 * p as int, pow2(shift as nat) as int);
            lemma_mul_inequality(p as int, n as int, pow2(shift as nat) as int);
            lemma_mul_is_associative(2, p as int, pow2(shift as nat) as int);
            assert(n * pow2(shift as nat) < 2 * two52());
            lemma_u64_shl_is_mul(n as u64, shift);
        }
        let big: u64 = (n as u64) << shift;
        let mant: u64 = big - 0x10_0000_0000_0000;
        let e: u64 = 1023 + k;
        let bits: u64 = e * 0x10_0000_0000_0000 + mant;
        proof {
            lemma_fundamental_div_mod_converse(bits as int, two52() as int, e as int, mant as int);
            lemma_small_mod(e as nat, 0x800);
            assert(exponent_field(bits) == e);
            assert(mantissa_field(bits) == mant);
            assert(significand(bits) == big);
            assert(scale(bits) == -(shift as int));
            lemma_pow2_pos(shift as nat);
            lemma_mod_multiples_basic(n as int, pow2(shift as nat) as int);
            lemma_div_by_multiple(n as int, pow2(shift as nat) as int);
        }
        JsNumber { bits, display }
    }
}

/// ECMA-262 `ToString(Number)` of `n` (see [`spec_number_to_string`]).
pub fn number_to_string(n: &JsNumber) -> (r: String)
    ensures
        r@ == spec_number_to_string(n.bits, n.display@),
{
    if is_nan(n.bits) {
        "NaN".to_owned()
    } else if !is_finite(n.bits) {
        if is_negative(n.bits) {
            "-Infinity".to_owned()
        } else {
            "Infinity".to_owned()
        }
    } else if is_zero(n.bits) {
        "0".to_owned()
    } else {
        string_of(&number_text(&chars_of(n.display.as_str())))
    }
}

} // verus!
