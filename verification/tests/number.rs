use ecma_runtime_cat::number::{array_length_of, is_finite, is_nan, is_negative, is_zero, number_to_string, resolve_radix, to_uint32, JsNumber};

fn js(n: f64) -> JsNumber {
    JsNumber { bits: n.to_bits(), display: format!("{n}") }
}

#[test]
fn number_to_string_cases() {
    assert_eq!(number_to_string(&js(f64::NAN)), "NaN");
    assert_eq!(number_to_string(&js(f64::INFINITY)), "Infinity");
    assert_eq!(number_to_string(&js(f64::NEG_INFINITY)), "-Infinity");
    assert_eq!(number_to_string(&js(0.0)), "0");
    assert_eq!(number_to_string(&js(-0.0)), "0");
    assert_eq!(number_to_string(&js(-12.5)), "-12.5");
    assert_eq!(number_to_string(&js(0.1)), "0.1");
}

#[test]
fn classification_agrees_with_std() {
    for x in [0.0, -0.0, 1.0, -2.5, f64::NAN, f64::INFINITY, f64::NEG_INFINITY, f64::MIN_POSITIVE, 5e-324, f64::MAX] {
        let b = x.to_bits();
        assert_eq!(is_nan(b), x.is_nan(), "{x}");
        assert_eq!(is_finite(b), x.is_finite(), "{x}");
        assert_eq!(is_zero(b), x == 0.0, "{x}");
        assert_eq!(is_negative(b), x.is_sign_negative(), "{x}");
    }
}

#[test]
fn array_length_truncates_and_saturates() {
    for x in [0.0, 3.0, 3.9, -1.0, -0.0, 4294967295.0, 4294967296.5, 1e300, f64::NAN, f64::INFINITY, 0.5] {
        let expected = if x.is_finite() && x >= 0.0 { x as u32 } else { 0 };
        assert_eq!(array_length_of(x.to_bits()), expected, "{x}");
    }
}

#[test]
fn radix_resolution() {
    assert_eq!(resolve_radix(f64::NAN.to_bits()), Some(0));
    assert_eq!(resolve_radix(0.0f64.to_bits()), Some(0));
    assert_eq!(resolve_radix((-0.0f64).to_bits()), Some(0));
    assert_eq!(resolve_radix(f64::INFINITY.to_bits()), Some(0));
    assert_eq!(resolve_radix(f64::NEG_INFINITY.to_bits()), Some(0));
    assert_eq!(resolve_radix((-0.5f64).to_bits()), Some(0));
    assert_eq!(resolve_radix(2.0f64.to_bits()), Some(2));
    assert_eq!(resolve_radix(16.7f64.to_bits()), Some(16));
    assert_eq!(resolve_radix(36.0f64.to_bits()), Some(36));
    assert_eq!(resolve_radix(36.5f64.to_bits()), Some(36));
    assert_eq!(resolve_radix(37.0f64.to_bits()), None);
    assert_eq!(resolve_radix(1.5f64.to_bits()), None);
    assert_eq!(resolve_radix((-8.0f64).to_bits()), None);
    for x in [2.0f64, 10.0, 35.99, 36.0, 36.99, 37.0, 1.99, 0.99, -1.0, -36.0, 1e10] {
        let t = x.trunc();
        let expected = if t == 0.0 { Some(0) } else if (2.0..=36.0).contains(&t) { Some(t as u32) } else { None };
        assert_eq!(resolve_radix(x.to_bits()), expected, "{x}");
    }
}

#[test]
fn whole_numbers_from_u32() {
    for n in [0u32, 1, 7, 1024, 4294967295] {
        let j = JsNumber::from_u32(n);
        assert_eq!(j.bits, f64::from(n).to_bits());
        assert_eq!(j.display, format!("{n}"));
    }
}

#[test]
fn radix_wraps_as_to_int32() {
    assert_eq!(resolve_radix(4294967312.0f64.to_bits()), Some(16));
    assert_eq!(resolve_radix((-4294967280.0f64).to_bits()), Some(16));
    assert_eq!(resolve_radix(4294967296.0f64.to_bits()), Some(0));
    assert_eq!(resolve_radix(1e300f64.to_bits()), Some(0));
    assert_eq!(resolve_radix((-1.0f64).to_bits()), None);
}

#[test]
fn to_uint32_matches_ecma() {
    let cases: [(f64, u32); 12] = [
        (0.0, 0),
        (-0.0, 0),
        (f64::NAN, 0),
        (f64::INFINITY, 0),
        (1.9, 1),
        (-1.9, 4294967295),
        (4294967295.0, 4294967295),
        (4294967296.0, 0),
        (4294967297.5, 1),
        (-4294967297.0, 4294967295),
        (9007199254740993.0, 0),
        (1e-320, 0),
    ];
    for (x, expected) in cases {
        assert_eq!(to_uint32(x.to_bits()), expected, "{x}");
    }
    for x in [123456789012.0f64, -98765432109.0, 2f64.powi(52) + 7.0, 2f64.powi(40) * 3.0 + 5.0] {
        let t = x.trunc();
        let expected = t.rem_euclid(4294967296.0) as u32;
        assert_eq!(to_uint32(x.to_bits()), expected, "{x}");
    }
}

#[test]
fn number_to_string_uses_exponent_form_far_from_one() {
    assert_eq!(number_to_string(&js(1e21)), "1e+21");
    assert_eq!(number_to_string(&js(1e-7)), "1e-7");
    assert_eq!(number_to_string(&js(-1.5e300)), "-1.5e+300");
    assert_eq!(number_to_string(&js(1.5e-7)), "1.5e-7");
    assert_eq!(number_to_string(&js(1.23e27)), "1.23e+27");
    assert_eq!(number_to_string(&js(5e-324)), "5e-324");
    assert_eq!(number_to_string(&js(f64::MAX)), "1.7976931348623157e+308");
    assert_eq!(number_to_string(&js(1e20)), "100000000000000000000");
    assert_eq!(number_to_string(&js(123456789012345680000.0)), "123456789012345680000");
    assert_eq!(number_to_string(&js(1e-6)), "0.000001");
    assert_eq!(number_to_string(&js(-0.0000012)), "-0.0000012");
    assert_eq!(number_to_string(&js(123.456)), "123.456");
    assert_eq!(number_to_string(&js(4294967295.0)), "4294967295");
}

/// ECMA-262 `Number::toString` laid out from Rust's shortest digits in
/// exponent form (`{:e}`), written directly.
fn reference_to_string(x: f64) -> String {
    let e_form = format!("{:e}", x.abs());
    let (mantissa, exp) = e_form.split_once('e').unwrap();
    let digits: String = mantissa.chars().filter(|c| *c != '.').collect();
    let k = digits.len() as i64;
    let n = exp.parse::<i64>().unwrap() + 1;
    let body = if k <= n && n <= 21 {
        format!("{digits}{}", "0".repeat((n - k) as usize))
    } else if 0 < n && n <= 21 {
        format!("{}.{}", &digits[..n as usize], &digits[n as usize..])
    } else if -6 < n && n <= 0 {
        format!("0.{}{digits}", "0".repeat((-n) as usize))
    } else {
        let m = if k == 1 { digits.clone() } else { format!("{}.{}", &digits[..1], &digits[1..]) };
        let sign = if n - 1 >= 0 { '+' } else { '-' };
        format!("{m}e{sign}{}", (n - 1).abs())
    };
    if x < 0.0 {
        format!("-{body}")
    } else {
        body
    }
}

#[test]
fn number_to_string_agrees_with_the_ecma_layout() {
    let mut x = 1.0e-12f64;
    while x < 1e30 {
        for v in [x, -x, x * 1.2345678901, x / 3.0, x * 7.0] {
            assert_eq!(number_to_string(&js(v)), reference_to_string(v), "{v:e}");
        }
        x *= 10.0;
    }
    for v in [f64::MIN_POSITIVE, 5e-324, f64::MAX, 0.1 + 0.2, 1.0 / 3.0, 2f64.powi(70)] {
        assert_eq!(number_to_string(&js(v)), reference_to_string(v), "{v:e}");
    }
}
