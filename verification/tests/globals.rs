use ecma_runtime_cat::coercion::{to_number, NumberSource};
use ecma_runtime_cat::globals::{
    boolean_impl, number_impl, parse_float_impl, parse_int_impl, parse_int_radix_arg, string_impl,
};
use ecma_runtime_cat::number::{is_finite, is_nan, JsNumber};
use ecma_runtime_cat::value::JsValue;

fn text(s: &str) -> JsValue {
    JsValue::String(s.to_string())
}

fn number(n: f64) -> JsValue {
    JsValue::Number(JsNumber { bits: n.to_bits(), display: format!("{n}") })
}

/// The double a `NumberSource` stands for, read as the embedder reads it.
fn double_of(s: &NumberSource) -> f64 {
    match s {
        NumberSource::Bits(b) => f64::from_bits(*b),
        NumberSource::Text(t) => t.parse::<f64>().unwrap(),
        NumberSource::Digits(r, ds) => ds.iter().fold(0.0, |acc, d| acc * f64::from(*r) + f64::from(*d)),
    }
}

/// `parseInt(args...)` finished as the embedder finishes it.
fn parse_int(args: Vec<JsValue>) -> f64 {
    let radix = parse_int_radix_arg(&args);
    let bits = double_of(&radix).to_bits();
    match parse_int_impl(&args, bits) {
        Some((negative, r, digits)) => {
            let m = if r == 10 {
                let t: String = digits.iter().map(|d| char::from_digit(*d, 10).unwrap()).collect();
                t.parse::<f64>().unwrap()
            } else {
                digits.iter().fold(0.0, |acc, d| acc * f64::from(r) + f64::from(*d))
            };
            if negative {
                -m
            } else {
                m
            }
        }
        None => f64::NAN,
    }
}

fn string_result(v: JsValue) -> String {
    match v {
        JsValue::String(s) => s,
        _ => panic!("expected a string"),
    }
}

fn boolean_result(v: JsValue) -> bool {
    match v {
        JsValue::Boolean(b) => b,
        _ => panic!("expected a boolean"),
    }
}

#[test]
fn parse_int_decimal() {
    assert!((parse_int(vec![text("42")]) - 42.0).abs() < 1e-9);
}

#[test]
fn parse_int_hex() {
    assert!((parse_int(vec![text("1f"), number(16.0)]) - 31.0).abs() < 1e-9);
}

#[test]
fn parse_float_decimal() {
    let t = parse_float_impl(&vec![text("2.5")]);
    assert_eq!(t, "2.5");
    assert!((t.parse::<f64>().unwrap() - 2.5).abs() < 1e-9);
}

#[test]
fn is_nan_global() {
    assert!(is_nan(double_of(&to_number(&number(f64::NAN))).to_bits()));
    assert!(!is_nan(double_of(&to_number(&number(1.0))).to_bits()));
}

#[test]
fn is_finite_global() {
    assert!(is_finite(double_of(&to_number(&number(1.0))).to_bits()));
    assert!(!is_finite(double_of(&to_number(&number(f64::INFINITY))).to_bits()));
    assert!(!is_finite(double_of(&to_number(&number(f64::NAN))).to_bits()));
}

#[test]
fn number_constructor() {
    assert!((double_of(&number_impl(&vec![text("42")])) - 42.0).abs() < 1e-9);
    assert!((double_of(&number_impl(&vec![])) - 0.0).abs() < 1e-9);
    assert!((double_of(&number_impl(&vec![JsValue::Boolean(true)])) - 1.0).abs() < 1e-9);
}

#[test]
fn string_constructor() {
    assert_eq!(string_result(string_impl(&vec![number(42.0)])), "42");
    assert_eq!(string_result(string_impl(&vec![JsValue::Boolean(true)])), "true");
    assert_eq!(string_result(string_impl(&vec![])), "");
}

#[test]
fn boolean_constructor() {
    assert!(!boolean_result(boolean_impl(&vec![number(0.0)])));
    assert!(boolean_result(boolean_impl(&vec![number(1.0)])));
    assert!(!boolean_result(boolean_impl(&vec![text("")])));
    assert!(boolean_result(boolean_impl(&vec![text("x")])));
}

#[test]
fn parse_int_edge_cases() {
    // Sign, surrounding white space, leading zeros in hexadecimal.
    assert_eq!(parse_int(vec![text("  -17  ")]), -17.0);
    assert_eq!(parse_int(vec![text("+8")]), 8.0);
    assert_eq!(parse_int(vec![text("00ff"), number(16.0)]), 255.0);
    assert_eq!(parse_int(vec![text("101"), number(2.0)]), 5.0);
    assert_eq!(parse_int(vec![text("z"), number(36.0)]), 35.0);
    assert_eq!(parse_int(vec![text("9223372036854775807")]), 9223372036854775807.0);
    assert_eq!(parse_int(vec![text("9223372036854775808")]), 9223372036854775808.0);
    // The longest run of digits counts; a `0x` prefix in base 16 or with no radix.
    assert_eq!(parse_int(vec![text("12px")]), 12.0);
    assert_eq!(parse_int(vec![text("0x1f"), number(16.0)]), 31.0);
    assert_eq!(parse_int(vec![text("0X1F")]), 31.0);
    assert_eq!(parse_int(vec![text("-0x10")]), -16.0);
    assert_eq!(parse_int(vec![text("0x1f"), number(10.0)]), 0.0);
    assert_eq!(parse_int(vec![text("3.9")]), 3.0);
    assert_eq!(parse_int(vec![text("1e3")]), 1.0);
    assert_eq!(parse_int(vec![text("21"), number(2.0)]).is_nan(), true);
    // NaN: no digit read, or an unusable radix.
    assert!(parse_int(vec![text("px")]).is_nan());
    assert!(parse_int(vec![text("")]).is_nan());
    assert!(parse_int(vec![text("0x")]).is_nan());
    assert!(parse_int(vec![text("-")]).is_nan());
    assert!(parse_int(vec![text("2"), number(2.0)]).is_nan());
    assert!(parse_int(vec![text("1"), number(37.0)]).is_nan());
    assert!(parse_int(vec![text("1"), number(1.0)]).is_nan());
    assert!(parse_int(vec![text("1"), number(-16.0)]).is_nan());
    // `ToInt32` of the radix: 0, NaN, the infinities and values truncating
    // to zero mean "none given"; others truncate.
    assert_eq!(parse_int(vec![text("10"), number(0.0)]), 10.0);
    assert_eq!(parse_int(vec![text("10"), JsValue::Undefined]), 10.0);
    assert_eq!(parse_int(vec![text("10"), number(f64::INFINITY)]), 10.0);
    assert_eq!(parse_int(vec![text("10"), number(0.7)]), 10.0);
    assert_eq!(parse_int(vec![text("10"), number(16.5)]), 16.0);
    assert_eq!(parse_int(vec![text("10"), number(36.5)]), 36.0);
    assert_eq!(parse_int(vec![text("10"), number(4294967312.0)]), 16.0);
    assert_eq!(parse_int(vec![text("10"), number(4294967296.0)]), 10.0);
    assert!(parse_int(vec![text("-0")]) == 0.0 && parse_int(vec![text("-0")]).is_sign_negative());
}

/// ECMA-262 `parseInt` for radix arguments within `i32`, written directly.
fn reference_parse_int(s: &str, radix: f64) -> f64 {
    let r = if radix.is_finite() { radix.trunc() as i64 } else { 0 };
    let t = s.trim();
    let (negative, mut body) = match t.chars().next() {
        Some('-') => (true, &t[1..]),
        Some('+') => (false, &t[1..]),
        _ => (false, t),
    };
    let mut r = r as u32;
    if radix.is_finite() && radix.trunc() != 0.0 && (radix.trunc() < 2.0 || radix.trunc() > 36.0) {
        return f64::NAN;
    }
    let strip = r == 0 || r == 16;
    if r == 0 {
        r = 10;
    }
    if strip && (body.starts_with("0x") || body.starts_with("0X")) {
        body = &body[2..];
        r = 16;
    }
    let digits: Vec<u32> = body.chars().map_while(|c| c.to_digit(r)).collect();
    if digits.is_empty() {
        return f64::NAN;
    }
    let m = if r == 10 {
        digits.iter().map(|d| char::from_digit(*d, 10).unwrap()).collect::<String>().parse::<f64>().unwrap()
    } else {
        digits.iter().fold(0.0, |acc, d| acc * f64::from(r) + f64::from(*d))
    };
    if negative {
        -m
    } else {
        m
    }
}

#[test]
fn parse_int_agrees_with_the_ecma_algorithm() {
    let texts = ["123", "-7f", "0x1f", "0X", "777", "1e3", " 12 ", "zz", "Z9", "+0x10", "  -0", "12.5", "", "9a"];
    let radixes = [f64::NAN, 0.0, 2.0, 8.0, 10.0, 16.0, 16.9, 36.0, 37.0, 1.0, -2.0, 0.4];
    for t in texts {
        for radix in radixes {
            let expected = reference_parse_int(t, radix);
            let got = parse_int(vec![text(t), number(radix)]);
            assert!(
                (got.is_nan() && expected.is_nan()) || (got == expected && got.is_sign_negative() == expected.is_sign_negative()),
                "{t:?} in {radix}: {got} vs {expected}"
            );
        }
    }
}

#[test]
fn parse_float_trims_the_text() {
    assert_eq!(parse_float_impl(&vec![text("  3.25\n")]), "3.25");
    assert_eq!(parse_float_impl(&vec![JsValue::Null]), "");
    assert_eq!(parse_float_impl(&vec![]), "");
}

#[test]
fn to_number_of_each_kind() {
    assert!(double_of(&to_number(&JsValue::Undefined)).is_nan());
    assert_eq!(double_of(&to_number(&JsValue::Null)), 0.0);
    assert_eq!(double_of(&to_number(&JsValue::Boolean(false))), 0.0);
    assert_eq!(double_of(&to_number(&text("   "))), 0.0);
    assert!(matches!(to_number(&text(" 4 ")), NumberSource::Text(ref t) if t == "4"));
    assert!(double_of(&to_number(&JsValue::Object(1))).is_nan());
    assert!(double_of(&to_number(&text("abc"))).is_nan());
}

#[test]
fn to_number_follows_string_to_number() {
    let cases: [(&str, f64); 15] = [
        (" 42 ", 42.0),
        ("\u{feff}5\u{2028}", 5.0),
        ("1e3", 1000.0),
        ("0x1A", 26.0),
        ("0X1a", 26.0),
        ("0b101", 5.0),
        ("0o17", 15.0),
        ("Infinity", f64::INFINITY),
        ("-Infinity", f64::NEG_INFINITY),
        ("+Infinity", f64::INFINITY),
        ("1.", 1.0),
        (".5", 0.5),
        ("-.5e1", -5.0),
        ("007", 7.0),
        ("\u{a0}12\n", 12.0),
    ];
    for (t, expected) in cases {
        assert_eq!(double_of(&to_number(&text(t))), expected, "{t:?}");
    }
    for t in ["inf", "infinity", "NaN", "nan", "0x", "-0x1", "0xg", "0b2", "1e", ".", "+", "1 2", "12px", "0x1.5", "\u{85}1"] {
        assert!(double_of(&to_number(&text(t))).is_nan(), "{t:?}");
    }
}

#[test]
fn boolean_of_each_kind() {
    assert!(!boolean_result(boolean_impl(&vec![])));
    assert!(!boolean_result(boolean_impl(&vec![JsValue::Null])));
    assert!(!boolean_result(boolean_impl(&vec![number(f64::NAN)])));
    assert!(!boolean_result(boolean_impl(&vec![number(-0.0)])));
    assert!(boolean_result(boolean_impl(&vec![JsValue::Object(2)])));
    assert!(boolean_result(boolean_impl(&vec![number(f64::INFINITY)])));
}

#[test]
fn string_of_each_kind() {
    assert_eq!(string_result(string_impl(&vec![JsValue::Undefined])), "undefined");
    assert_eq!(string_result(string_impl(&vec![number(f64::NEG_INFINITY)])), "-Infinity");
    assert_eq!(string_result(string_impl(&vec![number(f64::INFINITY)])), "Infinity");
    assert_eq!(string_result(string_impl(&vec![JsValue::Function(5)])), "function fn#5() { [native code] }");
    assert_eq!(string_result(string_impl(&vec![JsValue::Native(0)])), "function () { [native code] }");
}

#[test]
fn parse_float_reads_the_longest_decimal_prefix() {
    assert_eq!(parse_float_impl(&vec![text("3.14abc")]), "3.14");
    assert_eq!(parse_float_impl(&vec![text("  -.5e-3z")]), "-.5e-3");
    assert_eq!(parse_float_impl(&vec![text("1e")]), "1");
    assert_eq!(parse_float_impl(&vec![text("5.")]), "5.");
    assert_eq!(parse_float_impl(&vec![text(".5.")]), ".5");
    assert_eq!(parse_float_impl(&vec![text("Infinityx")]), "Infinity");
    assert_eq!(parse_float_impl(&vec![text("-Infinity")]), "-Infinity");
    assert_eq!(parse_float_impl(&vec![text("0x10")]), "0");
    assert_eq!(parse_float_impl(&vec![text("inf")]), "");
    assert_eq!(parse_float_impl(&vec![text("abc")]), "");
    assert_eq!(parse_float_impl(&vec![text("")]), "");
    assert!("".parse::<f64>().is_err());
    assert_eq!("-Infinity".parse::<f64>().unwrap(), f64::NEG_INFINITY);
}

#[test]
fn parsing_skips_ecma_white_space_only() {
    assert_eq!(parse_int(vec![text("\u{feff}12")]), 12.0);
    assert!(parse_int(vec![text("\u{85}12")]).is_nan());
    assert_eq!(parse_float_impl(&vec![text("\u{feff}2.5")]), "2.5");
    assert_eq!(parse_float_impl(&vec![text("\u{85}2.5")]), "");
}
