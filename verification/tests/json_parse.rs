use ecma_runtime_cat::json::{
    decode_escape, decode_string, decode_unicode_escape, dispatch_escape, is_json_numeral, is_number_byte, parse_impl,
    stringify_impl, stringify_string,
};
use ecma_runtime_cat::number::JsNumber;
use ecma_runtime_cat::value::{Accessor, Completion, HeapView, JsValue, ObjectView, Plan, Slot, Step};

/// A value of a materialised plan: objects are indices into the built list.
#[derive(Debug, Clone, PartialEq)]
enum Built {
    Null,
    Bool(bool),
    Num(f64),
    Str(String),
    Obj(usize),
    Other,
}

/// Runs a plan the way the embedder does: allocates each object in turn.
fn materialise(plan: &Plan) -> (Vec<Vec<(String, Built)>>, Built) {
    let mut objects: Vec<Vec<(String, Built)>> = Vec::new();
    for step in &plan.steps {
        match step {
            Step::NewObject(props) => {
                let o = props.iter().map(|(k, s)| (k.clone(), slot(s))).collect();
                objects.push(o);
            }
            _ => panic!("JSON.parse only allocates objects"),
        }
    }
    (objects, slot(&plan.result))
}

fn slot(s: &Slot) -> Built {
    match s {
        Slot::Value(JsValue::Null) => Built::Null,
        Slot::Value(JsValue::Boolean(b)) => Built::Bool(*b),
        Slot::Value(JsValue::String(t)) => Built::Str(t.clone()),
        Slot::Value(JsValue::Number(n)) => Built::Num(f64::from_bits(n.bits)),
        Slot::Value(_) => Built::Other,
        Slot::NumberText(t) => Built::Num(t.parse::<f64>().unwrap()),
        Slot::WholeNumber(n) => Built::Num(f64::from(*n)),
        Slot::Fresh(k) => Built::Obj(*k),
    }
}

fn get(objects: &[Vec<(String, Built)>], v: &Built, key: &str) -> Built {
    match v {
        Built::Obj(k) => objects[*k]
            .iter()
            .rev()
            .find(|(name, _)| name == key)
            .map(|(_, b)| b.clone())
            .expect("missing property"),
        _ => panic!("not an object"),
    }
}

fn parse(source: &str) -> Completion {
    parse_impl(&vec![JsValue::String(source.to_string())])
}

/// The value `JSON.parse(source)` builds, with the objects it allocates.
fn parsed(source: &str) -> (Vec<Vec<(String, Built)>>, Built) {
    match parse(source) {
        Completion::Normal(plan) => materialise(&plan),
        Completion::Throw(_) => panic!("unexpected throw for {source}"),
    }
}

fn thrown(source: &str) -> String {
    match parse(source) {
        Completion::Throw(JsValue::String(s)) => s,
        _ => panic!("expected a thrown string for {source}"),
    }
}

fn approx(b: &Built, expected: f64) {
    match b {
        Built::Num(n) => assert!((n - expected).abs() < 1e-9, "got {n}, expected {expected}"),
        _ => panic!("expected a number, got {b:?}"),
    }
}

fn number(n: f64) -> JsValue {
    JsValue::Number(JsNumber { bits: n.to_bits(), display: format!("{n}") })
}

fn text(s: &str) -> JsValue {
    JsValue::String(s.to_string())
}

fn plain(props: Vec<(&str, JsValue)>) -> ObjectView {
    ObjectView {
        properties: props.into_iter().map(|(k, v)| (k.to_string(), v)).collect(),
        accessors: Vec::new(),
    }
}

fn heap(objects: Vec<(u64, ObjectView)>) -> HeapView {
    HeapView { objects: objects.into_iter().map(|(id, o)| (id, Some(o))).collect(), promises: Vec::new() }
}

fn stringify(v: JsValue, h: &HeapView) -> String {
    match stringify_impl(&vec![v], h) {
        Some(JsValue::String(s)) => s,
        _ => panic!("expected a string"),
    }
}

#[test]
fn parses_number_literal() {
    approx(&parsed("42").1, 42.0);
}

#[test]
fn parses_negative_number() {
    approx(&parsed("-3.5").1, -3.5);
}

#[test]
fn parses_scientific_notation() {
    approx(&parsed("1.5e2").1, 150.0);
}

#[test]
fn parses_boolean_true() {
    assert_eq!(parsed("true").1, Built::Bool(true));
}

#[test]
fn parses_boolean_false() {
    assert_eq!(parsed("false").1, Built::Bool(false));
}

#[test]
fn parses_null() {
    assert_eq!(parsed("null").1, Built::Null);
}

#[test]
fn parses_string() {
    assert_eq!(parsed("\"hello\"").1, Built::Str("hello".to_string()));
}

#[test]
fn parses_string_with_escapes() {
    assert_eq!(parsed("\"a\\nb\"").1, Built::Str("a\nb".to_string()));
}

#[test]
fn parses_string_with_unicode_escape() {
    assert_eq!(parsed("\"\\u0041\"").1, Built::Str("A".to_string()));
}

#[test]
fn parses_empty_array_length_zero() {
    let (objects, v) = parsed("[]");
    approx(&get(&objects, &v, "length"), 0.0);
}

#[test]
fn parses_array_round_trip() {
    let (objects, v) = parsed("[1, 2, 3]");
    approx(&get(&objects, &v, "1"), 2.0);
}

#[test]
fn parses_array_length() {
    let (objects, v) = parsed("[1, 2, 3]");
    approx(&get(&objects, &v, "length"), 3.0);
}

#[test]
fn parses_object_string_value() {
    let (objects, v) = parsed("{\"name\": \"Ada\"}");
    assert_eq!(get(&objects, &v, "name"), Built::Str("Ada".to_string()));
}

#[test]
fn parses_object_number_value() {
    let (objects, v) = parsed("{\"age\": 36}");
    approx(&get(&objects, &v, "age"), 36.0);
}

#[test]
fn parses_nested_object() {
    let (objects, v) = parsed("{\"a\": {\"b\": {\"c\": 7}}}");
    let a = get(&objects, &v, "a");
    let b = get(&objects, &a, "b");
    approx(&get(&objects, &b, "c"), 7.0);
}

#[test]
fn parses_array_of_objects() {
    let (objects, v) = parsed("[{\"v\": 1}, {\"v\": 2}, {\"v\": 3}]");
    let third = get(&objects, &v, "2");
    approx(&get(&objects, &third, "v"), 3.0);
}

#[test]
fn round_trips_through_stringify() {
    let h = heap(vec![(1, plain(vec![("x", number(10.0))]))]);
    let written = stringify(JsValue::Object(1), &h);
    let (objects, v) = parsed(&written);
    approx(&get(&objects, &v, "x"), 10.0);
}

#[test]
fn syntax_error_on_unterminated_string() {
    assert!(thrown("\"oops").starts_with("SyntaxError:"));
}

#[test]
fn syntax_error_on_trailing_content() {
    assert!(thrown("1 garbage").starts_with("SyntaxError:"));
}

#[test]
fn syntax_error_on_empty_input() {
    assert!(thrown("").starts_with("SyntaxError:"));
}

#[test]
fn each_syntax_error_message() {
    assert_eq!(thrown(""), "SyntaxError: unexpected end of input");
    assert_eq!(thrown("   "), "SyntaxError: unexpected end of input");
    assert_eq!(thrown("\"oops"), "SyntaxError: unterminated string literal");
    assert_eq!(thrown("1 garbage"), "SyntaxError: unexpected trailing content: \"garbage\"");
    assert_eq!(thrown("[1, 2"), "SyntaxError: unterminated array literal");
    assert_eq!(thrown("{\"a\": 1"), "SyntaxError: unterminated object literal");
    assert_eq!(thrown("{\"a\" 1}"), "SyntaxError: expected ':' after object key");
    assert_eq!(thrown("{1: 2}"), "SyntaxError: expected string key, got 49");
    assert_eq!(thrown("@"), "SyntaxError: unexpected byte 64 at start of value");
    assert_eq!(thrown("-"), "SyntaxError: invalid number \"-\"");
    assert_eq!(thrown("1.2.3"), "SyntaxError: invalid number \"1.2.3\"");
    assert_eq!(thrown("nul"), "SyntaxError: expected 'null'");
    assert_eq!(thrown("tru"), "SyntaxError: expected 'true' or 'false'");
    assert_eq!(thrown("\"\\"), "SyntaxError: lone backslash at end of input");
    assert_eq!(thrown("\"\\q\""), "SyntaxError: unknown escape \\q");
    assert_eq!(thrown("\"\\u12g4\""), "SyntaxError: invalid hex in \\u12g4");
    assert_eq!(thrown("\"\\u1\""), "SyntaxError: unicode escape needs four hex digits");
    assert_eq!(thrown("\"\\uzzzz\""), "SyntaxError: invalid hex in \\uzzzz");
    assert_eq!(thrown("\"\\ud800\""), "SyntaxError: invalid unicode code point 0xd800");
}

#[test]
fn separators_are_single_commas_between_items() {
    assert_eq!(thrown("[1 2]"), "SyntaxError: expected ',' or ']' after array element");
    assert_eq!(thrown("[1,]"), "SyntaxError: unexpected byte 93 at start of value");
    assert_eq!(thrown("[,1]"), "SyntaxError: unexpected byte 44 at start of value");
    assert_eq!(thrown("[1,,2]"), "SyntaxError: unexpected byte 44 at start of value");
    assert_eq!(thrown("{\"a\": 1 \"b\": 2}"), "SyntaxError: expected ',' or '}' after object member");
    assert_eq!(thrown("{\"a\": 1,}"), "SyntaxError: expected string key, got 125");
    let (objects, v) = parsed("[ 1 , 2 ]");
    approx(&get(&objects, &v, "length"), 2.0);
    let (objects, v) = parsed("{ \"a\" : 1 , \"b\" : 2 }");
    approx(&get(&objects, &v, "b"), 2.0);
    let (objects, v) = parsed("[ ]");
    approx(&get(&objects, &v, "length"), 0.0);
}

#[test]
fn numerals_follow_json_grammar() {
    for bad in ["01", "-01", "1.", "1.e5", "1e", "1e+", "-", "00", "1+2"] {
        assert_eq!(thrown(bad), format!("SyntaxError: invalid number {bad:?}"));
    }
    assert_eq!(thrown(".5"), "SyntaxError: unexpected byte 46 at start of value");
    assert_eq!(thrown("+1"), "SyntaxError: unexpected byte 43 at start of value");
    for good in ["0", "-0", "0.5", "10", "1e5", "1E-5", "-2.50e+3", "0e0"] {
        approx(&parsed(good).1, good.parse::<f64>().unwrap());
    }
}

#[test]
fn raw_control_characters_are_refused_in_strings() {
    assert_eq!(thrown("\"a\nb\""), "SyntaxError: control character in string literal");
    assert_eq!(thrown("\"\t\""), "SyntaxError: control character in string literal");
    assert_eq!(parsed("\"\\u007f\"").1, Built::Str("\u{7f}".to_string()));
}

#[test]
fn surrogate_pairs_decode_to_one_character() {
    assert_eq!(parsed("\"\\ud83d\\ude00\"").1, Built::Str("\u{1f600}".to_string()));
    assert_eq!(parsed("\"\\uD83D\\uDE00x\"").1, Built::Str("\u{1f600}x".to_string()));
    assert_eq!(thrown("\"\\ude00\""), "SyntaxError: invalid unicode code point 0xde00");
    assert_eq!(thrown("\"\\ud83dx\""), "SyntaxError: invalid unicode code point 0xd83d");
    assert_eq!(thrown("\"\\ud83d\\u0041\""), "SyntaxError: invalid unicode code point 0xd83d");
}

#[test]
fn unicode_escapes_need_four_hex_digits() {
    assert_eq!(thrown("\"\\u+041\""), "SyntaxError: invalid hex in \\u+041");
    assert_eq!(thrown("\"\\u-041\""), "SyntaxError: invalid hex in \\u-041");
    assert_eq!(parsed("\"\\u00E9\"").1, Built::Str("é".to_string()));
}

#[test]
fn later_duplicate_key_wins() {
    let (objects, v) = parsed("{\"a\": 1, \"a\": 2}");
    approx(&get(&objects, &v, "a"), 2.0);
}

#[test]
fn all_escapes_decode() {
    assert_eq!(
        parsed("\"\\\"\\\\\\/\\b\\f\\n\\r\\t\\u00e9x\"").1,
        Built::Str("\"\\/\u{8}\u{c}\n\r\té".to_string() + "x")
    );
}

#[test]
fn multibyte_text_passes_through() {
    assert_eq!(parsed("\"héllo→\"").1, Built::Str("héllo→".to_string()));
}

#[test]
fn escape_helpers() {
    let s: Vec<char> = "u0041rest".chars().collect();
    assert_eq!(decode_escape(&s, 0), Ok((vec!['A'], 5)));
    assert_eq!(dispatch_escape('n', &s, 0), Ok((vec!['\n'], 0)));
    let h: Vec<char> = "00e9".chars().collect();
    assert_eq!(decode_unicode_escape(&h, 0), Ok((vec!['é'], 4)));
    let q: Vec<char> = "ab\"c".chars().collect();
    assert_eq!(decode_string(&q, 0), Ok((vec!['a', 'b'], 3)));
    assert!(is_number_byte(b'7'));
    assert!(is_number_byte(b'e'));
    assert!(!is_number_byte(b','));
}

#[test]
fn stringify_string_escapes() {
    assert_eq!(stringify_string("plain"), "\"plain\"");
    assert_eq!(stringify_string("a\"b\\c\nd\re\tf\u{1}"), "\"a\\\"b\\\\c\\nd\\re\\tf\\u0001\"");
    assert_eq!(stringify_string("é"), "\"é\"");
}

#[test]
fn stringify_values() {
    let h = heap(vec![
        (1, plain(vec![("a", number(1.0)), ("b", text("x")), ("f", JsValue::Native(0)), ("n", JsValue::Null)])),
        (2, plain(vec![("0", number(1.5)), ("2", JsValue::Boolean(true)), ("length", number(3.0))])),
        (3, plain(vec![("inner", JsValue::Object(2))])),
    ]);
    assert_eq!(stringify(JsValue::Object(1), &h), "{\"a\":1,\"b\":\"x\",\"n\":null}");
    assert_eq!(stringify(JsValue::Object(2), &h), "[1.5,null,true]");
    assert_eq!(stringify(JsValue::Object(3), &h), "{\"inner\":[1.5,null,true]}");
    assert_eq!(stringify(number(f64::NAN), &h), "null");
    assert_eq!(stringify(number(-0.0), &h), "0");
    assert_eq!(stringify(JsValue::Boolean(false), &h), "false");
    assert!(matches!(stringify_impl(&vec![JsValue::Undefined], &h), Some(JsValue::Undefined)));
    assert!(matches!(stringify_impl(&vec![JsValue::Object(9)], &h), Some(JsValue::Undefined)));
    assert!(matches!(stringify_impl(&vec![], &h), Some(JsValue::Undefined)));
}

#[test]
fn stringify_refuses_a_cycle() {
    let h = heap(vec![(1, plain(vec![("me", JsValue::Object(1))]))]);
    assert!(stringify_impl(&vec![JsValue::Object(1)], &h).is_none());
}

#[test]
fn stringify_skips_accessors() {
    let mut o = plain(vec![("a", number(2.0))]);
    o.accessors.push(("g".to_string(), Accessor { get: Some(JsValue::Native(1)), set: None }));
    let h = heap(vec![(4, o)]);
    assert_eq!(stringify(JsValue::Object(4), &h), "{\"a\":2}");
}

#[test]
fn stringify_then_parse_gives_the_same_tree() {
    let h = heap(vec![
        (1, plain(vec![("k", text("tab\there")), ("list", JsValue::Object(2))])),
        (2, plain(vec![("0", number(-2.25)), ("1", JsValue::Null), ("length", number(2.0))])),
    ]);
    let written = stringify(JsValue::Object(1), &h);
    let (objects, v) = parsed(&written);
    assert_eq!(get(&objects, &v, "k"), Built::Str("tab\there".to_string()));
    let list = get(&objects, &v, "list");
    approx(&get(&objects, &list, "0"), -2.25);
    assert_eq!(get(&objects, &list, "1"), Built::Null);
    approx(&get(&objects, &list, "length"), 2.0);
}

/// Every fresh slot of a plan names an allocation made before it.
fn refers_back(plan: &Plan) -> bool {
    let ok = |s: &Slot, at: usize| match s {
        Slot::Fresh(k) => *k < at,
        _ => true,
    };
    plan.steps.iter().enumerate().all(|(i, st)| match st {
        Step::NewObject(props) => props.iter().all(|(_, s)| ok(s, i)),
        Step::NewPromise(_, s) => ok(s, i),
        Step::Store(_, _) => true,
    }) && ok(&plan.result, plan.steps.len())
}

#[test]
fn parse_plans_refer_back() {
    for source in ["[[1, [2]], {\"a\": {\"b\": []}}, 3]", "{\"x\": [{}, {\"y\": [null]}]}", "7", "[]"] {
        match parse(source) {
            Completion::Normal(plan) => assert!(refers_back(&plan), "{source}"),
            Completion::Throw(_) => panic!("unexpected throw"),
        }
    }
}

/// RFC 8259's `number` production, written directly.
fn rfc_numeral(t: &str) -> bool {
    let b = t.as_bytes();
    let mut i = 0;
    if i < b.len() && b[i] == b'-' {
        i += 1;
    }
    if i < b.len() && b[i] == b'0' {
        i += 1;
    } else if i < b.len() && (b'1'..=b'9').contains(&b[i]) {
        while i < b.len() && b[i].is_ascii_digit() {
            i += 1;
        }
    } else {
        return false;
    }
    if i < b.len() && b[i] == b'.' {
        i += 1;
        let s = i;
        while i < b.len() && b[i].is_ascii_digit() {
            i += 1;
        }
        if i == s {
            return false;
        }
    }
    if i < b.len() && (b[i] == b'e' || b[i] == b'E') {
        i += 1;
        if i < b.len() && (b[i] == b'+' || b[i] == b'-') {
            i += 1;
        }
        let s = i;
        while i < b.len() && b[i].is_ascii_digit() {
            i += 1;
        }
        if i == s {
            return false;
        }
    }
    i == b.len()
}

#[test]
fn numerals_accepted_agree_with_the_json_grammar() {
    let alphabet = ['1', '0', '-', '+', '.', 'e', 'E'];
    let mut texts: Vec<String> = vec![String::new()];
    let mut frontier: Vec<String> = vec![String::new()];
    for _ in 0..5 {
        let mut next = Vec::new();
        for t in &frontier {
            for c in alphabet {
                let mut u = t.clone();
                u.push(c);
                next.push(u);
            }
        }
        texts.extend(next.iter().cloned());
        frontier = next;
    }
    for t in texts {
        let chars: Vec<char> = t.chars().collect();
        let accepted = is_json_numeral(&chars);
        assert_eq!(accepted, rfc_numeral(&t), "{t:?}");
        if accepted {
            assert!(t.parse::<f64>().is_ok(), "{t:?}");
        }
    }
}

#[test]
fn only_json_white_space_separates_tokens() {
    assert_eq!(parsed(" \t\r\n[ 1 ]\n").1, Built::Obj(0));
    assert_eq!(thrown("\u{a0}1"), "SyntaxError: unexpected byte 194 at start of value");
    assert_eq!(thrown("1\u{2028}"), "SyntaxError: unexpected trailing content: \"\\u{2028}\"");
}

#[test]
fn stringify_lists_index_keys_first_in_numeric_order() {
    let h = heap(vec![(
        1,
        plain(vec![("b", number(1.0)), ("10", number(2.0)), ("a", number(3.0)), ("2", number(4.0)), ("01", number(5.0))]),
    )]);
    assert_eq!(stringify(JsValue::Object(1), &h), "{\"2\":4,\"10\":2,\"b\":1,\"a\":3,\"01\":5}");
}

#[test]
fn stringify_writes_a_repeated_key_once() {
    let h = heap(vec![(1, plain(vec![("a", number(1.0)), ("b", number(2.0)), ("a", number(3.0))]))]);
    assert_eq!(stringify(JsValue::Object(1), &h), "{\"a\":1,\"b\":2}");
}

#[test]
fn stringify_writes_numbers_as_ecma_to_string() {
    let h = heap(vec![(1, plain(vec![("big", number(1e21)), ("small", number(1e-7)), ("neg", number(-1.5e300))]))]);
    assert_eq!(stringify(JsValue::Object(1), &h), "{\"big\":1e+21,\"small\":1e-7,\"neg\":-1.5e+300}");
}

#[test]
fn number_texts_are_json_numerals() {
    let mut x = 1.0e-30f64;
    while x < 1e40 {
        for v in [x, -x, x * 1.2345678901, x / 7.0] {
            let t = stringify(number(v), &heap(vec![]));
            assert!(is_json_numeral(&t.chars().collect()), "{t}");
        }
        x *= 10.0;
    }
}

#[test]
fn far_numbers_round_trip_through_stringify() {
    let h = heap(vec![(1, plain(vec![("big", number(1e21)), ("small", number(-1.5e-7))]))]);
    let (objects, v) = parsed(&stringify(JsValue::Object(1), &h));
    approx(&get(&objects, &v, "big"), 1e21);
    approx(&get(&objects, &v, "small"), -1.5e-7);
}
