use ecma_runtime_cat::array::{build_array_object, is_array_impl};
use ecma_runtime_cat::json::parse_impl;
use ecma_runtime_cat::number::JsNumber;
use ecma_runtime_cat::object::{assign_impl, entries_impl, keys_impl, values_impl};
use ecma_runtime_cat::value::{Accessor, Completion, HeapView, JsValue, ObjectView, Slot, Step};

fn number(n: f64) -> JsValue {
    JsValue::Number(JsNumber { bits: n.to_bits(), display: format!("{n}") })
}

fn text(s: &str) -> JsValue {
    JsValue::String(s.to_string())
}

fn plain(props: Vec<(&str, JsValue)>) -> ObjectView {
    ObjectView {
        properties: props.into_iter().map(|(k, v)| (k.to_string(), v)).collect(),
        accessors: Vec::new(),
    }
}

/// The object an array literal evaluates to.
fn array_literal(values: Vec<JsValue>) -> ObjectView {
    let n = values.len();
    let mut props: Vec<(String, JsValue)> = values.into_iter().enumerate().map(|(i, v)| (format!("{i}"), v)).collect();
    props.push(("length".to_string(), number(n as f64)));
    ObjectView { properties: props, accessors: Vec::new() }
}

fn heap(objects: Vec<(u64, ObjectView)>) -> HeapView {
    HeapView { objects: objects.into_iter().map(|(id, o)| (id, Some(o))).collect(), promises: Vec::new() }
}

/// A value once a plan has run: allocated objects are indices.
#[derive(Debug, Clone, PartialEq)]
enum Built {
    Value(String),
    Num(f64),
    Obj(usize),
}

fn built(s: &Slot) -> Built {
    match s {
        Slot::Value(JsValue::Number(n)) => Built::Num(f64::from_bits(n.bits)),
        Slot::Value(JsValue::String(t)) => Built::Value(t.clone()),
        Slot::Value(_) => Built::Value(String::new()),
        Slot::NumberText(t) => Built::Num(t.parse::<f64>().unwrap()),
        Slot::WholeNumber(n) => Built::Num(f64::from(*n)),
        Slot::Fresh(k) => Built::Obj(*k),
    }
}

/// The objects a plan allocates, and its result.
fn run(c: &Completion) -> (Vec<Vec<(String, Built)>>, Built) {
    match c {
        Completion::Normal(plan) => {
            let mut objects = Vec::new();
            for step in &plan.steps {
                match step {
                    Step::NewObject(props) => objects.push(props.iter().map(|(k, s)| (k.clone(), built(s))).collect()),
                    _ => panic!("expected only allocations"),
                }
            }
            (objects, built(&plan.result))
        }
        Completion::Throw(_) => panic!("unexpected throw"),
    }
}

fn get(objects: &[Vec<(String, Built)>], v: &Built, key: &str) -> Built {
    match v {
        Built::Obj(k) => objects[*k].iter().find(|(n, _)| n == key).map(|(_, b)| b.clone()).expect("missing key"),
        _ => panic!("not an object"),
    }
}

fn approx(b: &Built, expected: f64) {
    match b {
        Built::Num(n) => assert!((n - expected).abs() < 1e-9, "got {n}, expected {expected}"),
        _ => panic!("expected a number, got {b:?}"),
    }
}

/// The target's state after `Object.assign`: the last object stored.
fn assigned(c: &Completion, before: &ObjectView) -> (JsValue, ObjectView) {
    match c {
        Completion::Normal(plan) => {
            let mut state = before.duplicate();
            for step in &plan.steps {
                match step {
                    Step::Store(_, o) => state = o.duplicate(),
                    _ => panic!("assign only stores"),
                }
            }
            match &plan.result {
                Slot::Value(v) => (v.duplicate(), state),
                _ => panic!("assign returns a value"),
            }
        }
        Completion::Throw(_) => panic!("unexpected throw"),
    }
}

fn data(o: &ObjectView, key: &str) -> f64 {
    match o.properties.iter().find(|(k, _)| k == key) {
        Some((_, JsValue::Number(n))) => f64::from_bits(n.bits),
        _ => panic!("missing number {key}"),
    }
}

fn boolean(v: JsValue) -> bool {
    match v {
        JsValue::Boolean(b) => b,
        _ => panic!("expected a boolean"),
    }
}

#[test]
fn object_keys_length_matches_property_count() {
    let h = heap(vec![(1, plain(vec![("a", number(1.0)), ("b", number(2.0)), ("c", number(3.0))]))]);
    let (objects, v) = run(&keys_impl(&vec![JsValue::Object(1)], &h));
    approx(&get(&objects, &v, "length"), 3.0);
}

#[test]
fn object_keys_returns_strings() {
    let h = heap(vec![(1, plain(vec![("hello", number(1.0))]))]);
    let (objects, v) = run(&keys_impl(&vec![JsValue::Object(1)], &h));
    assert_eq!(get(&objects, &v, "0"), Built::Value("hello".to_string()));
}

#[test]
fn object_keys_empty_object_returns_empty_array() {
    let h = heap(vec![(1, plain(vec![]))]);
    let (objects, v) = run(&keys_impl(&vec![JsValue::Object(1)], &h));
    approx(&get(&objects, &v, "length"), 0.0);
}

#[test]
fn object_keys_on_array_excludes_length() {
    let h = heap(vec![(1, array_literal(vec![number(10.0), number(20.0), number(30.0)]))]);
    let (objects, v) = run(&keys_impl(&vec![JsValue::Object(1)], &h));
    approx(&get(&objects, &v, "length"), 3.0);
    assert_eq!(get(&objects, &v, "2"), Built::Value("2".to_string()));
}

#[test]
fn object_values_returns_data_values_in_order() {
    let h = heap(vec![(1, plain(vec![("a", number(10.0)), ("b", number(20.0)), ("c", number(30.0))]))]);
    let (objects, v) = run(&values_impl(&vec![JsValue::Object(1)], &h));
    approx(&get(&objects, &v, "1"), 20.0);
}

#[test]
fn object_values_length_matches_property_count() {
    let h = heap(vec![(1, plain(vec![("a", number(1.0)), ("b", number(2.0)), ("c", number(3.0))]))]);
    let (objects, v) = run(&values_impl(&vec![JsValue::Object(1)], &h));
    approx(&get(&objects, &v, "length"), 3.0);
}

#[test]
fn object_entries_returns_pairs() {
    let h = heap(vec![(1, plain(vec![("hi", number(42.0))]))]);
    let (objects, v) = run(&entries_impl(&vec![JsValue::Object(1)], &h));
    let pair = get(&objects, &v, "0");
    assert_eq!(get(&objects, &pair, "0"), Built::Value("hi".to_string()));
}

#[test]
fn object_entries_value_at_second_slot() {
    let h = heap(vec![(1, plain(vec![("hi", number(42.0))]))]);
    let (objects, v) = run(&entries_impl(&vec![JsValue::Object(1)], &h));
    let pair = get(&objects, &v, "0");
    approx(&get(&objects, &pair, "1"), 42.0);
}

#[test]
fn object_entries_length_matches_property_count() {
    let h = heap(vec![(1, plain(vec![("a", number(1.0)), ("b", number(2.0)), ("c", number(3.0))]))]);
    let (objects, v) = run(&entries_impl(&vec![JsValue::Object(1)], &h));
    approx(&get(&objects, &v, "length"), 3.0);
}

#[test]
fn object_assign_copies_sources_into_target() {
    let t = plain(vec![("a", number(1.0))]);
    let h = heap(vec![
        (1, t.duplicate()),
        (2, plain(vec![("b", number(2.0))])),
        (3, plain(vec![("c", number(3.0))])),
    ]);
    let (_, state) = assigned(&assign_impl(&vec![JsValue::Object(1), JsValue::Object(2), JsValue::Object(3)], &h), &t);
    assert!((data(&state, "a") + data(&state, "b") + data(&state, "c") - 6.0).abs() < 1e-9);
}

#[test]
fn object_assign_later_source_wins() {
    let t = plain(vec![("x", number(1.0))]);
    let h = heap(vec![
        (1, t.duplicate()),
        (2, plain(vec![("x", number(2.0))])),
        (3, plain(vec![("x", number(3.0))])),
    ]);
    let (_, state) = assigned(&assign_impl(&vec![JsValue::Object(1), JsValue::Object(2), JsValue::Object(3)], &h), &t);
    assert!((data(&state, "x") - 3.0).abs() < 1e-9);
}

#[test]
fn object_assign_returns_target() {
    let t = plain(vec![]);
    let h = heap(vec![(1, t.duplicate()), (2, plain(vec![("x", number(5.0))]))]);
    let (r, state) = assigned(&assign_impl(&vec![JsValue::Object(1), JsValue::Object(2)], &h), &t);
    assert!(matches!(r, JsValue::Object(1)));
    assert!((data(&state, "x") - 5.0).abs() < 1e-9);
}

#[test]
fn object_assign_with_no_sources_returns_target_unchanged() {
    let t = plain(vec![("a", number(7.0))]);
    let h = heap(vec![(1, t.duplicate())]);
    let c = assign_impl(&vec![JsValue::Object(1)], &h);
    match &c {
        Completion::Normal(plan) => assert!(plan.steps.is_empty()),
        Completion::Throw(_) => panic!("unexpected throw"),
    }
    let (_, state) = assigned(&c, &t);
    assert!((data(&state, "a") - 7.0).abs() < 1e-9);
}

#[test]
fn array_is_array_true_for_array_literal() {
    let h = heap(vec![(1, array_literal(vec![]))]);
    assert!(boolean(is_array_impl(&vec![JsValue::Object(1)], &h)));
}

#[test]
fn array_is_array_true_for_populated_array() {
    let h = heap(vec![(1, array_literal(vec![number(1.0), number(2.0), number(3.0)]))]);
    assert!(boolean(is_array_impl(&vec![JsValue::Object(1)], &h)));
}

#[test]
fn array_is_array_false_for_plain_object() {
    let h = heap(vec![(1, plain(vec![]))]);
    assert!(!boolean(is_array_impl(&vec![JsValue::Object(1)], &h)));
}

#[test]
fn array_is_array_false_for_object_with_length() {
    let h = heap(vec![(1, plain(vec![("foo", text("bar")), ("length", number(3.0))]))]);
    assert!(!boolean(is_array_impl(&vec![JsValue::Object(1)], &h)));
}

#[test]
fn array_is_array_false_for_primitives() {
    let h = heap(vec![]);
    assert!(!boolean(is_array_impl(&vec![number(42.0)], &h)));
}

#[test]
fn array_is_array_false_for_string() {
    let h = heap(vec![]);
    assert!(!boolean(is_array_impl(&vec![text("hello")], &h)));
}

#[test]
fn array_is_array_true_for_json_parsed_array() {
    // Run `JSON.parse('[1, 2]')`'s plan into a heap, then ask `Array.isArray`.
    let c = parse_impl(&vec![text("[1, 2]")]);
    let props = match &c {
        Completion::Normal(plan) => match &plan.steps[0] {
            Step::NewObject(props) => props
                .iter()
                .map(|(k, s)| {
                    let v = match s {
                        Slot::NumberText(t) => number(t.parse::<f64>().unwrap()),
                        Slot::WholeNumber(n) => number(f64::from(*n)),
                        _ => panic!("unexpected slot"),
                    };
                    (k.clone(), v)
                })
                .collect(),
            _ => panic!("expected an allocation"),
        },
        Completion::Throw(_) => panic!("unexpected throw"),
    };
    let h = heap(vec![(7, ObjectView { properties: props, accessors: Vec::new() })]);
    assert!(boolean(is_array_impl(&vec![JsValue::Object(7)], &h)));
}

#[test]
fn is_array_needs_a_numeric_length() {
    let h = heap(vec![
        (1, plain(vec![("0", number(1.0)), ("length", text("1"))])),
        (2, plain(vec![("0", number(1.0))])),
        (3, plain(vec![("4294967295", number(1.0)), ("length", number(1.0))])),
        (4, plain(vec![("4294967296", number(1.0)), ("length", number(1.0))])),
    ]);
    assert!(!boolean(is_array_impl(&vec![JsValue::Object(1)], &h)));
    assert!(!boolean(is_array_impl(&vec![JsValue::Object(2)], &h)));
    assert!(boolean(is_array_impl(&vec![JsValue::Object(3)], &h)));
    assert!(!boolean(is_array_impl(&vec![JsValue::Object(4)], &h)));
    assert!(!boolean(is_array_impl(&vec![JsValue::Object(99)], &h)));
    let h = heap(vec![
        (1, plain(vec![("length", number(-1.0))])),
        (2, plain(vec![("length", number(f64::NAN))])),
        (3, plain(vec![("length", number(-0.0))])),
        (4, plain(vec![("length", number(f64::INFINITY))])),
    ]);
    assert!(!boolean(is_array_impl(&vec![JsValue::Object(1)], &h)));
    assert!(!boolean(is_array_impl(&vec![JsValue::Object(2)], &h)));
    assert!(boolean(is_array_impl(&vec![JsValue::Object(3)], &h)));
    assert!(boolean(is_array_impl(&vec![JsValue::Object(4)], &h)));
}

#[test]
fn keys_and_values_of_non_objects_are_empty() {
    let h = heap(vec![]);
    let (objects, v) = run(&keys_impl(&vec![number(3.0)], &h));
    approx(&get(&objects, &v, "length"), 0.0);
    let (objects, v) = run(&values_impl(&vec![JsValue::Object(5)], &h));
    approx(&get(&objects, &v, "length"), 0.0);
}

#[test]
fn assign_copies_accessors_and_evicts_data() {
    let t = plain(vec![("g", number(1.0)), ("k", number(2.0))]);
    let mut src = plain(vec![]);
    src.accessors.push(("g".to_string(), Accessor { get: Some(JsValue::Native(3)), set: None }));
    let h = heap(vec![(1, t.duplicate()), (2, src)]);
    let (_, state) = assigned(&assign_impl(&vec![JsValue::Object(1), JsValue::Object(2)], &h), &t);
    assert!(state.properties.iter().all(|(k, _)| k != "g"));
    assert!(state.accessors.iter().any(|(k, a)| k == "g" && matches!(a.get, Some(JsValue::Native(3)))));
    assert!((data(&state, "k") - 2.0).abs() < 1e-9);
}

#[test]
fn assign_passes_over_non_object_sources_and_targets() {
    let t = plain(vec![("a", number(1.0))]);
    let h = heap(vec![(1, t.duplicate())]);
    let c = assign_impl(&vec![JsValue::Object(1), number(3.0), JsValue::Object(42)], &h);
    match &c {
        Completion::Normal(plan) => assert!(plan.steps.is_empty()),
        Completion::Throw(_) => panic!("unexpected throw"),
    }
    let (r, _) = assigned(&assign_impl(&vec![text("x"), JsValue::Object(1)], &h), &t);
    assert!(matches!(r, JsValue::String(ref s) if s == "x"));
}

#[test]
fn built_arrays_hold_values_then_length() {
    match build_array_object(&vec![text("a"), number(2.0)]) {
        Step::NewObject(props) => {
            let keys: Vec<&str> = props.iter().map(|(k, _)| k.as_str()).collect();
            assert_eq!(keys, vec!["0", "1", "length"]);
            assert!(matches!(props[2].1, Slot::WholeNumber(2)));
        }
        _ => panic!("expected an allocation"),
    }
}

#[test]
fn object_keys_follow_ecma_order() {
    // The snapshot lists keys in string order, as the engine's map does.
    let h = heap(vec![(
        1,
        plain(vec![
            ("01", number(0.0)),
            ("10", number(1.0)),
            ("2", number(2.0)),
            ("4294967294", number(3.0)),
            ("4294967295", number(4.0)),
            ("a", number(5.0)),
            ("b", number(6.0)),
        ]),
    )]);
    let (objects, v) = run(&keys_impl(&vec![JsValue::Object(1)], &h));
    let keys: Vec<Built> = (0..7).map(|i| get(&objects, &v, &format!("{i}"))).collect();
    let expected = ["2", "10", "4294967294", "01", "4294967295", "a", "b"];
    for (k, e) in keys.iter().zip(expected) {
        assert_eq!(*k, Built::Value(e.to_string()));
    }
    let (objects, v) = run(&values_impl(&vec![JsValue::Object(1)], &h));
    approx(&get(&objects, &v, "0"), 2.0);
    approx(&get(&objects, &v, "1"), 1.0);
    approx(&get(&objects, &v, "3"), 0.0);
}

#[test]
fn repeated_keys_count_once_with_the_first_value() {
    let h = heap(vec![(1, plain(vec![("a", number(1.0)), ("b", number(2.0)), ("a", number(3.0))]))]);
    let (objects, v) = run(&keys_impl(&vec![JsValue::Object(1)], &h));
    approx(&get(&objects, &v, "length"), 2.0);
    assert_eq!(get(&objects, &v, "0"), Built::Value("a".to_string()));
    assert_eq!(get(&objects, &v, "1"), Built::Value("b".to_string()));
    let (objects, v) = run(&values_impl(&vec![JsValue::Object(1)], &h));
    approx(&get(&objects, &v, "length"), 2.0);
    approx(&get(&objects, &v, "0"), 1.0);
    approx(&get(&objects, &v, "1"), 2.0);
}
