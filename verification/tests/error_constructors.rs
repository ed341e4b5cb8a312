use ecma_runtime_cat::error_constructors::{
    error_impl, eval_error_impl, range_error_impl, reference_error_impl, syntax_error_impl,
    type_error_impl, uri_error_impl,
};
use ecma_runtime_cat::number::JsNumber;
use ecma_runtime_cat::value::{Completion, JsValue, Slot, Step};

fn text(s: &str) -> JsValue {
    JsValue::String(s.to_string())
}

fn number(n: f64) -> JsValue {
    JsValue::Number(JsNumber { bits: n.to_bits(), display: format!("{n}") })
}

/// The string property `key` of the one object the call allocates and returns.
fn property(c: &Completion, key: &str) -> String {
    match c {
        Completion::Normal(plan) => {
            assert!(matches!(plan.result, Slot::Fresh(0)));
            assert_eq!(plan.steps.len(), 1);
            match &plan.steps[0] {
                Step::NewObject(props) => {
                    for (k, v) in props {
                        if k == key {
                            match v {
                                Slot::Value(JsValue::String(s)) => return s.clone(),
                                _ => panic!("property {key} is not a string"),
                            }
                        }
                    }
                    panic!("no property {key}")
                }
                _ => panic!("expected an object allocation"),
            }
        }
        Completion::Throw(_) => panic!("unexpected throw"),
    }
}

#[test]
fn error_carries_message_from_constructor_arg() {
    assert_eq!(property(&error_impl(&vec![text("oops")]), "message"), "oops");
}

#[test]
fn error_carries_name() {
    assert_eq!(property(&error_impl(&vec![text("oops")]), "name"), "Error");
}

#[test]
fn error_with_no_arg_has_empty_message() {
    assert_eq!(property(&error_impl(&vec![]), "message"), "");
}

#[test]
fn error_via_new_keyword_returns_same_shape() {
    // `new Error('boom')` runs the same native; the engine keeps the object it returns.
    let c = error_impl(&vec![text("boom")]);
    assert_eq!(property(&c, "message"), "boom");
    assert_eq!(property(&c, "name"), "Error");
}

#[test]
fn error_message_coerces_non_string_arg() {
    assert_eq!(property(&error_impl(&vec![number(42.0)]), "message"), "42");
}

#[test]
fn type_error_carries_correct_name() {
    assert_eq!(property(&type_error_impl(&vec![text("bad")]), "name"), "TypeError");
}

#[test]
fn range_error_carries_correct_name() {
    assert_eq!(property(&range_error_impl(&vec![]), "name"), "RangeError");
}

#[test]
fn syntax_error_carries_correct_name() {
    assert_eq!(property(&syntax_error_impl(&vec![]), "name"), "SyntaxError");
}

#[test]
fn reference_error_carries_correct_name() {
    assert_eq!(property(&reference_error_impl(&vec![]), "name"), "ReferenceError");
}

#[test]
fn eval_error_carries_correct_name() {
    assert_eq!(property(&eval_error_impl(&vec![]), "name"), "EvalError");
}

#[test]
fn uri_error_carries_correct_name() {
    assert_eq!(property(&uri_error_impl(&vec![]), "name"), "URIError");
}

#[test]
fn throw_error_caught_as_object_with_message() {
    // `throw new Error('something broke')`: the thrown object's message.
    assert_eq!(property(&error_impl(&vec![text("something broke")]), "message"), "something broke");
}

#[test]
fn throw_type_error_caught_with_name() {
    assert_eq!(property(&type_error_impl(&vec![text("bad type")]), "name"), "TypeError");
}

#[test]
fn error_message_of_other_values() {
    assert_eq!(property(&error_impl(&vec![JsValue::Null]), "message"), "null");
    assert_eq!(property(&error_impl(&vec![JsValue::Undefined]), "message"), "");
    assert_eq!(property(&error_impl(&vec![JsValue::Boolean(true)]), "message"), "true");
    assert_eq!(property(&error_impl(&vec![number(1.5)]), "message"), "1.5");
    assert_eq!(property(&error_impl(&vec![number(f64::NAN)]), "message"), "NaN");
    assert_eq!(property(&error_impl(&vec![number(-0.0)]), "message"), "0");
    assert_eq!(property(&error_impl(&vec![JsValue::Promise(3)]), "message"), "[object Promise]");
    assert_eq!(property(&error_impl(&vec![JsValue::Object(7)]), "message"), "[object Object#7]");
}

#[test]
fn error_constructors_record_both_properties_in_one_allocation() {
    for c in [
        error_impl(&vec![text("m")]),
        type_error_impl(&vec![text("m")]),
        range_error_impl(&vec![text("m")]),
        syntax_error_impl(&vec![text("m")]),
        reference_error_impl(&vec![text("m")]),
        eval_error_impl(&vec![text("m")]),
        uri_error_impl(&vec![text("m")]),
    ] {
        assert_eq!(property(&c, "message"), "m");
    }
}
