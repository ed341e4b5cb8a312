use ecma_runtime_cat::console::render_args;
use ecma_runtime_cat::number::JsNumber;
use ecma_runtime_cat::value::JsValue;

fn number(n: f64) -> JsValue {
    JsValue::Number(JsNumber { bits: n.to_bits(), display: format!("{n}") })
}

#[test]
fn console_line_joins_arguments_with_spaces() {
    assert_eq!(render_args(&vec![JsValue::String("a".to_string()), number(1.5), JsValue::Null]), "a 1.5 null");
    assert_eq!(render_args(&vec![]), "");
    assert_eq!(render_args(&vec![JsValue::Undefined]), "undefined");
    assert_eq!(render_args(&vec![JsValue::Boolean(false), number(f64::NAN)]), "false NaN");
}
