use ecma_runtime_cat::number::JsNumber;
use ecma_runtime_cat::promise::{all_impl, race_impl, reject_impl, resolve_impl};
use ecma_runtime_cat::value::{Completion, HeapView, JsValue, ObjectView, PromiseView, Slot, Step};

fn number(n: f64) -> JsValue {
    JsValue::Number(JsNumber { bits: n.to_bits(), display: format!("{n}") })
}

fn text(s: &str) -> JsValue {
    JsValue::String(s.to_string())
}

fn array_literal(values: Vec<JsValue>) -> ObjectView {
    let n = values.len();
    let mut props: Vec<(String, JsValue)> = values.into_iter().enumerate().map(|(i, v)| (format!("{i}"), v)).collect();
    props.push(("length".to_string(), number(n as f64)));
    ObjectView { properties: props, accessors: Vec::new() }
}

/// A heap holding the array object `1` and the settled promises given.
fn heap(array: Vec<JsValue>, promises: Vec<(u64, PromiseView)>) -> HeapView {
    HeapView {
        objects: vec![(1, Some(array_literal(array)))],
        promises: promises.into_iter().map(|(id, p)| (id, Some(p))).collect(),
    }
}

/// What a call settles to once its plan has run: the promise it returns,
/// read back as its state, with the array objects it allocated.
enum Settles {
    Resolved(Slot),
    Rejected(Slot),
}

fn settles(c: Completion) -> (Settles, Vec<Vec<(String, Slot)>>) {
    match c {
        Completion::Normal(plan) => {
            let mut objects = Vec::new();
            let mut promises = Vec::new();
            for step in plan.steps {
                match step {
                    Step::NewObject(props) => objects.push(props),
                    Step::NewPromise(rejected, slot) => promises.push((rejected, slot)),
                    Step::Store(_, _) => panic!("promise statics store nothing"),
                }
            }
            match plan.result {
                Slot::Fresh(k) => {
                    assert_eq!(k, objects.len() + promises.len() - 1, "the promise is allocated last");
                    let (rejected, slot) = promises.pop().expect("a promise");
                    let s = if rejected { Settles::Rejected(slot) } else { Settles::Resolved(slot) };
                    (s, objects)
                }
                _ => panic!("expected a fresh promise"),
            }
        }
        Completion::Throw(_) => panic!("unexpected throw"),
    }
}

fn num_of(s: &Slot) -> f64 {
    match s {
        Slot::Value(JsValue::Number(n)) => f64::from_bits(n.bits),
        Slot::WholeNumber(n) => f64::from(*n),
        _ => panic!("expected a number"),
    }
}

fn str_of(s: &Slot) -> String {
    match s {
        Slot::Value(JsValue::String(t)) => t.clone(),
        _ => panic!("expected a string"),
    }
}

fn prop<'a>(objects: &'a [Vec<(String, Slot)>], s: &Slot, key: &str) -> &'a Slot {
    match s {
        Slot::Fresh(k) => &objects[*k].iter().find(|(n, _)| n == key).expect("missing key").1,
        _ => panic!("not a fresh object"),
    }
}

#[test]
fn promise_resolve_returns_resolved_promise() {
    match settles(resolve_impl(&vec![number(7.0)])).0 {
        Settles::Resolved(v) => assert!((num_of(&v) - 7.0).abs() < 1e-9),
        Settles::Rejected(_) => panic!("expected 7 captured from Promise.resolve"),
    }
}

#[test]
fn promise_resolve_short_circuits_on_existing_promise() {
    // `inner = Promise.resolve(42)` is promise 5; resolving it again returns it.
    match resolve_impl(&vec![JsValue::Promise(5)]) {
        Completion::Normal(plan) => {
            assert!(plan.steps.is_empty());
            assert!(matches!(plan.result, Slot::Value(JsValue::Promise(5))));
        }
        Completion::Throw(_) => panic!("unexpected throw"),
    }
}

#[test]
fn promise_reject_returns_rejected_promise() {
    match settles(reject_impl(&vec![text("boom")])).0 {
        Settles::Rejected(v) => assert_eq!(str_of(&v), "boom"),
        Settles::Resolved(_) => panic!("expected 'boom' caught from Promise.reject"),
    }
}

#[test]
fn promise_all_with_settled_inputs_resolves_with_array() {
    let h = heap(
        vec![number(1.0), JsValue::Promise(10), number(3.0)],
        vec![(10, PromiseView::Resolved(number(2.0)))],
    );
    let (s, objects) = settles(all_impl(&vec![JsValue::Object(1)], &h));
    match s {
        Settles::Resolved(arr) => assert!((num_of(prop(&objects, &arr, "1")) * 10.0 - 20.0).abs() < 1e-9),
        Settles::Rejected(_) => panic!("expected 20 from Promise.all([1, P(2), 3])[1] * 10"),
    }
}

#[test]
fn promise_all_short_circuits_on_first_rejection() {
    let h = heap(
        vec![number(1.0), JsValue::Promise(10), number(3.0)],
        vec![(10, PromiseView::Rejected(text("bad")))],
    );
    match settles(all_impl(&vec![JsValue::Object(1)], &h)).0 {
        Settles::Rejected(v) => assert_eq!(str_of(&v), "bad"),
        Settles::Resolved(_) => panic!("expected 'bad' caught from short-circuit Promise.all"),
    }
}

#[test]
fn promise_race_picks_first_settled() {
    let h = heap(
        vec![JsValue::Promise(10), JsValue::Promise(11)],
        vec![(10, PromiseView::Resolved(number(99.0))), (11, PromiseView::Resolved(number(2.0)))],
    );
    match settles(race_impl(&vec![JsValue::Object(1)], &h)).0 {
        Settles::Resolved(v) => assert!((num_of(&v) - 99.0).abs() < 1e-9),
        Settles::Rejected(_) => panic!("expected 99 (first input wins)"),
    }
}

#[test]
fn promise_race_picks_first_rejected() {
    let h = heap(
        vec![JsValue::Promise(10), JsValue::Promise(11)],
        vec![(10, PromiseView::Rejected(text("first"))), (11, PromiseView::Resolved(number(2.0)))],
    );
    match settles(race_impl(&vec![JsValue::Object(1)], &h)).0 {
        Settles::Rejected(v) => assert_eq!(str_of(&v), "first"),
        Settles::Resolved(_) => panic!("expected 'first' (rejected first input wins)"),
    }
}

#[test]
fn promise_all_empty_array_resolves_to_empty_array() {
    let h = heap(vec![], vec![]);
    let (s, objects) = settles(all_impl(&vec![JsValue::Object(1)], &h));
    match s {
        Settles::Resolved(arr) => assert!((num_of(prop(&objects, &arr, "length")) - 0.0).abs() < 1e-9),
        Settles::Rejected(_) => panic!("expected 0 from Promise.all([]).then(arr => arr.length)"),
    }
}

#[test]
fn typeof_promise_resolve_is_object() {
    // The result is a freshly allocated promise handle, which `typeof` reports as "object".
    match resolve_impl(&vec![number(1.0)]) {
        Completion::Normal(plan) => {
            assert!(matches!(plan.result, Slot::Fresh(0)));
            assert!(matches!(plan.steps[0], Step::NewPromise(false, _)));
        }
        Completion::Throw(_) => panic!("expected 'object'"),
    }
}

#[test]
fn pending_inputs_throw_type_errors() {
    let h = heap(vec![JsValue::Promise(10)], vec![(10, PromiseView::Pending)]);
    match all_impl(&vec![JsValue::Object(1)], &h) {
        Completion::Throw(JsValue::String(s)) => assert_eq!(
            s,
            "TypeError: Promise.all over Pending inputs is unsupported in this engine's synchronous model"
        ),
        _ => panic!("expected a TypeError"),
    }
    match race_impl(&vec![JsValue::Object(1)], &h) {
        Completion::Throw(JsValue::String(s)) => assert_eq!(
            s,
            "TypeError: Promise.race over Pending-only inputs is unsupported in this engine's synchronous model"
        ),
        _ => panic!("expected a TypeError"),
    }
}

#[test]
fn race_passes_over_pending_inputs() {
    let h = heap(
        vec![JsValue::Promise(10), text("later")],
        vec![(10, PromiseView::Pending)],
    );
    match settles(race_impl(&vec![JsValue::Object(1)], &h)).0 {
        Settles::Resolved(v) => assert_eq!(str_of(&v), "later"),
        Settles::Rejected(_) => panic!("expected the first settled input"),
    }
}

#[test]
fn all_stops_at_a_pending_input_before_a_rejection() {
    let h = heap(
        vec![JsValue::Promise(10), JsValue::Promise(11)],
        vec![(10, PromiseView::Pending), (11, PromiseView::Rejected(text("no")))],
    );
    assert!(matches!(all_impl(&vec![JsValue::Object(1)], &h), Completion::Throw(_)));
}

#[test]
fn reject_wraps_a_promise_too() {
    match settles(reject_impl(&vec![JsValue::Promise(3)])).0 {
        Settles::Rejected(Slot::Value(JsValue::Promise(3))) => {}
        _ => panic!("expected a rejection holding the promise"),
    }
}

#[test]
fn all_over_a_non_array_resolves_to_an_empty_array() {
    let h = heap(vec![], vec![]);
    let (s, objects) = settles(all_impl(&vec![number(4.0)], &h));
    match s {
        Settles::Resolved(arr) => assert!((num_of(prop(&objects, &arr, "length")) - 0.0).abs() < 1e-9),
        Settles::Rejected(_) => panic!("expected an empty array"),
    }
}
