//! The standard `Error` constructors: `Error`, `TypeError`, `RangeError`,
//! `SyntaxError`, `ReferenceError`, `EvalError`, `URIError`.  Each builds
//! an object with a `name` (the constructor's) and a `message` (`ToString`
//! of the first argument, empty when it is missing or `undefined`).

use vstd::prelude::*;

use crate::coercion::{first_arg, to_string, spec_to_string, spec_arg_at};
use crate::text::{chars_of, string_of};
use crate::value::{JsValue, Val, vals, Slot, SlotV, Step, StepV, slot_props_view, steps_view, Plan, PlanV, Completion, CompletionV,
    runnable, step_refers_back, slot_refers_back};

verus! {

/// The message an error constructor records for its arguments.
pub open spec fn error_message(args: Seq<Val>) -> Seq<char> {
    match spec_arg_at(args, 0) {
        Val::Undefined => seq![],
        v => spec_to_string(v),
    }
}

/// A fresh object `{ name, message }`, returned.
pub open spec fn error_object(name: Seq<char>, args: Seq<Val>) -> CompletionV {
    CompletionV::Normal(
        PlanV {
            steps: seq![
                StepV::NewObject(
                    seq![
                        ("name"@, SlotV::Value(Val::String(name))),
                        ("message"@, SlotV::Value(Val::String(error_message(args)))),
                    ],
                ),
            ],
            result: SlotV::Fresh(0),
        },
    )
}

fn build_error(name: &str, args: &Vec<JsValue>) -> (r: Completion)
    ensures
        r@ == error_object(name@, vals(args@)),
{
    let message_value = first_arg(args);
    let message = match message_value {
        JsValue::Undefined => String::new(),
        _ => to_string(&message_value),
    };
    let mut props: Vec<(String, Slot)> = Vec::new();
    props.push((string_of(&chars_of("name")), Slot::Value(JsValue::String(string_of(&chars_of(name))))));
    props.push((string_of(&chars_of("message")), Slot::Value(JsValue::String(message))));
    let mut steps: Vec<Step> = Vec::new();
    steps.push(Step::NewObject(props));
    assert(slot_props_view(props@) =~= seq![
        ("name"@, SlotV::Value(Val::String(name@))),
        ("message"@, SlotV::Value(Val::String(error_message(vals(args@))))),
    ]);
    assert(steps_view(steps@) =~= seq![StepV::NewObject(slot_props_view(props@))]);
    Completion::Normal(Plan { steps, result: Slot::Fresh(0) })
}

/// `Error(message?)`.
pub fn error_impl(args: &Vec<JsValue>) -> (r: Completion)
    ensures
        r@ == error_object("Error"@, vals(args@)),
{
    build_error("Error", args)
}

/// `TypeError(message?)`.
pub fn type_error_impl(args: &Vec<JsValue>) -> (r: Completion)
    ensures
        r@ == error_object("TypeError"@, vals(args@)),
{
    build_error("TypeError", args)
}

/// `RangeError(message?)`.
pub fn range_error_impl(args: &Vec<JsValue>) -> (r: Completion)
    ensures
        r@ == error_object("RangeError"@, vals(args@)),
{
    build_error("RangeError", args)
}

/// `SyntaxError(message?)`.
pub fn syntax_error_impl(args: &Vec<JsValue>) -> (r: Completion)
    ensures
        r@ == error_object("SyntaxError"@, vals(args@)),
{
    build_error("SyntaxError", args)
}

/// `ReferenceError(message?)`.
pub fn reference_error_impl(args: &Vec<JsValue>) -> (r: Completion)
    ensures
        r@ == error_object("ReferenceError"@, vals(args@)),
{
    build_error("ReferenceError", args)
}

/// `EvalError(message?)`.
pub fn eval_error_impl(args: &Vec<JsValue>) -> (r: Completion)
    ensures
        r@ == error_object("EvalError"@, vals(args@)),
{
    build_error("EvalError", args)
}

/// `URIError(message?)`.
pub fn uri_error_impl(args: &Vec<JsValue>) -> (r: Completion)
    ensures
        r@ == error_object("URIError"@, vals(args@)),
{
    build_error("URIError", args)
}

/// An error constructor's plan can be run: one allocation, returned.
pub proof fn law_error_plans_are_runnable(name: Seq<char>, args: Seq<Val>)
    ensures
        error_object(name, args) matches CompletionV::Normal(p) && runnable(p),
{
    let ps = seq![
        ("name"@, SlotV::Value(Val::String(name))),
        ("message"@, SlotV::Value(Val::String(error_message(args)))),
    ];
    let steps = seq![StepV::NewObject(ps)];
    assert forall|j: int| 0 <= j < ps.len() implies slot_refers_back(steps, #[trigger] ps[j].1, 0) by {}
    assert(step_refers_back(steps, 0));
    assert forall|i: nat| i < steps.len() implies #[trigger] step_refers_back(steps, i) by {}
}


/// An error constructor records its first argument, turned into a string,
/// as the message (a string as it is), and the empty message when it is
/// missing or `undefined`.
pub proof fn law_error_message(args: Seq<Val>)
    ensures
        (args.len() == 0 || args[0] is Undefined) ==> error_message(args) == Seq::<char>::empty(),
        (args.len() > 0 && args[0] matches Val::String(s)) ==> error_message(args) == args[0]->String_0,
        (args.len() > 0 && !(args[0] is Undefined)) ==> error_message(args) == spec_to_string(args[0]),
{
}

} // verus!
