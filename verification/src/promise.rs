//! The `Promise` statics `resolve`, `reject`, `all` and `race`, over
//! inputs that have already settled (the engine has no way to suspend a
//! native call on a pending promise).

use vstd::prelude::*;

use crate::array::{array_entries, spec_array_entries, build_array_object, array_object};
use crate::coercion::{first_arg, spec_arg_at};
use crate::text::{chars_of, string_of};
use crate::value::{JsValue, Val, HeapView, HeapV, PromiseView, PromiseV, heap_promise, vals, Slot, SlotV, Step, StepV,
    steps_view, Plan, PlanV, Completion, CompletionV, return_value, normal_return, runnable, step_refers_back,
    slot_refers_back};

verus! {

/// A settled input: its outcome and value.
pub enum Settled {
    Resolved(JsValue),
    Rejected(JsValue),
}

pub enum SettledV {
    Resolved(Val),
    Rejected(Val),
}

impl View for Settled {
    type V = SettledV;

    open spec fn view(&self) -> SettledV {
        match self {
            Settled::Resolved(v) => SettledV::Resolved(v@),
            Settled::Rejected(v) => SettledV::Rejected(v@),
        }
    }
}

/// How an input counts: a settled promise by its state, any other value
/// as resolved with itself; a pending (or missing) promise not at all.
pub open spec fn spec_classify_entry(h: HeapV, v: Val) -> Option<SettledV> {
    match v {
        Val::Promise(id) => match heap_promise(h, id) {
            Some(PromiseV::Resolved(x)) => Some(SettledV::Resolved(x)),
            Some(PromiseV::Rejected(x)) => Some(SettledV::Rejected(x)),
            _ => None,
        },
        _ => Some(SettledV::Resolved(v)),
    }
}

fn classify_entry(value: &JsValue, heap: &HeapView) -> (r: Option<Settled>)
    ensures
        match r {
            Some(s) => spec_classify_entry(heap@, value@) == Some(s@),
            None => spec_classify_entry(heap@, value@) is None,
        },
{
    match value {
        JsValue::Promise(id) => match heap.promise(*id) {
            Some(PromiseView::Resolved(x)) => Some(Settled::Resolved(x.duplicate())),
            Some(PromiseView::Rejected(x)) => Some(Settled::Rejected(x.duplicate())),
            _ => None,
        },
        _ => Some(Settled::Resolved(value.duplicate())),
    }
}

/// What `Promise.all` finds among its inputs.
pub enum SettleAll {
    AllResolved(Vec<JsValue>),
    FirstRejected(JsValue),
    SomePending,
}

pub enum SettleAllV {
    AllResolved(Seq<Val>),
    FirstRejected(Val),
    SomePending,
}

impl View for SettleAll {
    type V = SettleAllV;

    open spec fn view(&self) -> SettleAllV {
        match self {
            SettleAll::AllResolved(vs) => SettleAllV::AllResolved(vals(vs@)),
            SettleAll::FirstRejected(v) => SettleAllV::FirstRejected(v@),
            SettleAll::SomePending => SettleAllV::SomePending,
        }
    }
}

/// The first `n` inputs, scanned in order: their values while all are
/// resolved, else the first that is rejected or pending decides.
pub open spec fn spec_settle_all(h: HeapV, es: Seq<Val>, n: nat) -> SettleAllV
    decreases n,
{
    if n == 0 {
        SettleAllV::AllResolved(seq![])
    } else {
        match spec_settle_all(h, es, (n - 1) as nat) {
            SettleAllV::AllResolved(vs) => match spec_classify_entry(h, es[n - 1]) {
                Some(SettledV::Resolved(v)) => SettleAllV::AllResolved(vs.push(v)),
                Some(SettledV::Rejected(v)) => SettleAllV::FirstRejected(v),
                None => SettleAllV::SomePending,
            },
            other => other,
        }
    }
}

fn settle_all(entries: &Vec<JsValue>, heap: &HeapView) -> (r: SettleAll)
    ensures
        r@ == spec_settle_all(heap@, vals(entries@), entries.len() as nat),
{
    let mut values: Vec<JsValue> = Vec::new();
    let mut i: usize = 0;
    assert(vals(values@) =~= seq![]);
    while i < entries.len()
        invariant
            i <= entries.len(),
            spec_settle_all(heap@, vals(entries@), i as nat) == SettleAllV::AllResolved(vals(values@)),
        decreases entries.len() - i,
    {
        assert(vals(entries@)[i as int] == entries@[i as int]@);
        match classify_entry(&entries[i], heap) {
            Some(Settled::Resolved(v)) => {
                let ghost old_values = values@;
                let ghost vv = v@;
                values.push(v);
                assert(vals(values@) =~= vals(old_values).push(vv));
            },
            Some(Settled::Rejected(v)) => {
                proof {
                    lemma_settled_stays(heap@, vals(entries@), (i + 1) as nat, entries.len() as nat);
                }
                return SettleAll::FirstRejected(v);
            },
            None => {
                proof {
                    lemma_settled_stays(heap@, vals(entries@), (i + 1) as nat, entries.len() as nat);
                }
                return SettleAll::SomePending;
            },
        }
        i = i + 1;
    }
    SettleAll::AllResolved(values)
}

/// Once an input other than a resolved one is met, later inputs change
/// nothing.
proof fn lemma_settled_stays(h: HeapV, es: Seq<Val>, k: nat, n: nat)
    requires
        k <= n,
        !(spec_settle_all(h, es, k) is AllResolved),
    ensures
        spec_settle_all(h, es, n) == spec_settle_all(h, es, k),
    decreases n - k,
{
    if k < n {
        lemma_settled_stays(h, es, k, (n - 1) as nat);
    }
}

/// `"TypeError: <message>"`, the engine's loose error value.
pub open spec fn type_error_value(message: Seq<char>) -> Val {
    Val::String("TypeError: "@ + message)
}

fn type_error(message: &str) -> (r: JsValue)
    ensures
        r@ == type_error_value(message@),
{
    let mut v = chars_of("TypeError: ");
    crate::text::extend(&mut v, chars_of(message));
    JsValue::String(string_of(&v))
}

/// A plan allocating one promise, settled as `rejected` says with `v`.
pub open spec fn settled_promise(rejected: bool, v: SlotV) -> CompletionV {
    CompletionV::Normal(PlanV { steps: seq![StepV::NewPromise(rejected, v)], result: SlotV::Fresh(0) })
}

fn new_promise(rejected: bool, v: JsValue) -> (r: Completion)
    ensures
        r@ == settled_promise(rejected, SlotV::Value(v@)),
{
    let mut steps: Vec<Step> = Vec::new();
    steps.push(Step::NewPromise(rejected, Slot::Value(v)));
    assert(steps_view(steps@) =~= seq![StepV::NewPromise(rejected, SlotV::Value(v@))]);
    Completion::Normal(Plan { steps, result: Slot::Fresh(0) })
}

/// `Promise.resolve(v)`: `v` itself when it is a promise, else a fresh
/// promise resolved with `v`.
pub open spec fn spec_resolve(args: Seq<Val>) -> CompletionV {
    let v = spec_arg_at(args, 0);
    if v is Promise {
        normal_return(v)
    } else {
        settled_promise(false, SlotV::Value(v))
    }
}

/// `Promise.resolve` (see [`spec_resolve`]).
pub fn resolve_impl(args: &Vec<JsValue>) -> (r: Completion)
    ensures
        r@ == spec_resolve(vals(args@)),
{
    let v = first_arg(args);
    match v {
        JsValue::Promise(_) => return_value(v),
        _ => new_promise(false, v),
    }
}

/// `Promise.reject(v)`: a fresh promise rejected with `v`, promise or not.
pub open spec fn spec_reject(args: Seq<Val>) -> CompletionV {
    settled_promise(true, SlotV::Value(spec_arg_at(args, 0)))
}

/// `Promise.reject` (see [`spec_reject`]).
pub fn reject_impl(args: &Vec<JsValue>) -> (r: Completion)
    ensures
        r@ == spec_reject(vals(args@)),
{
    new_promise(true, first_arg(args))
}

pub open spec fn all_pending_message() -> Seq<char> {
    "Promise.all over Pending inputs is unsupported in this engine's synchronous model"@
}

pub open spec fn race_pending_message() -> Seq<char> {
    "Promise.race over Pending-only inputs is unsupported in this engine's synchronous model"@
}

/// `Promise.all(array)`: when every element is a resolved promise or not a
/// promise, a fresh promise resolved with an array of their values; when
/// one is rejected before any is pending, a fresh promise rejected with
/// the first rejection; otherwise a thrown `TypeError`.
pub open spec fn spec_all(h: HeapV, args: Seq<Val>) -> CompletionV {
    let es = spec_array_entries(h, spec_arg_at(args, 0));
    match spec_settle_all(h, es, es.len()) {
        SettleAllV::AllResolved(vs) => CompletionV::Normal(
            PlanV {
                steps: seq![array_object(vs), StepV::NewPromise(false, SlotV::Fresh(0))],
                result: SlotV::Fresh(1),
            },
        ),
        SettleAllV::FirstRejected(v) => settled_promise(true, SlotV::Value(v)),
        SettleAllV::SomePending => CompletionV::Throw(type_error_value(all_pending_message())),
    }
}

/// `Promise.all` (see [`spec_all`]).
pub fn all_impl(args: &Vec<JsValue>, heap: &HeapView) -> (r: Completion)
    ensures
        r@ == spec_all(heap@, vals(args@)),
{
    let entries = array_entries(&first_arg(args), heap);
    match settle_all(&entries, heap) {
        SettleAll::AllResolved(values) => {
            let mut steps: Vec<Step> = Vec::new();
            steps.push(build_array_object(&values));
            steps.push(Step::NewPromise(false, Slot::Fresh(0)));
            assert(steps_view(steps@) =~= seq![array_object(vals(values@)), StepV::NewPromise(false, SlotV::Fresh(0))]);
            Completion::Normal(Plan { steps, result: Slot::Fresh(1) })
        },
        SettleAll::FirstRejected(v) => new_promise(true, v),
        SettleAll::SomePending => Completion::Throw(
            type_error("Promise.all over Pending inputs is unsupported in this engine's synchronous model"),
        ),
    }
}

/// The first of the first `n` inputs that has settled.
pub open spec fn spec_first_settled(h: HeapV, es: Seq<Val>, n: nat) -> Option<SettledV>
    decreases n,
{
    if n == 0 {
        None
    } else {
        match spec_first_settled(h, es, (n - 1) as nat) {
            Some(s) => Some(s),
            None => spec_classify_entry(h, es[n - 1]),
        }
    }
}

/// `Promise.race(array)`: a fresh promise settled like the first settled
/// element (a non-promise counts as resolved with itself); a thrown
/// `TypeError` when none has settled.
pub open spec fn spec_race(h: HeapV, args: Seq<Val>) -> CompletionV {
    let es = spec_array_entries(h, spec_arg_at(args, 0));
    match spec_first_settled(h, es, es.len()) {
        Some(SettledV::Resolved(v)) => settled_promise(false, SlotV::Value(v)),
        Some(SettledV::Rejected(v)) => settled_promise(true, SlotV::Value(v)),
        None => CompletionV::Throw(type_error_value(race_pending_message())),
    }
}

proof fn lemma_first_settled_stays(h: HeapV, es: Seq<Val>, k: nat, n: nat)
    requires
        k <= n,
        spec_first_settled(h, es, k) is Some,
    ensures
        spec_first_settled(h, es, n) == spec_first_settled(h, es, k),
    decreases n - k,
{
    if k < n {
        lemma_first_settled_stays(h, es, k, (n - 1) as nat);
    }
}

/// `Promise.race` (see [`spec_race`]).
pub fn race_impl(args: &Vec<JsValue>, heap: &HeapView) -> (r: Completion)
    ensures
        r@ == spec_race(heap@, vals(args@)),
{
    let entries = array_entries(&first_arg(args), heap);
    let mut i: usize = 0;
    while i < entries.len()
        invariant
            i <= entries.len(),
            spec_first_settled(heap@, vals(entries@), i as nat) is None,
            vals(entries@) == spec_array_entries(heap@, spec_arg_at(vals(args@), 0)),
        decreases entries.len() - i,
    {
        assert(vals(entries@)[i as int] == entries@[i as int]@);
        match classify_entry(&entries[i], heap) {
            Some(s) => {
                assert(spec_first_settled(heap@, vals(entries@), (i + 1) as nat) == Some(s@));
                proof {
                    lemma_first_settled_stays(heap@, vals(entries@), (i + 1) as nat, entries.len() as nat);
                }
                return match s {
                    Settled::Resolved(v) => new_promise(false, v),
                    Settled::Rejected(v) => new_promise(true, v),
                };
            },
            None => {},
        }
        i = i + 1;
    }
    Completion::Throw(type_error("Promise.race over Pending-only inputs is unsupported in this engine's synchronous model"))
}

/// The value an input settles with, when it settles resolved.
pub open spec fn resolved_value(h: HeapV, v: Val) -> Val {
    match spec_classify_entry(h, v) {
        Some(SettledV::Resolved(x)) => x,
        _ => v,
    }
}

/// When every input is resolved (or not a promise), `Promise.all` collects
/// their values, in input order.
pub proof fn law_all_collects_in_order(h: HeapV, es: Seq<Val>)
    requires
        forall|i: int| 0 <= i < es.len() ==> spec_classify_entry(h, #[trigger] es[i]) matches Some(SettledV::Resolved(_)),
    ensures
        spec_settle_all(h, es, es.len()) == SettleAllV::AllResolved(Seq::new(es.len(), |i: int| resolved_value(h, es[i]))),
{
    lemma_all_collects(h, es, es.len());
}

proof fn lemma_all_collects(h: HeapV, es: Seq<Val>, n: nat)
    requires
        n <= es.len(),
        forall|i: int| 0 <= i < es.len() ==> spec_classify_entry(h, #[trigger] es[i]) matches Some(SettledV::Resolved(_)),
    ensures
        spec_settle_all(h, es, n) == SettleAllV::AllResolved(Seq::new(n, |i: int| resolved_value(h, es[i]))),
    decreases n,
{
    if n == 0 {
        assert(Seq::new(0, |i: int| resolved_value(h, es[i])) =~= Seq::<Val>::empty());
    } else {
        lemma_all_collects(h, es, (n - 1) as nat);
        assert(spec_classify_entry(h, es[n - 1]) matches Some(SettledV::Resolved(_)));
        assert(Seq::new((n - 1) as nat, |i: int| resolved_value(h, es[i])).push(resolved_value(h, es[n - 1]))
            =~= Seq::new(n, |i: int| resolved_value(h, es[i])));
    }
}

/// An input that is not a promise counts as resolved with itself: over
/// such inputs `Promise.all` collects exactly those inputs, in order, and
/// `Promise.race` settles resolved with the first of them.
pub proof fn law_non_promises_resolve_with_themselves(h: HeapV, es: Seq<Val>)
    requires
        forall|i: int| 0 <= i < es.len() ==> !(#[trigger] es[i] is Promise),
    ensures
        forall|i: int| 0 <= i < es.len() ==> spec_classify_entry(h, #[trigger] es[i]) == Some(SettledV::Resolved(es[i])),
        spec_settle_all(h, es, es.len()) == SettleAllV::AllResolved(es),
        es.len() > 0 ==> spec_first_settled(h, es, es.len()) == Some(SettledV::Resolved(es[0])),
{
    assert forall|i: int| 0 <= i < es.len() implies spec_classify_entry(h, #[trigger] es[i]) == Some(SettledV::Resolved(es[i])) by {
        assert(!(es[i] is Promise));
    }
    lemma_all_collects(h, es, es.len());
    assert(Seq::new(es.len(), |i: int| resolved_value(h, es[i])) =~= es);
    if es.len() > 0 {
        assert(spec_classify_entry(h, es[0]) == Some(SettledV::Resolved(es[0])));
        law_race_first_settled_wins(h, es, 0, SettledV::Resolved(es[0]));
    }
}

/// The first rejected input decides `Promise.all` when no input before it
/// is pending, whatever follows it.
pub proof fn law_all_first_rejection_wins(h: HeapV, es: Seq<Val>, k: int, v: Val)
    requires
        0 <= k < es.len(),
        forall|i: int| 0 <= i < k ==> spec_classify_entry(h, #[trigger] es[i]) matches Some(SettledV::Resolved(_)),
        spec_classify_entry(h, es[k]) == Some(SettledV::Rejected(v)),
    ensures
        spec_settle_all(h, es, es.len()) == SettleAllV::FirstRejected(v),
{
    lemma_all_collects(h, es.subrange(0, k), k as nat);
    assert forall|n: nat| n <= k implies spec_settle_all(h, es, n) == #[trigger] spec_settle_all(h, es.subrange(0, k), n) by {
        lemma_settle_all_prefix(h, es, k, n);
    }
    assert(spec_settle_all(h, es, (k + 1) as nat) == SettleAllV::FirstRejected(v));
    lemma_settled_stays(h, es, (k + 1) as nat, es.len());
}

proof fn lemma_settle_all_prefix(h: HeapV, es: Seq<Val>, k: int, n: nat)
    requires
        0 <= k <= es.len(),
        n <= k,
    ensures
        spec_settle_all(h, es, n) == spec_settle_all(h, es.subrange(0, k), n),
    decreases n,
{
    if n > 0 {
        lemma_settle_all_prefix(h, es, k, (n - 1) as nat);
        assert(es.subrange(0, k)[n - 1] == es[n - 1]);
    }
}

/// `Promise.race` settles like the first input that has settled, whatever
/// follows it.
pub proof fn law_race_first_settled_wins(h: HeapV, es: Seq<Val>, k: int, s: SettledV)
    requires
        0 <= k < es.len(),
        forall|i: int| 0 <= i < k ==> spec_classify_entry(h, #[trigger] es[i]) is None,
        spec_classify_entry(h, es[k]) == Some(s),
    ensures
        spec_first_settled(h, es, es.len()) == Some(s),
{
    lemma_none_settled(h, es, k as nat);
    lemma_first_settled_stays(h, es, (k + 1) as nat, es.len());
}

proof fn lemma_none_settled(h: HeapV, es: Seq<Val>, n: nat)
    requires
        n <= es.len(),
        forall|i: int| 0 <= i < n ==> spec_classify_entry(h, #[trigger] es[i]) is None,
    ensures
        spec_first_settled(h, es, n) is None,
    decreases n,
{
    if n > 0 {
        lemma_none_settled(h, es, (n - 1) as nat);
    }
}

/// `Promise.race` throws exactly when no input has settled.
pub proof fn law_race_throws_only_when_none_settled(h: HeapV, es: Seq<Val>)
    ensures
        spec_first_settled(h, es, es.len()) is None <==> forall|i: int|
            0 <= i < es.len() ==> spec_classify_entry(h, #[trigger] es[i]) is None,
{
    if forall|i: int| 0 <= i < es.len() ==> spec_classify_entry(h, #[trigger] es[i]) is None {
        lemma_none_settled(h, es, es.len());
    } else {
        let k = choose|k: int| 0 <= k < es.len() && !(spec_classify_entry(h, #[trigger] es[k]) is None);
        lemma_first_settled_from(h, es, k);
    }
}

proof fn lemma_first_settled_from(h: HeapV, es: Seq<Val>, k: int)
    requires
        0 <= k < es.len(),
        spec_classify_entry(h, es[k]) is Some,
    ensures
        spec_first_settled(h, es, es.len()) is Some,
{
    if spec_first_settled(h, es, k as nat) is Some {
        lemma_first_settled_stays(h, es, k as nat, es.len());
    } else {
        assert(spec_first_settled(h, es, (k + 1) as nat) is Some);
        lemma_first_settled_stays(h, es, (k + 1) as nat, es.len());
    }
}

proof fn lemma_settled_promise_runnable(rejected: bool, v: Val)
    ensures
        settled_promise(rejected, SlotV::Value(v)) matches CompletionV::Normal(p) && runnable(p),
{
    let p = PlanV { steps: seq![StepV::NewPromise(rejected, SlotV::Value(v))], result: SlotV::Fresh(0) };
    assert(step_refers_back(p.steps, 0));
    assert forall|i: nat| i < p.steps.len() implies #[trigger] step_refers_back(p.steps, i) by {}
}

/// Every plan the `Promise` statics return can be run in order.
pub proof fn law_promise_plans_are_runnable(h: HeapV, args: Seq<Val>)
    ensures
        spec_resolve(args) matches CompletionV::Normal(p) ==> runnable(p),
        spec_reject(args) matches CompletionV::Normal(p) ==> runnable(p),
        spec_all(h, args) matches CompletionV::Normal(p) ==> runnable(p),
        spec_race(h, args) matches CompletionV::Normal(p) ==> runnable(p),
{
    let v = spec_arg_at(args, 0);
    lemma_settled_promise_runnable(false, v);
    lemma_settled_promise_runnable(true, v);
    let es = spec_array_entries(h, v);
    match spec_settle_all(h, es, es.len()) {
        SettleAllV::AllResolved(vs) => {
            let p = PlanV {
                steps: seq![array_object(vs), StepV::NewPromise(false, SlotV::Fresh(0))],
                result: SlotV::Fresh(1),
            };
            let ps = crate::value::array_props(crate::array::value_slots(vs));
            assert forall|j: int| 0 <= j < ps.len() implies slot_refers_back(p.steps, #[trigger] ps[j].1, 0) by {
                if j < vs.len() {
                    assert(ps[j].1 == SlotV::Value(vs[j]));
                }
            }
            assert(step_refers_back(p.steps, 0));
            assert(step_refers_back(p.steps, 1));
            assert forall|i: nat| i < p.steps.len() implies #[trigger] step_refers_back(p.steps, i) by {}
        },
        SettleAllV::FirstRejected(x) => lemma_settled_promise_runnable(true, x),
        SettleAllV::SomePending => {},
    }
    match spec_first_settled(h, es, es.len()) {
        Some(SettledV::Resolved(x)) => lemma_settled_promise_runnable(false, x),
        Some(SettledV::Rejected(x)) => lemma_settled_promise_runnable(true, x),
        None => {},
    }
}

} // verus!
