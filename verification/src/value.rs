//! The library's model of the engine's data: values, the objects and
//! promises a call reads from the heap, and the allocations a call asks
//! the embedder to make.
//!
//! Handles (`Object`, `Function`, `Promise`) carry the engine's raw ids;
//! a `Native` carries the embedder's index for the native callable.

use vstd::prelude::*;

use crate::number::JsNumber;
use crate::text::spec_decimal;

verus! {

/// A runtime value.
pub enum JsValue {
    Undefined,
    Null,
    Boolean(bool),
    Number(JsNumber),
    String(String),
    Object(u64),
    Function(u64),
    Native(u64),
    Promise(u64),
}

/// The mathematical view of a [`JsValue`].
pub enum Val {
    Undefined,
    Null,
    Boolean(bool),
    /// The binary64 encoding and its `Display` text.
    Number(u64, Seq<char>),
    String(Seq<char>),
    Object(u64),
    Function(u64),
    Native(u64),
    Promise(u64),
}

impl View for JsValue {
    type V = Val;

    open spec fn view(&self) -> Val {
        match self {
            JsValue::Undefined => Val::Undefined,
            JsValue::Null => Val::Null,
            JsValue::Boolean(b) => Val::Boolean(*b),
            JsValue::Number(n) => Val::Number(n.bits, n.display@),
            JsValue::String(s) => Val::String(s@),
            JsValue::Object(id) => Val::Object(*id),
            JsValue::Function(id) => Val::Function(*id),
            JsValue::Native(k) => Val::Native(*k),
            JsValue::Promise(id) => Val::Promise(*id),
        }
    }
}

impl JsValue {
    /// A copy of the value.
    pub fn duplicate(&self) -> (r: JsValue)
        ensures
            r@ == self@,
    {
        match self {
            JsValue::Undefined => JsValue::Undefined,
            JsValue::Null => JsValue::Null,
            JsValue::Boolean(b) => JsValue::Boolean(*b),
            JsValue::Number(n) => JsValue::Number(JsNumber { bits: n.bits, display: n.display.clone() }),
            JsValue::String(s) => JsValue::String(s.clone()),
            JsValue::Object(id) => JsValue::Object(*id),
            JsValue::Function(id) => JsValue::Function(*id),
            JsValue::Native(k) => JsValue::Native(*k),
            JsValue::Promise(id) => JsValue::Promise(*id),
        }
    }
}

/// The getter / setter pair of an accessor property.
pub struct Accessor {
    pub get: Option<JsValue>,
    pub set: Option<JsValue>,
}

pub struct AccessorV {
    pub get: Option<Val>,
    pub set: Option<Val>,
}

pub open spec fn opt_view(o: Option<JsValue>) -> Option<Val> {
    match o {
        Some(v) => Some(v@),
        None => None,
    }
}

impl View for Accessor {
    type V = AccessorV;

    open spec fn view(&self) -> AccessorV {
        AccessorV { get: opt_view(self.get), set: opt_view(self.set) }
    }
}

/// A heap object as read by a call: its data properties (in the engine's
/// key order) and its accessor properties.  The engine's keys are
/// distinct; should a snapshot repeat one, the first entry under it is the
/// one lookups and the `Object` statics see.
pub struct ObjectView {
    pub properties: Vec<(String, JsValue)>,
    pub accessors: Vec<(String, Accessor)>,
}

pub struct ObjectV {
    pub properties: Seq<(Seq<char>, Val)>,
    pub accessors: Seq<(Seq<char>, AccessorV)>,
}

/// The views of a list of keyed entries.
pub open spec fn kv_view<T: View>(p: Seq<(String, T)>) -> Seq<(Seq<char>, T::V)> {
    p.map_values(|e: (String, T)| (e.0@, e.1@))
}

pub open spec fn props_view(p: Seq<(String, JsValue)>) -> Seq<(Seq<char>, Val)> {
    kv_view(p)
}

pub open spec fn accessors_view(p: Seq<(String, Accessor)>) -> Seq<(Seq<char>, AccessorV)> {
    kv_view(p)
}

impl View for ObjectView {
    type V = ObjectV;

    open spec fn view(&self) -> ObjectV {
        ObjectV { properties: props_view(self.properties@), accessors: accessors_view(self.accessors@) }
    }
}

/// The first entry of `props` under `key`.
pub open spec fn lookup<T>(props: Seq<(Seq<char>, T)>, key: Seq<char>) -> Option<T>
    decreases props.len(),
{
    if props.len() == 0 {
        None
    } else if props[0].0 == key {
        Some(props[0].1)
    } else {
        lookup(props.drop_first(), key)
    }
}

/// `lookup` finds the value of the first entry under `key`.
pub proof fn lemma_lookup_first<T>(props: Seq<(Seq<char>, T)>, key: Seq<char>, i: int)
    requires
        0 <= i < props.len(),
        props[i].0 == key,
        forall|j: int| 0 <= j < i ==> props[j].0 != key,
    ensures
        lookup(props, key) == Some(props[i].1),
    decreases i,
{
    if i > 0 {
        lemma_lookup_first(props.drop_first(), key, i - 1);
    }
}

/// `lookup` finds nothing where no entry is under `key`.
pub proof fn lemma_lookup_none<T>(props: Seq<(Seq<char>, T)>, key: Seq<char>)
    requires
        forall|j: int| 0 <= j < props.len() ==> props[j].0 != key,
    ensures
        lookup(props, key) is None,
    decreases props.len(),
{
    if props.len() > 0 {
        lemma_lookup_none(props.drop_first(), key);
    }
}

/// A promise's state as read by a call.
pub enum PromiseView {
    Pending,
    Resolved(JsValue),
    Rejected(JsValue),
}

pub enum PromiseV {
    Pending,
    Resolved(Val),
    Rejected(Val),
}

impl View for PromiseView {
    type V = PromiseV;

    open spec fn view(&self) -> PromiseV {
        match self {
            PromiseView::Pending => PromiseV::Pending,
            PromiseView::Resolved(v) => PromiseV::Resolved(v@),
            PromiseView::Rejected(v) => PromiseV::Rejected(v@),
        }
    }
}

/// What a call reads of the heap: the objects and promises under the ids
/// it may look up (`None` where the heap holds nothing under the id).
/// Ids the snapshot does not list are read as absent.
pub struct HeapView {
    pub objects: Vec<(u64, Option<ObjectView>)>,
    pub promises: Vec<(u64, Option<PromiseView>)>,
}

pub struct HeapV {
    pub objects: Seq<(u64, Option<ObjectV>)>,
    pub promises: Seq<(u64, Option<PromiseV>)>,
}

impl View for HeapView {
    type V = HeapV;

    open spec fn view(&self) -> HeapV {
        HeapV {
            objects: self.objects@.map_values(
                |e: (u64, Option<ObjectView>)|
                    (
                        e.0,
                        match e.1 {
                            Some(o) => Some(o@),
                            None => None,
                        },
                    ),
            ),
            promises: self.promises@.map_values(
                |e: (u64, Option<PromiseView>)|
                    (
                        e.0,
                        match e.1 {
                            Some(p) => Some(p@),
                            None => None,
                        },
                    ),
            ),
        }
    }
}

/// The first snapshot entry under `id`.
pub open spec fn find_id<T>(entries: Seq<(u64, Option<T>)>, id: u64) -> Option<T>
    decreases entries.len(),
{
    if entries.len() == 0 {
        None
    } else if entries[0].0 == id {
        entries[0].1
    } else {
        find_id(entries.drop_first(), id)
    }
}

pub open spec fn heap_object(h: HeapV, id: u64) -> Option<ObjectV> {
    find_id(h.objects, id)
}

pub open spec fn heap_promise(h: HeapV, id: u64) -> Option<PromiseV> {
    find_id(h.promises, id)
}

/// A property value in an allocation request.
pub enum Slot {
    Value(JsValue),
    /// The double a JSON numeral denotes (the text satisfies
    /// `crate::json_spec::json_numeral`).
    NumberText(String),
    /// The double holding this whole number.
    WholeNumber(u32),
    /// The object or promise the step of this index allocates.
    Fresh(usize),
}

pub enum SlotV {
    Value(Val),
    NumberText(Seq<char>),
    WholeNumber(u32),
    Fresh(nat),
}

impl View for Slot {
    type V = SlotV;

    open spec fn view(&self) -> SlotV {
        match self {
            Slot::Value(v) => SlotV::Value(v@),
            Slot::NumberText(t) => SlotV::NumberText(t@),
            Slot::WholeNumber(n) => SlotV::WholeNumber(*n),
            Slot::Fresh(k) => SlotV::Fresh(*k as nat),
        }
    }
}

/// One heap operation, run in order.
pub enum Step {
    /// Allocate an object with these data properties, inserted in order
    /// (a later duplicate key replaces an earlier one; see
    /// `crate::object::allocated`).
    NewObject(Vec<(String, Slot)>),
    /// Allocate a promise, resolved (`false`) or rejected (`true`).
    NewPromise(bool, Slot),
    /// Replace the object under this id.
    Store(u64, ObjectView),
}

pub enum StepV {
    NewObject(Seq<(Seq<char>, SlotV)>),
    NewPromise(bool, SlotV),
    Store(u64, ObjectV),
}

pub open spec fn slot_props_view(p: Seq<(String, Slot)>) -> Seq<(Seq<char>, SlotV)> {
    kv_view(p)
}

impl View for Step {
    type V = StepV;

    open spec fn view(&self) -> StepV {
        match self {
            Step::NewObject(p) => StepV::NewObject(slot_props_view(p@)),
            Step::NewPromise(r, s) => StepV::NewPromise(*r, s@),
            Step::Store(id, o) => StepV::Store(*id, o@),
        }
    }
}

pub open spec fn steps_view(s: Seq<Step>) -> Seq<StepV> {
    s.map_values(|st: Step| st@)
}

/// The heap operations of a call and the value it returns.
pub struct Plan {
    pub steps: Vec<Step>,
    pub result: Slot,
}

pub struct PlanV {
    pub steps: Seq<StepV>,
    pub result: SlotV,
}

impl View for Plan {
    type V = PlanV;

    open spec fn view(&self) -> PlanV {
        PlanV { steps: steps_view(self.steps@), result: self.result@ }
    }
}

/// How a native call completes: normally (after its heap operations), or
/// by throwing a value (leaving the heap as it was).
pub enum Completion {
    Normal(Plan),
    Throw(JsValue),
}

pub enum CompletionV {
    Normal(PlanV),
    Throw(Val),
}

impl View for Completion {
    type V = CompletionV;

    open spec fn view(&self) -> CompletionV {
        match self {
            Completion::Normal(p) => CompletionV::Normal(p@),
            Completion::Throw(v) => CompletionV::Throw(v@),
        }
    }
}

/// A slot read by the step at index `at`: a fresh slot names an earlier
/// step that allocates.
pub open spec fn slot_refers_back(steps: Seq<StepV>, s: SlotV, at: nat) -> bool {
    match s {
        SlotV::Fresh(k) => k < at && k < steps.len() && !(steps[k as int] is Store),
        _ => true,
    }
}

pub open spec fn step_refers_back(steps: Seq<StepV>, at: nat) -> bool {
    match steps[at as int] {
        StepV::NewObject(ps) => forall|j: int| 0 <= j < ps.len() ==> slot_refers_back(steps, #[trigger] ps[j].1, at),
        StepV::NewPromise(_, s) => slot_refers_back(steps, s, at),
        StepV::Store(_, _) => true,
    }
}

/// A plan the embedder can run in order: each fresh slot, in a step or
/// in the result, names an allocation made before it is read.
pub open spec fn runnable(p: PlanV) -> bool {
    &&& forall|i: nat| i < p.steps.len() ==> #[trigger] step_refers_back(p.steps, i)
    &&& slot_refers_back(p.steps, p.result, p.steps.len())
}

/// A plan that returns `v` and touches nothing.
pub open spec fn normal_return(v: Val) -> CompletionV {
    CompletionV::Normal(PlanV { steps: seq![], result: SlotV::Value(v) })
}

pub fn return_value(v: JsValue) -> (r: Completion)
    ensures
        r@ == normal_return(v@),
{
    let steps: Vec<Step> = Vec::new();
    let r = Completion::Normal(Plan { steps, result: Slot::Value(v) });
    assert(steps_view(Seq::<Step>::empty()) =~= seq![]);
    r
}

} // verus!

verus! {

/// The views of a call's arguments.
pub open spec fn vals(a: Seq<JsValue>) -> Seq<Val> {
    a.map_values(|v: JsValue| v@)
}

pub open spec fn capped_u32(n: nat) -> u32 {
    if n <= u32::MAX {
        n as u32
    } else {
        u32::MAX
    }
}

/// `"0"`, `"1"`, ... paired with the element slots.
pub open spec fn index_props(sl: Seq<SlotV>) -> Seq<(Seq<char>, SlotV)> {
    Seq::new(sl.len(), |i: int| (spec_decimal(i as nat), sl[i]))
}

/// The properties of an array object holding `sl`: the index keys, then
/// `length`.
pub open spec fn array_props(sl: Seq<SlotV>) -> Seq<(Seq<char>, SlotV)> {
    index_props(sl).push(("length"@, SlotV::WholeNumber(capped_u32(sl.len()))))
}

} // verus!

verus! {

/// Whether the string `a` holds exactly the characters `b`.
pub fn same_text(a: &str, b: &Vec<char>) -> (r: bool)
    ensures
        r == (a@ == b@),
{
    let v = crate::text::chars_of(a);
    if v.len() != b.len() {
        return false;
    }
    let mut i: usize = 0;
    while i < v.len()
        invariant
            v@ == a@,
            v.len() == b.len(),
            i <= v.len(),
            forall|k: int| 0 <= k < i ==> v@[k] == b@[k],
        decreases v.len() - i,
    {
        if v[i] != b[i] {
            return false;
        }
        i = i + 1;
    }
    assert(v@ =~= b@);
    true
}

impl ObjectView {
    /// The data property under `key`.
    pub fn get(&self, key: &Vec<char>) -> (r: Option<&JsValue>)
        ensures
            match r {
                Some(v) => lookup(self@.properties, key@) == Some(v@),
                None => lookup(self@.properties, key@) is None,
            },
    {
        let mut i: usize = 0;
        assert(self@.properties.subrange(0, self@.properties.len() as int) =~= self@.properties);
        while i < self.properties.len()
            invariant
                i <= self.properties.len(),
                lookup(self@.properties, key@) == lookup(self@.properties.subrange(i as int, self@.properties.len() as int), key@),
            decreases self.properties.len() - i,
        {
            let ghost rest = self@.properties.subrange(i as int, self@.properties.len() as int);
            assert(rest[0] == (self.properties@[i as int].0@, self.properties@[i as int].1@));
            if same_text(self.properties[i].0.as_str(), key) {
                return Some(&self.properties[i].1);
            }
            assert(rest.drop_first() =~= self@.properties.subrange(i + 1, self@.properties.len() as int));
            i = i + 1;
        }
        None
    }
}

impl HeapView {
    /// The object under `id`.
    pub fn object(&self, id: u64) -> (r: Option<&ObjectView>)
        ensures
            match r {
                Some(o) => heap_object(self@, id) == Some(o@),
                None => heap_object(self@, id) is None,
            },
    {
        let mut i: usize = 0;
        assert(self@.objects.subrange(0, self@.objects.len() as int) =~= self@.objects);
        while i < self.objects.len()
            invariant
                i <= self.objects.len(),
                heap_object(self@, id) == find_id(self@.objects.subrange(i as int, self@.objects.len() as int), id),
            decreases self.objects.len() - i,
        {
            let ghost rest = self@.objects.subrange(i as int, self@.objects.len() as int);
            if self.objects[i].0 == id {
                return match &self.objects[i].1 {
                    Some(o) => Some(o),
                    None => None,
                };
            }
            assert(rest.drop_first() =~= self@.objects.subrange(i + 1, self@.objects.len() as int));
            i = i + 1;
        }
        None
    }

    /// The promise under `id`.
    pub fn promise(&self, id: u64) -> (r: Option<&PromiseView>)
        ensures
            match r {
                Some(p) => heap_promise(self@, id) == Some(p@),
                None => heap_promise(self@, id) is None,
            },
    {
        let mut i: usize = 0;
        assert(self@.promises.subrange(0, self@.promises.len() as int) =~= self@.promises);
        while i < self.promises.len()
            invariant
                i <= self.promises.len(),
                heap_promise(self@, id) == find_id(self@.promises.subrange(i as int, self@.promises.len() as int), id),
            decreases self.promises.len() - i,
        {
            let ghost rest = self@.promises.subrange(i as int, self@.promises.len() as int);
            if self.promises[i].0 == id {
                return match &self.promises[i].1 {
                    Some(p) => Some(p),
                    None => None,
                };
            }
            assert(rest.drop_first() =~= self@.promises.subrange(i + 1, self@.promises.len() as int));
            i = i + 1;
        }
        None
    }
}

} // verus!
