//! Arrays: objects whose data properties are the index keys `"0"`,
//! `"1"`, ... and a non-negative numeric `length`.  `Array.isArray`, and the array
//! objects the built-ins allocate and read.

use vstd::prelude::*;

use crate::coercion::{first_arg, spec_arg_at};
use crate::number::{array_length_of, spec_array_length, is_nan, is_negative, is_zero, is_nan_bits, is_negative_bits, is_zero_bits};
use crate::numeral::{parse_unsigned, spec_parse_unsigned, law_decimal_parses_unsigned, lemma_decimal_reads_back};
use crate::text::{chars_of, string_of, decimal_u64, spec_decimal};
use crate::value::{lemma_lookup_first, JsValue, Val, ObjectView, ObjectV, HeapView, HeapV, Slot, SlotV, Step, StepV, lookup, heap_object,
    vals, array_props, index_props, slot_props_view, same_text};

verus! {

/// A key an array may hold: `length`, or what `str::parse::<u32>` accepts.
pub open spec fn is_array_key(k: Seq<char>) -> bool {
    k == "length"@ || spec_parse_unsigned(k, 10, 0xffff_ffff) is Some
}

/// A double that is neither NaN nor below zero (`-0` counts as zero).
pub open spec fn is_non_negative_bits(b: u64) -> bool {
    !is_nan_bits(b) && (!is_negative_bits(b) || is_zero_bits(b))
}

/// The runtime's array shape: a non-negative number as `length`, and no
/// key but `length` and `u32` numerals.
pub open spec fn spec_looks_like_array(o: ObjectV) -> bool {
    &&& lookup(o.properties, "length"@) matches Some(Val::Number(b, _)) && is_non_negative_bits(b)
    &&& forall|i: int| 0 <= i < o.properties.len() ==> is_array_key(#[trigger] o.properties[i].0)
}

/// Whether `obj` has the array shape (see [`spec_looks_like_array`]).
pub fn looks_like_array(obj: &ObjectView) -> (r: bool)
    ensures
        r == spec_looks_like_array(obj@),
{
    let length = chars_of("length");
    match obj.get(&length) {
        Some(JsValue::Number(n)) => {
            if is_nan(n.bits) || (is_negative(n.bits) && !is_zero(n.bits)) {
                return false;
            }
        },
        _ => {
            return false;
        },
    }
    let mut i: usize = 0;
    while i < obj.properties.len()
        invariant
            i <= obj.properties.len(),
            length@ == "length"@,
            forall|k: int| 0 <= k < i ==> is_array_key(#[trigger] obj@.properties[k].0),
        decreases obj.properties.len() - i,
    {
        let key = &obj.properties[i].0;
        assert(obj@.properties[i as int].0 == key@);
        let ok = same_text(key.as_str(), &length) || parse_unsigned(&chars_of(key.as_str()), 10, 0xffff_ffff).is_some();
        if !ok {
            return false;
        }
        i = i + 1;
    }
    true
}

/// `Array.isArray(value)`: whether the first argument is an object of
/// the array shape.
pub open spec fn spec_is_array(h: HeapV, v: Val) -> bool {
    match v {
        Val::Object(id) => match heap_object(h, id) {
            Some(o) => spec_looks_like_array(o),
            None => false,
        },
        _ => false,
    }
}

/// `Array.isArray` (see [`spec_is_array`]).
pub fn is_array_impl(args: &Vec<JsValue>, heap: &HeapView) -> (r: JsValue)
    ensures
        r@ == Val::Boolean(spec_is_array(heap@, spec_arg_at(vals(args@), 0))),
{
    let b = match first_arg(args) {
        JsValue::Object(id) => match heap.object(id) {
            Some(o) => looks_like_array(o),
            None => false,
        },
        _ => false,
    };
    JsValue::Boolean(b)
}

/// The slots holding `vs`.
pub open spec fn value_slots(vs: Seq<Val>) -> Seq<SlotV> {
    vs.map_values(|v: Val| SlotV::Value(v))
}

/// The allocation of an array object holding `vs`.
pub open spec fn array_object(vs: Seq<Val>) -> StepV {
    StepV::NewObject(array_props(value_slots(vs)))
}

/// The allocation of an array object holding `values`.
pub fn build_array_object(values: &Vec<JsValue>) -> (r: Step)
    ensures
        r@ == array_object(vals(values@)),
{
    let mut props: Vec<(String, Slot)> = Vec::new();
    let mut i: usize = 0;
    while i < values.len()
        invariant
            i <= values.len(),
            slot_props_view(props@) =~= index_props(value_slots(vals(values@)).subrange(0, i as int)),
        decreases values.len() - i,
    {
        let ghost old_props = props@;
        let key = string_of(&decimal_u64(i as u64));
        let v = values[i].duplicate();
        props.push((key, Slot::Value(v)));
        assert(slot_props_view(props@) =~= slot_props_view(old_props).push(
            (spec_decimal(i as nat), SlotV::Value(values@[i as int]@)),
        ));
        assert(value_slots(vals(values@))[i as int] == SlotV::Value(values@[i as int]@));
        i = i + 1;
    }
    let n: u32 = if values.len() <= 0xffff_ffff {
        values.len() as u32
    } else {
        0xffff_ffff
    };
    props.push((string_of(&chars_of("length")), Slot::WholeNumber(n)));
    assert(value_slots(vals(values@)).subrange(0, values.len() as int) =~= value_slots(vals(values@)));
    assert(slot_props_view(props@) =~= array_props(value_slots(vals(values@))));
    Step::NewObject(props)
}

/// The length an array-shaped object records (`0` unless `length` is a
/// finite, non-negative number).
pub open spec fn spec_recorded_length(o: ObjectV) -> u32 {
    match lookup(o.properties, "length"@) {
        Some(Val::Number(bits, _)) => spec_array_length(bits),
        _ => 0,
    }
}

/// The element at index `i`, `undefined` where the key is missing.
pub open spec fn element_at(o: ObjectV, i: nat) -> Val {
    match lookup(o.properties, spec_decimal(i)) {
        Some(v) => v,
        None => Val::Undefined,
    }
}

/// The elements of the array `v` (empty for anything but an object).
pub open spec fn spec_array_entries(h: HeapV, v: Val) -> Seq<Val> {
    match v {
        Val::Object(id) => match heap_object(h, id) {
            Some(o) => Seq::new(spec_recorded_length(o) as nat, |i: int| element_at(o, i as nat)),
            None => seq![],
        },
        _ => seq![],
    }
}

pub fn recorded_length(o: &ObjectView) -> (r: u32)
    ensures
        r == spec_recorded_length(o@),
{
    match o.get(&chars_of("length")) {
        Some(JsValue::Number(n)) => array_length_of(n.bits),
        _ => 0,
    }
}

/// The elements of the array `value` (see [`spec_array_entries`]).
pub fn array_entries(value: &JsValue, heap: &HeapView) -> (r: Vec<JsValue>)
    ensures
        vals(r@) == spec_array_entries(heap@, value@),
{
    let mut out: Vec<JsValue> = Vec::new();
    let id = match value {
        JsValue::Object(id) => *id,
        _ => {
            assert(vals(out@) =~= seq![]);
            return out;
        },
    };
    let o = match heap.object(id) {
        Some(o) => o,
        None => {
            assert(vals(out@) =~= seq![]);
            return out;
        },
    };
    let length = recorded_length(o);
    let mut i: u32 = 0;
    while i < length
        invariant
            i <= length,
            length == spec_recorded_length(o@),
            vals(out@) =~= Seq::new(i as nat, |k: int| element_at(o@, k as nat)),
        decreases length - i,
    {
        let key = decimal_u64(i as u64);
        let v = match o.get(&key) {
            Some(v) => v.duplicate(),
            None => JsValue::Undefined,
        };
        assert(v@ == element_at(o@, i as nat));
        let ghost old_out = out@;
        out.push(v);
        assert(vals(out@) =~= vals(old_out).push(v@));
        i = i + 1;
    }
    out
}

/// Every array object the runtime builds has the array shape: each key is
/// an index numeral `u32` reads or `length`, and `length` holds the
/// element count.
pub proof fn law_built_arrays_are_arrays(sl: Seq<SlotV>)
    requires
        sl.len() <= 0xffff_ffff,
    ensures
        forall|i: int| 0 <= i < array_props(sl).len() ==> is_array_key(#[trigger] array_props(sl)[i].0),
        lookup(array_props(sl), "length"@) == Some(SlotV::WholeNumber(sl.len() as u32)),
{
    let ps = array_props(sl);
    reveal_strlit("length");
    assert forall|i: int| 0 <= i < ps.len() implies is_array_key(#[trigger] ps[i].0) by {
        if i < sl.len() {
            law_decimal_parses_unsigned(i as nat, 0xffff_ffff);
        }
    }
    assert forall|j: int| 0 <= j < sl.len() implies ps[j].0 != "length"@ by {
        lemma_decimal_reads_back(j as nat);
        assert('0' <= ps[j].0[0] <= '9');
        assert("length"@[0] == 'l');
    }
    lemma_lookup_first(ps, "length"@, sl.len() as int);
}


/// `o` has a `length` holding a number that is neither NaN nor negative.
pub open spec fn length_is_a_count(o: ObjectV) -> bool {
    lookup(o.properties, "length"@) matches Some(Val::Number(b, _)) && !is_nan_bits(b) && (!is_negative_bits(b)
        || is_zero_bits(b))
}

/// `Array.isArray` answers true only for an object of the heap that has a
/// `length` holding a number neither NaN nor negative, and no key but
/// `length` and `u32` numerals, and for every such object; never for
/// anything but an object.
pub proof fn law_is_array_needs_length_and_index_keys(h: HeapV, v: Val, k: Seq<char>)
    ensures
        (v is Object && heap_object(h, v->Object_0) is Some && length_is_a_count(heap_object(h, v->Object_0)->Some_0)
            && forall|i: int|
            0 <= i < heap_object(h, v->Object_0)->Some_0.properties.len() ==> (#[trigger] heap_object(
                h,
                v->Object_0,
            )->Some_0.properties[i]).0 == "length"@ || spec_parse_unsigned(
                heap_object(h, v->Object_0)->Some_0.properties[i].0,
                10,
                0xffff_ffff,
            ) is Some) ==> spec_is_array(h, v),
        !(v is Object) ==> !spec_is_array(h, v),
        spec_is_array(h, v) ==> heap_object(h, v->Object_0) is Some,
        spec_is_array(h, v) ==> length_is_a_count(heap_object(h, v->Object_0)->Some_0),
        (spec_is_array(h, v) && k != "length"@ && spec_parse_unsigned(k, 10, 0xffff_ffff) is None) ==> forall|i: int|
            0 <= i < heap_object(h, v->Object_0)->Some_0.properties.len() ==> (#[trigger] heap_object(
                h,
                v->Object_0,
            )->Some_0.properties[i]).0 != k,
{
}

} // verus!
