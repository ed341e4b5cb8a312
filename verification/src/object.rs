//! The `Object` statics `keys`, `values`, `entries` and `assign`, over an
//! object's own data properties (accessors are copied by `assign` only).

use vstd::prelude::*;

use crate::array::{looks_like_array, spec_looks_like_array, build_array_object, array_object};
use crate::coercion::{first_arg, spec_arg_at};
use crate::text::{chars_of, string_of};
use crate::numeral::{parse_digits, spec_digits_at_most};
use crate::value::{JsValue, Val, ObjectView, ObjectV, Accessor, AccessorV, HeapView, HeapV, heap_object, vals, kv_view,
    Slot, SlotV, Step, StepV, steps_view, slot_props_view, array_props, Plan, PlanV, Completion, CompletionV,
    return_value, normal_return, props_view, accessors_view, same_text};

verus! {

/// The index of the first entry under `k`.
pub open spec fn key_index<T>(ps: Seq<(Seq<char>, T)>, k: Seq<char>) -> Option<nat>
    decreases ps.len(),
{
    if ps.len() == 0 {
        None
    } else if ps[0].0 == k {
        Some(0)
    } else {
        match key_index(ps.drop_first(), k) {
            Some(i) => Some(i + 1),
            None => None,
        }
    }
}

pub proof fn lemma_key_index<T>(ps: Seq<(Seq<char>, T)>, k: Seq<char>)
    ensures
        match key_index(ps, k) {
            Some(i) => i < ps.len() && ps[i as int].0 == k && forall|j: int| 0 <= j < i ==> ps[j].0 != k,
            None => forall|j: int| 0 <= j < ps.len() ==> ps[j].0 != k,
        },
    decreases ps.len(),
{
    if ps.len() > 0 && ps[0].0 != k {
        lemma_key_index(ps.drop_first(), k);
        assert forall|j: int| 1 <= j < ps.len() implies ps[j] == ps.drop_first()[j - 1] by {}
    }
}

/// `ps` with `k` bound to `v`: in place when `k` is listed, else appended.
pub open spec fn put<T>(ps: Seq<(Seq<char>, T)>, k: Seq<char>, v: T) -> Seq<(Seq<char>, T)> {
    match key_index(ps, k) {
        Some(i) => ps.update(i as int, (k, v)),
        None => ps.push((k, v)),
    }
}

/// `ps` without its (first) entry under `k`.
pub open spec fn remove_key<T>(ps: Seq<(Seq<char>, T)>, k: Seq<char>) -> Seq<(Seq<char>, T)> {
    match key_index(ps, k) {
        Some(i) => ps.remove(i as int),
        None => ps,
    }
}

/// `Object::with`: `k` becomes a data property holding `v`; an accessor
/// under `k` is evicted.
pub open spec fn obj_with(o: ObjectV, k: Seq<char>, v: Val) -> ObjectV {
    ObjectV { properties: put(o.properties, k, v), accessors: remove_key(o.accessors, k) }
}

/// `Object::with_accessor`: `k` becomes an accessor property; a data value
/// under `k` is evicted.
pub open spec fn obj_with_accessor(o: ObjectV, k: Seq<char>, a: AccessorV) -> ObjectV {
    ObjectV { properties: remove_key(o.properties, k), accessors: put(o.accessors, k, a) }
}

pub open spec fn merge_data(t: ObjectV, ps: Seq<(Seq<char>, Val)>, n: nat) -> ObjectV
    decreases n,
{
    if n == 0 || n > ps.len() {
        t
    } else {
        obj_with(merge_data(t, ps, (n - 1) as nat), ps[n - 1].0, ps[n - 1].1)
    }
}

pub open spec fn merge_accessors(t: ObjectV, ps: Seq<(Seq<char>, AccessorV)>, n: nat) -> ObjectV
    decreases n,
{
    if n == 0 || n > ps.len() {
        t
    } else {
        obj_with_accessor(merge_accessors(t, ps, (n - 1) as nat), ps[n - 1].0, ps[n - 1].1)
    }
}

/// `target` after copying `source`'s data properties, then its accessors,
/// in the order listed.
pub open spec fn merge(target: ObjectV, source: ObjectV) -> ObjectV {
    merge_accessors(
        merge_data(target, source.properties, source.properties.len()),
        source.accessors,
        source.accessors.len(),
    )
}

fn find_key<T: View>(ps: &Vec<(String, T)>, k: &String) -> (r: Option<usize>)
    ensures
        match r {
            Some(i) => key_index(kv_view(ps@), k@) == Some(i as nat) && i < ps.len(),
            None => key_index(kv_view(ps@), k@) is None,
        },
{
    proof {
        lemma_key_index(kv_view(ps@), k@);
    }
    let mut i: usize = 0;
    while i < ps.len()
        invariant
            i <= ps.len(),
            forall|j: int| 0 <= j < i ==> kv_view(ps@)[j].0 != k@,
            match key_index(kv_view(ps@), k@) {
                Some(m) => m < ps.len() && kv_view(ps@)[m as int].0 == k@ && forall|j: int| 0 <= j < m ==> kv_view(ps@)[j].0 != k@,
                None => forall|j: int| 0 <= j < ps.len() ==> kv_view(ps@)[j].0 != k@,
            },
        decreases ps.len() - i,
    {
        assert(kv_view(ps@)[i as int].0 == ps@[i as int].0@);
        if ps[i].0 == *k {
            return Some(i);
        }
        i = i + 1;
    }
    None
}

impl Accessor {
    pub fn duplicate(&self) -> (r: Accessor)
        ensures
            r@ == self@,
    {
        Accessor {
            get: match &self.get {
                Some(v) => Some(v.duplicate()),
                None => None,
            },
            set: match &self.set {
                Some(v) => Some(v.duplicate()),
                None => None,
            },
        }
    }
}

impl ObjectView {
    /// A copy of the object.
    pub fn duplicate(&self) -> (r: ObjectView)
        ensures
            r@ == self@,
    {
        let mut properties: Vec<(String, JsValue)> = Vec::new();
        let mut i: usize = 0;
        while i < self.properties.len()
            invariant
                i <= self.properties.len(),
                kv_view(properties@) =~= kv_view(self.properties@).subrange(0, i as int),
            decreases self.properties.len() - i,
        {
            let ghost old_p = properties@;
            let k = self.properties[i].0.clone();
            let v = self.properties[i].1.duplicate();
            properties.push((k, v));
            assert(kv_view(properties@) =~= kv_view(old_p).push(kv_view(self.properties@)[i as int]));
            i = i + 1;
        }
        let mut accessors: Vec<(String, Accessor)> = Vec::new();
        let mut j: usize = 0;
        while j < self.accessors.len()
            invariant
                j <= self.accessors.len(),
                kv_view(accessors@) =~= kv_view(self.accessors@).subrange(0, j as int),
            decreases self.accessors.len() - j,
        {
            let ghost old_a = accessors@;
            let k = self.accessors[j].0.clone();
            let a = self.accessors[j].1.duplicate();
            accessors.push((k, a));
            assert(kv_view(accessors@) =~= kv_view(old_a).push(kv_view(self.accessors@)[j as int]));
            j = j + 1;
        }
        assert(kv_view(properties@) =~= kv_view(self.properties@));
        assert(kv_view(accessors@) =~= kv_view(self.accessors@));
        ObjectView { properties, accessors }
    }

    /// `Object::with` (see [`obj_with`]).
    pub fn with(&mut self, key: String, value: JsValue)
        ensures
            final(self)@ == obj_with(old(self)@, key@, value@),
    {
        let ghost k = key@;
        let ghost v = value@;
        match find_key(&self.accessors, &key) {
            Some(i) => {
                let _ = self.accessors.remove(i);
            },
            None => {},
        }
        match find_key(&self.properties, &key) {
            Some(i) => {
                self.properties.set(i, (key, value));
            },
            None => {
                self.properties.push((key, value));
            },
        }
        assert(kv_view(self.properties@) =~= put(kv_view(old(self).properties@), k, v));
        assert(kv_view(self.accessors@) =~= remove_key(kv_view(old(self).accessors@), k));
    }

    /// `Object::with_accessor` (see [`obj_with_accessor`]).
    pub fn with_accessor(&mut self, key: String, pair: Accessor)
        ensures
            final(self)@ == obj_with_accessor(old(self)@, key@, pair@),
    {
        let ghost k = key@;
        let ghost a = pair@;
        match find_key(&self.properties, &key) {
            Some(i) => {
                let _ = self.properties.remove(i);
            },
            None => {},
        }
        match find_key(&self.accessors, &key) {
            Some(i) => {
                self.accessors.set(i, (key, pair));
            },
            None => {
                self.accessors.push((key, pair));
            },
        }
        assert(kv_view(self.accessors@) =~= put(kv_view(old(self).accessors@), k, a));
        assert(kv_view(self.properties@) =~= remove_key(kv_view(old(self).properties@), k));
    }
}

} // verus!

verus! {

/// `ps` without the entries under `k`.
pub open spec fn without_key<T>(ps: Seq<(Seq<char>, T)>, k: Seq<char>) -> Seq<(Seq<char>, T)>
    decreases ps.len(),
{
    if ps.len() == 0 {
        seq![]
    } else {
        let rest = without_key(ps.subrange(0, ps.len() - 1), k);
        if ps[ps.len() - 1].0 == k {
            rest
        } else {
            rest.push(ps[ps.len() - 1])
        }
    }
}

/// Whether some entry of `ps` is under `k`.
pub open spec fn has_key<T>(ps: Seq<(Seq<char>, T)>, k: Seq<char>) -> bool {
    exists|j: int| 0 <= j < ps.len() && (#[trigger] ps[j]).0 == k
}

/// For each key of `ps`, the first entry under it (the one a lookup
/// finds), in the order of `ps`.
pub open spec fn first_entries<T>(ps: Seq<(Seq<char>, T)>) -> Seq<(Seq<char>, T)>
    decreases ps.len(),
{
    if ps.len() == 0 {
        seq![]
    } else {
        let init = ps.subrange(0, ps.len() - 1);
        let rest = first_entries(init);
        if has_key(init, ps[ps.len() - 1].0) {
            rest
        } else {
            rest.push(ps[ps.len() - 1])
        }
    }
}

/// The properties `Object.keys` and friends look at: all of them, but
/// `length` for an array.
pub open spec fn listed_properties(o: ObjectV) -> Seq<(Seq<char>, Val)> {
    if spec_looks_like_array(o) {
        without_key(o.properties, "length"@)
    } else {
        o.properties
    }
}

/// The own data properties `Object.keys` and friends read: each listed
/// key once, with the value a lookup of it finds.
pub open spec fn data_entries(o: ObjectV) -> Seq<(Seq<char>, Val)> {
    first_entries(listed_properties(o))
}

/// The array index a key names: the canonical decimal numeral (no sign,
/// no leading zero) of an integer below `2^32 - 1`.
pub open spec fn array_index_of(k: Seq<char>) -> Option<nat> {
    if k.len() > 0 && (k[0] != '0' || k.len() == 1) {
        spec_digits_at_most(k, 10, 0xffff_fffe)
    } else {
        None
    }
}

/// Where an entry with array index `n` goes among the entries `s`, sorted
/// by index: after the last one whose index is not above `n`.
pub open spec fn insert_point(s: Seq<(Seq<char>, Val)>, n: nat) -> nat
    decreases s.len(),
{
    if s.len() == 0 {
        0
    } else if array_index_of(s[s.len() - 1].0) matches Some(m) && m > n {
        insert_point(s.subrange(0, s.len() - 1), n)
    } else {
        s.len()
    }
}

/// The entries of `ps` under array indices, in ascending order of index
/// (entries of equal index in their order in `ps`).
pub open spec fn index_entries(ps: Seq<(Seq<char>, Val)>) -> Seq<(Seq<char>, Val)>
    decreases ps.len(),
{
    if ps.len() == 0 {
        seq![]
    } else {
        let s = index_entries(ps.subrange(0, ps.len() - 1));
        match array_index_of(ps[ps.len() - 1].0) {
            Some(n) => s.insert(insert_point(s, n) as int, ps[ps.len() - 1]),
            None => s,
        }
    }
}

/// The entries of `ps` under other keys, in their order in `ps`.
pub open spec fn named_entries(ps: Seq<(Seq<char>, Val)>) -> Seq<(Seq<char>, Val)>
    decreases ps.len(),
{
    if ps.len() == 0 {
        seq![]
    } else {
        let s = named_entries(ps.subrange(0, ps.len() - 1));
        if array_index_of(ps[ps.len() - 1].0) is None {
            s.push(ps[ps.len() - 1])
        } else {
            s
        }
    }
}

/// ECMA-262 `OwnPropertyKeys` order: array indices ascending, then the
/// other keys in the order the object lists them.
pub open spec fn ecma_order(ps: Seq<(Seq<char>, Val)>) -> Seq<(Seq<char>, Val)> {
    index_entries(ps) + named_entries(ps)
}

/// The own data properties `Object.keys` and friends list (all of them
/// but an array's `length`), in ECMA-262 `OwnPropertyKeys` order.
pub open spec fn own_entries(o: ObjectV) -> Seq<(Seq<char>, Val)> {
    ecma_order(data_entries(o))
}

/// The array index `k` names (see [`array_index_of`]).
fn array_index(k: &String) -> (r: Option<u32>)
    ensures
        match r {
            Some(n) => array_index_of(k@) == Some(n as nat),
            None => array_index_of(k@) is None,
        },
{
    let c = chars_of(k.as_str());
    if c.len() == 0 || (c[0] == '0' && c.len() != 1) {
        return None;
    }
    assert(c@.subrange(0, c@.len() as int) =~= c@);
    match parse_digits(&c, 0, 10, 0xffff_fffe) {
        Some(v) => Some(v as u32),
        None => None,
    }
}

/// The entries `es` in ECMA-262 order (see [`ecma_order`]).
fn order_entries(es: Vec<(String, JsValue)>) -> (r: Vec<(String, JsValue)>)
    ensures
        kv_view(r@) == ecma_order(kv_view(es@)),
{
    let ghost all = kv_view(es@);
    let mut sorted: Vec<(String, JsValue)> = Vec::new();
    let mut idx: Vec<u32> = Vec::new();
    let mut named: Vec<(String, JsValue)> = Vec::new();
    let mut i: usize = 0;
    assert(kv_view(sorted@) =~= seq![]);
    assert(kv_view(named@) =~= seq![]);
    while i < es.len()
        invariant
            i <= es.len(),
            all == kv_view(es@),
            kv_view(sorted@) == index_entries(all.subrange(0, i as int)),
            kv_view(named@) == named_entries(all.subrange(0, i as int)),
            idx.len() == sorted.len(),
            forall|k: int| 0 <= k < idx.len() ==> array_index_of(#[trigger] kv_view(sorted@)[k].0) == Some(idx@[k] as nat),
        decreases es.len() - i,
    {
        let ghost pre = all.subrange(0, i + 1);
        assert(pre.subrange(0, i as int) =~= all.subrange(0, i as int));
        assert(pre[i as int] == all[i as int]);
        assert(all[i as int] == (es@[i as int].0@, es@[i as int].1@));
        let e = (es[i].0.clone(), es[i].1.duplicate());
        match array_index(&es[i].0) {
            Some(n) => {
                let ghost s = kv_view(sorted@);
                let mut p = sorted.len();
                assert(s.subrange(0, p as int) =~= s);
                while p > 0 && idx[p - 1] > n
                    invariant
                        p <= sorted.len(),
                        idx.len() == sorted.len(),
                        s == kv_view(sorted@),
                        forall|k: int| 0 <= k < idx.len() ==> array_index_of(#[trigger] s[k].0) == Some(idx@[k] as nat),
                        insert_point(s.subrange(0, p as int), n as nat) == insert_point(s, n as nat),
                    decreases p,
                {
                    assert(s.subrange(0, p as int).subrange(0, p - 1) =~= s.subrange(0, p - 1));
                    assert(s.subrange(0, p as int)[p - 1] == s[p - 1]);
                    assert(array_index_of(s[p - 1].0) == Some(idx@[p - 1] as nat));
                    p = p - 1;
                }
                proof {
                    assert(s.subrange(0, s.len() as int) =~= s);
                    if p > 0 {
                        assert(s.subrange(0, p as int)[p - 1] == s[p - 1]);
                        assert(array_index_of(s[p - 1].0) == Some(idx@[p - 1] as nat));
                    }
                    assert(insert_point(s.subrange(0, p as int), n as nat) == p);
                }
                sorted.insert(p, e);
                idx.insert(p, n);
                proof {
                    let ev = all[i as int];
                    assert(kv_view(sorted@) =~= s.insert(p as int, ev));
                    assert(index_entries(pre) == s.insert(p as int, ev));
                    assert(named_entries(pre) == named_entries(all.subrange(0, i as int)));
                    assert forall|k: int| 0 <= k < idx.len() implies array_index_of(
                        #[trigger] kv_view(sorted@)[k].0,
                    ) == Some(idx@[k] as nat) by {
                        if k < p {
                            assert(kv_view(sorted@)[k] == s[k]);
                        } else if k > p {
                            assert(kv_view(sorted@)[k] == s[k - 1]);
                        }
                    }
                }
            },
            None => {
                let ghost old_named = named@;
                named.push(e);
                proof {
                    assert(kv_view(named@) =~= kv_view(old_named).push(all[i as int]));
                    assert(index_entries(pre) == index_entries(all.subrange(0, i as int)));
                }
            },
        }
        i = i + 1;
    }
    assert(all.subrange(0, es.len() as int) =~= all);
    let ghost front = kv_view(sorted@);
    let mut j: usize = 0;
    while j < named.len()
        invariant
            j <= named.len(),
            kv_view(sorted@) == front + kv_view(named@).subrange(0, j as int),
        decreases named.len() - j,
    {
        let ghost before = sorted@;
        sorted.push((named[j].0.clone(), named[j].1.duplicate()));
        assert(kv_view(sorted@) =~= kv_view(before).push(kv_view(named@)[j as int]));
        j = j + 1;
        assert(front + kv_view(named@).subrange(0, j as int) =~= (front + kv_view(named@).subrange(0, j - 1)).push(
            kv_view(named@)[j - 1],
        ));
    }
    assert(kv_view(named@).subrange(0, named.len() as int) =~= kv_view(named@));
    sorted
}

/// The entries of `v` when it is an object in the heap, else none.
pub open spec fn spec_collect_entries(h: HeapV, v: Val) -> Seq<(Seq<char>, Val)> {
    match v {
        Val::Object(id) => match heap_object(h, id) {
            Some(o) => own_entries(o),
            None => seq![],
        },
        _ => seq![],
    }
}

/// The entries of `value` (see [`spec_collect_entries`]).
pub fn collect_entries(value: &JsValue, heap: &HeapView) -> (r: Vec<(String, JsValue)>)
    ensures
        kv_view(r@) == spec_collect_entries(heap@, value@),
{
    let mut out: Vec<(String, JsValue)> = Vec::new();
    assert(kv_view(out@) =~= seq![]);
    let o = match value {
        JsValue::Object(id) => match heap.object(*id) {
            Some(o) => o,
            None => {
                return out;
            },
        },
        _ => {
            return out;
        },
    };
    let array = looks_like_array(o);
    let length = chars_of("length");
    let mut i: usize = 0;
    while i < o.properties.len()
        invariant
            i <= o.properties.len(),
            length@ == "length"@,
            array == spec_looks_like_array(o@),
            kv_view(out@) == (if array {
                without_key(o@.properties.subrange(0, i as int), "length"@)
            } else {
                o@.properties.subrange(0, i as int)
            }),
        decreases o.properties.len() - i,
    {
        let ghost prefix = o@.properties.subrange(0, i + 1);
        assert(prefix.subrange(0, i as int) =~= o@.properties.subrange(0, i as int));
        assert(prefix[i as int] == (o.properties@[i as int].0@, o.properties@[i as int].1@));
        let skip = array && same_text(o.properties[i].0.as_str(), &length);
        if !skip {
            let ghost old_out = out@;
            out.push((o.properties[i].0.clone(), o.properties[i].1.duplicate()));
            assert(kv_view(out@) =~= kv_view(old_out).push(prefix[i as int]));
        }
        proof {
            if !array {
                assert(kv_view(out@) =~= prefix);
            }
        }
        i = i + 1;
    }
    assert(o@.properties.subrange(0, o@.properties.len() as int) =~= o@.properties);
    assert(kv_view(out@) == listed_properties(o@));
    order_entries(keep_first_entries(out))
}

/// The first entry under each key of `es` (see [`first_entries`]).
fn keep_first_entries(es: Vec<(String, JsValue)>) -> (r: Vec<(String, JsValue)>)
    ensures
        kv_view(r@) == first_entries(kv_view(es@)),
{
    let ghost all = kv_view(es@);
    let mut out: Vec<(String, JsValue)> = Vec::new();
    let mut i: usize = 0;
    assert(all.subrange(0, 0) =~= Seq::<(Seq<char>, Val)>::empty());
    assert(kv_view(out@) =~= Seq::<(Seq<char>, Val)>::empty());
    while i < es.len()
        invariant
            i <= es.len(),
            all == kv_view(es@),
            kv_view(out@) == first_entries(all.subrange(0, i as int)),
        decreases es.len() - i,
    {
        let key = crate::text::chars_of(es[i].0.as_str());
        let mut seen = false;
        let mut j: usize = 0;
        while j < i
            invariant
                j <= i < es.len(),
                all == kv_view(es@),
                key@ == all[i as int].0,
                seen == has_key(all.subrange(0, j as int), key@),
            decreases i - j,
        {
            let same = crate::value::same_text(es[j].0.as_str(), &key);
            proof {
                let pre = all.subrange(0, j as int);
                let next = all.subrange(0, j + 1);
                assert(all[j as int] == (es@[j as int].0@, es@[j as int].1@));
                if has_key(next, key@) && !has_key(pre, key@) {
                    let w = choose|w: int| 0 <= w < next.len() && (#[trigger] next[w]).0 == key@;
                    if w < j {
                        assert(pre[w] == next[w]);
                    }
                }
                if has_key(pre, key@) {
                    let w = choose|w: int| 0 <= w < pre.len() && (#[trigger] pre[w]).0 == key@;
                    assert(next[w] == pre[w]);
                }
                if same {
                    assert(next[j as int] == all[j as int]);
                }
            }
            seen = seen || same;
            j = j + 1;
        }
        let ghost pre = all.subrange(0, i as int);
        let ghost next = all.subrange(0, i + 1);
        assert(next.subrange(0, i as int) =~= pre);
        assert(next[i as int] == all[i as int]);
        assert(all[i as int] == (es@[i as int].0@, es@[i as int].1@));
        if !seen {
            let ghost old_out = out@;
            out.push((es[i].0.clone(), es[i].1.duplicate()));
            assert(kv_view(out@) =~= kv_view(old_out).push(all[i as int]));
        }
        i = i + 1;
    }
    assert(all.subrange(0, es.len() as int) =~= all);
    out
}

/// The first entry under each key of `o`, in ECMA-262 order.
pub(crate) fn ordered_properties(o: &ObjectView) -> (r: Vec<(String, JsValue)>)
    ensures
        kv_view(r@) == ecma_order(first_entries(o@.properties)),
{
    let mut out: Vec<(String, JsValue)> = Vec::new();
    let mut i: usize = 0;
    while i < o.properties.len()
        invariant
            i <= o.properties.len(),
            kv_view(out@) == o@.properties.subrange(0, i as int),
        decreases o.properties.len() - i,
    {
        let ghost old_out = out@;
        assert(o@.properties[i as int] == (o.properties@[i as int].0@, o.properties@[i as int].1@));
        out.push((o.properties[i].0.clone(), o.properties[i].1.duplicate()));
        assert(kv_view(out@) =~= kv_view(old_out).push(o@.properties[i as int]));
        assert(o@.properties.subrange(0, i + 1) =~= o@.properties.subrange(0, i as int).push(o@.properties[i as int]));
        i = i + 1;
    }
    assert(o@.properties.subrange(0, o@.properties.len() as int) =~= o@.properties);
    order_entries(keep_first_entries(out))
}

pub open spec fn entry_keys(es: Seq<(Seq<char>, Val)>) -> Seq<Val> {
    es.map_values(|e: (Seq<char>, Val)| Val::String(e.0))
}

pub open spec fn entry_values(es: Seq<(Seq<char>, Val)>) -> Seq<Val> {
    es.map_values(|e: (Seq<char>, Val)| e.1)
}

/// A plan allocating one array object holding `vs`, returned.
pub open spec fn new_array(vs: Seq<Val>) -> CompletionV {
    CompletionV::Normal(PlanV { steps: seq![array_object(vs)], result: SlotV::Fresh(0) })
}

fn one_array(values: &Vec<JsValue>) -> (r: Completion)
    ensures
        r@ == new_array(vals(values@)),
{
    let mut steps: Vec<Step> = Vec::new();
    steps.push(build_array_object(values));
    assert(steps_view(steps@) =~= seq![array_object(vals(values@))]);
    Completion::Normal(Plan { steps, result: Slot::Fresh(0) })
}

/// `Object.keys(obj)`: an array of the own data-property names (without
/// an array's `length`).
pub open spec fn spec_keys(h: HeapV, args: Seq<Val>) -> CompletionV {
    new_array(entry_keys(spec_collect_entries(h, spec_arg_at(args, 0))))
}

/// `Object.keys` (see [`spec_keys`]).
pub fn keys_impl(args: &Vec<JsValue>, heap: &HeapView) -> (r: Completion)
    ensures
        r@ == spec_keys(heap@, vals(args@)),
{
    let entries = collect_entries(&first_arg(args), heap);
    let mut keys: Vec<JsValue> = Vec::new();
    let mut i: usize = 0;
    while i < entries.len()
        invariant
            i <= entries.len(),
            vals(keys@) =~= entry_keys(kv_view(entries@)).subrange(0, i as int),
        decreases entries.len() - i,
    {
        let ghost old_keys = keys@;
        keys.push(JsValue::String(entries[i].0.clone()));
        assert(vals(keys@) =~= vals(old_keys).push(entry_keys(kv_view(entries@))[i as int]));
        i = i + 1;
    }
    assert(entry_keys(kv_view(entries@)).subrange(0, entries.len() as int) =~= entry_keys(kv_view(entries@)));
    one_array(&keys)
}

/// `Object.values(obj)`: an array of the own data-property values, in
/// the order of `keys`.
pub open spec fn spec_values(h: HeapV, args: Seq<Val>) -> CompletionV {
    new_array(entry_values(spec_collect_entries(h, spec_arg_at(args, 0))))
}

/// `Object.values` (see [`spec_values`]).
pub fn values_impl(args: &Vec<JsValue>, heap: &HeapView) -> (r: Completion)
    ensures
        r@ == spec_values(heap@, vals(args@)),
{
    let entries = collect_entries(&first_arg(args), heap);
    let mut values: Vec<JsValue> = Vec::new();
    let mut i: usize = 0;
    while i < entries.len()
        invariant
            i <= entries.len(),
            vals(values@) =~= entry_values(kv_view(entries@)).subrange(0, i as int),
        decreases entries.len() - i,
    {
        let ghost old_values = values@;
        values.push(entries[i].1.duplicate());
        assert(vals(values@) =~= vals(old_values).push(entry_values(kv_view(entries@))[i as int]));
        i = i + 1;
    }
    assert(entry_values(kv_view(entries@)).subrange(0, entries.len() as int) =~= entry_values(kv_view(entries@)));
    one_array(&values)
}

/// The slots of the first `n` allocations.
pub open spec fn fresh_slots(n: nat) -> Seq<SlotV> {
    Seq::new(n, |i: int| SlotV::Fresh(i as nat))
}

/// `Object.entries(obj)`: an array of `[key, value]` arrays, one per own
/// data property; the pairs are allocated first, then the outer array.
pub open spec fn spec_entries(h: HeapV, args: Seq<Val>) -> CompletionV {
    let es = spec_collect_entries(h, spec_arg_at(args, 0));
    CompletionV::Normal(
        PlanV {
            steps: Seq::new(es.len(), |i: int| array_object(seq![Val::String(es[i].0), es[i].1])).push(
                StepV::NewObject(array_props(fresh_slots(es.len()))),
            ),
            result: SlotV::Fresh(es.len()),
        },
    )
}

/// `Object.entries` (see [`spec_entries`]).
pub fn entries_impl(args: &Vec<JsValue>, heap: &HeapView) -> (r: Completion)
    ensures
        r@ == spec_entries(heap@, vals(args@)),
{
    let entries = collect_entries(&first_arg(args), heap);
    let ghost es = kv_view(entries@);
    let mut steps: Vec<Step> = Vec::new();
    let mut outer: Vec<(String, Slot)> = Vec::new();
    let mut i: usize = 0;
    while i < entries.len()
        invariant
            i <= entries.len(),
            es == kv_view(entries@),
            steps_view(steps@) =~= Seq::new(i as nat, |k: int| array_object(seq![Val::String(es[k].0), es[k].1])),
            slot_props_view(outer@) =~= crate::value::index_props(fresh_slots(i as nat)),
        decreases entries.len() - i,
    {
        let mut pair: Vec<JsValue> = Vec::new();
        pair.push(JsValue::String(entries[i].0.clone()));
        pair.push(entries[i].1.duplicate());
        assert(vals(pair@) =~= seq![Val::String(es[i as int].0), es[i as int].1]);
        let ghost old_steps = steps@;
        steps.push(build_array_object(&pair));
        assert(steps_view(steps@) =~= steps_view(old_steps).push(array_object(vals(pair@))));
        let ghost old_outer = outer@;
        outer.push((string_of(&crate::text::decimal_u64(i as u64)), Slot::Fresh(i)));
        assert(slot_props_view(outer@) =~= slot_props_view(old_outer).push(
            (crate::text::spec_decimal(i as nat), SlotV::Fresh(i as nat)),
        ));
        i = i + 1;
    }
    let n: u32 = if entries.len() <= 0xffff_ffff {
        entries.len() as u32
    } else {
        0xffff_ffff
    };
    outer.push((string_of(&chars_of("length")), Slot::WholeNumber(n)));
    assert(slot_props_view(outer@) =~= array_props(fresh_slots(es.len())));
    let ghost before = steps@;
    steps.push(Step::NewObject(outer));
    assert(steps_view(steps@) =~= steps_view(before).push(StepV::NewObject(array_props(fresh_slots(es.len())))));
    Completion::Normal(Plan { steps, result: Slot::Fresh(entries.len()) })
}

} // verus!

verus! {

/// Copies `source`'s data properties, then its accessors, onto `target`
/// (see [`merge`]).
pub fn merge_into(target: &mut ObjectView, source: &ObjectView)
    ensures
        final(target)@ == merge(old(target)@, source@),
{
    let ghost t0 = target@;
    let mut i: usize = 0;
    while i < source.properties.len()
        invariant
            i <= source.properties.len(),
            target@ == merge_data(t0, source@.properties, i as nat),
        decreases source.properties.len() - i,
    {
        assert(source@.properties[i as int] == (source.properties@[i as int].0@, source.properties@[i as int].1@));
        target.with(source.properties[i].0.clone(), source.properties[i].1.duplicate());
        i = i + 1;
    }
    let ghost t1 = target@;
    let mut j: usize = 0;
    while j < source.accessors.len()
        invariant
            j <= source.accessors.len(),
            t1 == merge_data(t0, source@.properties, source@.properties.len()),
            target@ == merge_accessors(t1, source@.accessors, j as nat),
        decreases source.accessors.len() - j,
    {
        assert(source@.accessors[j as int] == (source.accessors@[j as int].0@, source.accessors@[j as int].1@));
        target.with_accessor(source.accessors[j].0.clone(), source.accessors[j].1.duplicate());
        j = j + 1;
    }
}

/// `Object.assign`'s walk over the first `n` sources: the target's state
/// and the stores made.  An object source (read from the target's current
/// state when it is the target itself) is merged in and the result
/// stored; any other source is passed over.
pub open spec fn assign_fold(h: HeapV, tid: u64, t: ObjectV, sources: Seq<Val>, n: nat) -> (ObjectV, Seq<StepV>)
    decreases n,
{
    if n == 0 || n > sources.len() {
        (t, seq![])
    } else {
        let prev = assign_fold(h, tid, t, sources, (n - 1) as nat);
        match sources[n - 1] {
            Val::Object(sid) => {
                let src = if sid == tid {
                    Some(prev.0)
                } else {
                    heap_object(h, sid)
                };
                match src {
                    Some(o) => {
                        let m = merge(prev.0, o);
                        (m, prev.1.push(StepV::Store(tid, m)))
                    },
                    None => prev,
                }
            },
            _ => prev,
        }
    }
}

/// `Object.assign(target, ...sources)`: when the target is an object in
/// the heap, each object source's data properties and then accessors are
/// copied onto it in argument order (each copy stored as it is made);
/// returns the target.
pub open spec fn spec_assign(h: HeapV, args: Seq<Val>) -> CompletionV {
    let t = spec_arg_at(args, 0);
    match t {
        Val::Object(id) => match heap_object(h, id) {
            Some(o) => CompletionV::Normal(
                PlanV {
                    steps: assign_fold(h, id, o, args.subrange(1, args.len() as int), (args.len() - 1) as nat).1,
                    result: SlotV::Value(t),
                },
            ),
            None => normal_return(t),
        },
        _ => normal_return(t),
    }
}

/// `Object.assign` (see [`spec_assign`]).
pub fn assign_impl(args: &Vec<JsValue>, heap: &HeapView) -> (r: Completion)
    ensures
        r@ == spec_assign(heap@, vals(args@)),
{
    let target = first_arg(args);
    let tid = match target {
        JsValue::Object(id) => id,
        _ => {
            return return_value(target);
        },
    };
    let mut current = match heap.object(tid) {
        Some(o) => o.duplicate(),
        None => {
            return return_value(target);
        },
    };
    let ghost t0 = current@;
    let ghost sources = vals(args@).subrange(1, args@.len() as int);
    let mut steps: Vec<Step> = Vec::new();
    assert(steps_view(steps@) =~= seq![]);
    let mut k: usize = 1;
    while k < args.len()
        invariant
            1 <= k <= args.len(),
            sources == vals(args@).subrange(1, args@.len() as int),
            (current@, steps_view(steps@)) == assign_fold(heap@, tid, t0, sources, (k - 1) as nat),
        decreases args.len() - k,
    {
        assert(sources[k - 1] == args@[k as int]@);
        match &args[k] {
            JsValue::Object(sid) => {
                let src: Option<ObjectView> = if *sid == tid {
                    Some(current.duplicate())
                } else {
                    match heap.object(*sid) {
                        Some(o) => Some(o.duplicate()),
                        None => None,
                    }
                };
                match src {
                    Some(o) => {
                        merge_into(&mut current, &o);
                        let ghost old_steps = steps@;
                        steps.push(Step::Store(tid, current.duplicate()));
                        assert(steps_view(steps@) =~= steps_view(old_steps).push(StepV::Store(tid, current@)));
                    },
                    None => {},
                }
            },
            _ => {},
        }
        k = k + 1;
    }
    Completion::Normal(Plan { steps, result: Slot::Value(target) })
}

} // verus!

verus! {

use crate::value::{lookup, lemma_lookup_first, lemma_lookup_none, runnable, step_refers_back, slot_refers_back};

proof fn lemma_lookup_at_key_index<T>(ps: Seq<(Seq<char>, T)>, k: Seq<char>)
    ensures
        lookup(ps, k) == (match key_index(ps, k) {
            Some(i) => Some(ps[i as int].1),
            None => None,
        }),
{
    lemma_key_index(ps, k);
    match key_index(ps, k) {
        Some(i) => lemma_lookup_first(ps, k, i as int),
        None => lemma_lookup_none(ps, k),
    }
}

/// After `put`, `k` holds `v` and every other key what it held.
proof fn lemma_put_lookup<T>(ps: Seq<(Seq<char>, T)>, k: Seq<char>, v: T, k2: Seq<char>)
    ensures
        lookup(put(ps, k, v), k2) == (if k2 == k {
            Some(v)
        } else {
            lookup(ps, k2)
        }),
{
    let q = put(ps, k, v);
    lemma_key_index(ps, k);
    lemma_key_index(ps, k2);
    lemma_lookup_at_key_index(ps, k2);
    match key_index(ps, k) {
        Some(i) => {
            assert(q[i as int] == (k, v));
            if k2 == k {
                lemma_lookup_first(q, k, i as int);
            } else {
                assert forall|l: int| 0 <= l < q.len() implies q[l].0 == ps[l].0 by {}
                match key_index(ps, k2) {
                    Some(j) => lemma_lookup_first(q, k2, j as int),
                    None => lemma_lookup_none(q, k2),
                }
            }
        },
        None => {
            assert(q[ps.len() as int] == (k, v));
            if k2 == k {
                lemma_lookup_first(q, k, ps.len() as int);
            } else {
                assert forall|l: int| 0 <= l < ps.len() implies q[l] == ps[l] by {}
                match key_index(ps, k2) {
                    Some(j) => lemma_lookup_first(q, k2, j as int),
                    None => lemma_lookup_none(q, k2),
                }
            }
        },
    }
}

/// Removing `k` leaves every other key's value as it was.
proof fn lemma_remove_lookup<T>(ps: Seq<(Seq<char>, T)>, k: Seq<char>, k2: Seq<char>)
    requires
        k2 != k,
    ensures
        lookup(remove_key(ps, k), k2) == lookup(ps, k2),
{
    let q = remove_key(ps, k);
    lemma_key_index(ps, k);
    lemma_key_index(ps, k2);
    lemma_lookup_at_key_index(ps, k2);
    match key_index(ps, k) {
        Some(i) => {
            assert forall|l: int| 0 <= l < q.len() implies q[l] == (if l < i {
                ps[l]
            } else {
                ps[l + 1]
            }) by {}
            match key_index(ps, k2) {
                Some(j) => {
                    if j < i {
                        lemma_lookup_first(q, k2, j as int);
                    } else {
                        assert(j != i);
                        lemma_lookup_first(q, k2, j - 1);
                    }
                },
                None => lemma_lookup_none(q, k2),
            }
        },
        None => {},
    }
}

proof fn lemma_merge_data_sets(t: ObjectV, ps: Seq<(Seq<char>, Val)>, i: int, n: nat)
    requires
        0 <= i < n <= ps.len(),
        forall|j: int| i < j < n ==> (#[trigger] ps[j]).0 != ps[i].0,
    ensures
        lookup(merge_data(t, ps, n).properties, ps[i].0) == Some(ps[i].1),
    decreases n,
{
    let prev = merge_data(t, ps, (n - 1) as nat);
    lemma_put_lookup(prev.properties, ps[n - 1].0, ps[n - 1].1, ps[i].0);
    if n - 1 > i {
        lemma_merge_data_sets(t, ps, i, (n - 1) as nat);
    }
}

proof fn lemma_merge_data_keeps(t: ObjectV, ps: Seq<(Seq<char>, Val)>, n: nat, k: Seq<char>)
    requires
        n <= ps.len(),
        forall|j: int| 0 <= j < n ==> (#[trigger] ps[j]).0 != k,
    ensures
        lookup(merge_data(t, ps, n).properties, k) == lookup(t.properties, k),
        lookup(merge_data(t, ps, n).accessors, k) == lookup(t.accessors, k),
    decreases n,
{
    if n > 0 {
        let prev = merge_data(t, ps, (n - 1) as nat);
        lemma_merge_data_keeps(t, ps, (n - 1) as nat, k);
        lemma_put_lookup(prev.properties, ps[n - 1].0, ps[n - 1].1, k);
        lemma_remove_lookup(prev.accessors, ps[n - 1].0, k);
    }
}

proof fn lemma_merge_accessors_keeps(t: ObjectV, ps: Seq<(Seq<char>, AccessorV)>, n: nat, k: Seq<char>)
    requires
        n <= ps.len(),
        forall|j: int| 0 <= j < n ==> (#[trigger] ps[j]).0 != k,
    ensures
        lookup(merge_accessors(t, ps, n).properties, k) == lookup(t.properties, k),
        lookup(merge_accessors(t, ps, n).accessors, k) == lookup(t.accessors, k),
    decreases n,
{
    if n > 0 {
        let prev = merge_accessors(t, ps, (n - 1) as nat);
        lemma_merge_accessors_keeps(t, ps, (n - 1) as nat, k);
        lemma_put_lookup(prev.accessors, ps[n - 1].0, ps[n - 1].1, k);
        lemma_remove_lookup(prev.properties, ps[n - 1].0, k);
    }
}

/// Copying a source onto a target makes each of the source's data
/// properties (the last one under its key, where no accessor of the
/// source shares the key) a data property of the target with its value.
pub proof fn law_merge_copies_data(target: ObjectV, source: ObjectV, i: int)
    requires
        0 <= i < source.properties.len(),
        forall|j: int| i < j < source.properties.len() ==> (#[trigger] source.properties[j]).0 != source.properties[i].0,
        forall|a: int| 0 <= a < source.accessors.len() ==> (#[trigger] source.accessors[a]).0 != source.properties[i].0,
    ensures
        lookup(merge(target, source).properties, source.properties[i].0) == Some(source.properties[i].1),
{
    let ps = source.properties;
    lemma_merge_data_sets(target, ps, i, ps.len());
    lemma_merge_accessors_keeps(
        merge_data(target, ps, ps.len()),
        source.accessors,
        source.accessors.len(),
        ps[i].0,
    );
}

/// Copying a source onto a target leaves the target's keys that the
/// source does not name as they were.
pub proof fn law_merge_keeps_other_keys(target: ObjectV, source: ObjectV, k: Seq<char>)
    requires
        forall|j: int| 0 <= j < source.properties.len() ==> (#[trigger] source.properties[j]).0 != k,
        forall|a: int| 0 <= a < source.accessors.len() ==> (#[trigger] source.accessors[a]).0 != k,
    ensures
        lookup(merge(target, source).properties, k) == lookup(target.properties, k),
        lookup(merge(target, source).accessors, k) == lookup(target.accessors, k),
{
    let ps = source.properties;
    lemma_merge_data_keeps(target, ps, ps.len(), k);
    lemma_merge_accessors_keeps(merge_data(target, ps, ps.len()), source.accessors, source.accessors.len(), k);
}

/// A source of `Object.assign` that leaves key `k` of the target alone:
/// not an object, an object missing from the heap, or an object (other than
/// the target) naming `k` neither as data nor as accessor.
pub open spec fn leaves_key(h: HeapV, tid: u64, source: Val, k: Seq<char>) -> bool {
    match source {
        Val::Object(sid) => sid != tid && match heap_object(h, sid) {
            Some(o) => (forall|j: int| 0 <= j < o.properties.len() ==> (#[trigger] o.properties[j]).0 != k) && (forall|
                a: int,
            |
                0 <= a < o.accessors.len() ==> (#[trigger] o.accessors[a]).0 != k),
            None => true,
        },
        _ => true,
    }
}

/// The last store `Object.assign` makes writes the target's final state.
pub proof fn law_assign_stores_final_state(h: HeapV, tid: u64, t: ObjectV, sources: Seq<Val>, n: nat)
    ensures
        assign_fold(h, tid, t, sources, n).1.len() > 0 ==> assign_fold(h, tid, t, sources, n).1.last() == StepV::Store(
            tid,
            assign_fold(h, tid, t, sources, n).0,
        ),
    decreases n,
{
    if n > 0 && n <= sources.len() {
        law_assign_stores_final_state(h, tid, t, sources, (n - 1) as nat);
    }
}

/// In `Object.assign`, the last source that names key `k` decides it: a
/// data property `k: v` of that source (with no accessor under `k`) ends
/// up on the target, whatever the sources before it held.
pub proof fn law_assign_last_source_wins(
    h: HeapV,
    tid: u64,
    t: ObjectV,
    sources: Seq<Val>,
    m: int,
    sid: u64,
    i: int,
    n: nat,
)
    requires
        0 <= m < n <= sources.len(),
        sources[m] == Val::Object(sid),
        sid != tid,
        heap_object(h, sid) matches Some(o) && 0 <= i < o.properties.len() && (forall|j: int|
            i < j < o.properties.len() ==> (#[trigger] o.properties[j]).0 != o.properties[i].0) && (forall|a: int|
            0 <= a < o.accessors.len() ==> (#[trigger] o.accessors[a]).0 != o.properties[i].0),
        forall|l: int| m < l < n ==> leaves_key(h, tid, #[trigger] sources[l], heap_object(h, sid)->Some_0.properties[i].0),
    ensures
        lookup(assign_fold(h, tid, t, sources, n).0.properties, heap_object(h, sid)->Some_0.properties[i].0) == Some(
            heap_object(h, sid)->Some_0.properties[i].1,
        ),
    decreases n,
{
    let o = heap_object(h, sid)->Some_0;
    let k = o.properties[i].0;
    if n == m + 1 {
        let prev = assign_fold(h, tid, t, sources, m as nat);
        law_merge_copies_data(prev.0, o, i);
    } else {
        law_assign_last_source_wins(h, tid, t, sources, m, sid, i, (n - 1) as nat);
        let prev = assign_fold(h, tid, t, sources, (n - 1) as nat);
        assert(leaves_key(h, tid, sources[n - 1], k));
        match sources[n - 1] {
            Val::Object(sid2) => match heap_object(h, sid2) {
                Some(o2) => {
                    law_merge_keeps_other_keys(prev.0, o2, k);
                },
                None => {},
            },
            _ => {},
        }
    }
}

/// The entries not under `k`.
pub open spec fn not_under<T>(k: Seq<char>) -> spec_fn((Seq<char>, T)) -> bool {
    |e: (Seq<char>, T)| e.0 != k
}

proof fn lemma_without_key_is_filter<T>(ps: Seq<(Seq<char>, T)>, k: Seq<char>)
    ensures
        without_key(ps, k) == ps.filter(not_under::<T>(k)),
    decreases ps.len(),
{
    let f = not_under::<T>(k);
    reveal(Seq::filter);
    if ps.len() == 0 {
        assert(ps.filter(f) == ps);
        assert(ps =~= Seq::<(Seq<char>, T)>::empty());
    } else {
        lemma_without_key_is_filter(ps.subrange(0, ps.len() - 1), k);
        assert(ps.drop_last() =~= ps.subrange(0, ps.len() - 1));
        assert(ps.filter(f) == (if f(ps.last()) {
            ps.drop_last().filter(f).push(ps.last())
        } else {
            ps.drop_last().filter(f)
        }));
        assert(f(ps.last()) == (ps[ps.len() - 1].0 != k));
    }
}

/// `Object.keys`, `values` and `entries` list an object's own data
/// properties: all of them for a plain object, all but `length` for an
/// array, each key once.
pub proof fn law_own_entries(o: ObjectV)
    ensures
        own_entries(o) == ecma_order(first_entries(listed_properties(o))),
        !spec_looks_like_array(o) ==> listed_properties(o) == o.properties,
        spec_looks_like_array(o) ==> listed_properties(o) == o.properties.filter(not_under::<Val>("length"@)),
{
    lemma_without_key_is_filter(o.properties, "length"@);
}

/// `Object.keys` and `Object.values` agree entry by entry: the `i`-th key
/// names the property whose value is the `i`-th value.
pub proof fn law_keys_match_values(h: HeapV, args: Seq<Val>)
    ensures
        ({
            let es = spec_collect_entries(h, spec_arg_at(args, 0));
            &&& spec_keys(h, args) == new_array(Seq::new(es.len(), |i: int| Val::String(es[i].0)))
            &&& spec_values(h, args) == new_array(Seq::new(es.len(), |i: int| es[i].1))
        }),
{
    let es = spec_collect_entries(h, spec_arg_at(args, 0));
    assert(entry_keys(es) =~= Seq::new(es.len(), |i: int| Val::String(es[i].0)));
    assert(entry_values(es) =~= Seq::new(es.len(), |i: int| es[i].1));
}

proof fn lemma_new_array_runnable(vs: Seq<Val>)
    ensures
        new_array(vs) matches CompletionV::Normal(p) && runnable(p),
{
    let p = PlanV { steps: seq![array_object(vs)], result: SlotV::Fresh(0) };
    let ps = array_props(crate::array::value_slots(vs));
    assert forall|j: int| 0 <= j < ps.len() implies slot_refers_back(p.steps, #[trigger] ps[j].1, 0) by {
        if j < vs.len() {
            assert(ps[j].1 == SlotV::Value(vs[j]));
        }
    }
    assert(step_refers_back(p.steps, 0));
    assert forall|i: nat| i < p.steps.len() implies #[trigger] step_refers_back(p.steps, i) by {}
}

proof fn lemma_assign_fold_stores(h: HeapV, tid: u64, t: ObjectV, sources: Seq<Val>, n: nat)
    ensures
        forall|i: int| 0 <= i < assign_fold(h, tid, t, sources, n).1.len() ==> (#[trigger] assign_fold(
            h,
            tid,
            t,
            sources,
            n,
        ).1[i]) is Store,
    decreases n,
{
    if n > 0 && n <= sources.len() {
        lemma_assign_fold_stores(h, tid, t, sources, (n - 1) as nat);
    }
}

/// Every plan the `Object` statics return can be run in order.
pub proof fn law_object_plans_are_runnable(h: HeapV, args: Seq<Val>)
    ensures
        spec_keys(h, args) matches CompletionV::Normal(p) && runnable(p),
        spec_values(h, args) matches CompletionV::Normal(p) && runnable(p),
        spec_entries(h, args) matches CompletionV::Normal(p) && runnable(p),
        spec_assign(h, args) matches CompletionV::Normal(p) && runnable(p),
{
    let es = spec_collect_entries(h, spec_arg_at(args, 0));
    lemma_new_array_runnable(entry_keys(es));
    lemma_new_array_runnable(entry_values(es));
    let pairs = Seq::new(es.len(), |i: int| array_object(seq![Val::String(es[i].0), es[i].1]));
    let steps = pairs.push(StepV::NewObject(array_props(fresh_slots(es.len()))));
    assert forall|i: nat| i < steps.len() implies #[trigger] step_refers_back(steps, i) by {
        if i < es.len() {
            let ps = array_props(crate::array::value_slots(seq![Val::String(es[i as int].0), es[i as int].1]));
            assert(steps[i as int] == StepV::NewObject(ps));
            assert forall|j: int| 0 <= j < ps.len() implies slot_refers_back(steps, #[trigger] ps[j].1, i) by {
                if j < 2 {
                    assert(ps[j].1 is Value);
                }
            }
        } else {
            let ps = array_props(fresh_slots(es.len()));
            assert forall|j: int| 0 <= j < ps.len() implies slot_refers_back(steps, #[trigger] ps[j].1, i) by {
                if j < es.len() {
                    assert(ps[j].1 == SlotV::Fresh(j as nat));
                    assert(steps[j] == pairs[j]);
                }
            }
        }
    }
    assert(steps[es.len() as int] is NewObject);
    if let Val::Object(id) = spec_arg_at(args, 0) {
        if let Some(o) = heap_object(h, id) {
            let fold = assign_fold(h, id, o, args.subrange(1, args.len() as int), (args.len() - 1) as nat);
            lemma_assign_fold_stores(h, id, o, args.subrange(1, args.len() as int), (args.len() - 1) as nat);
            assert forall|i: nat| i < fold.1.len() implies #[trigger] step_refers_back(fold.1, i) by {
                assert(fold.1[i as int] is Store);
            }
        }
    }
}

/// Every entry of `s` is under an array index, in ascending order.
pub open spec fn sorted_by_index(s: Seq<(Seq<char>, Val)>) -> bool {
    &&& forall|i: int| 0 <= i < s.len() ==> (#[trigger] array_index_of(s[i].0)) is Some
    &&& forall|i: int, j: int|
        0 <= i < j < s.len() ==> array_index_of(#[trigger] s[i].0)->Some_0 <= array_index_of(#[trigger] s[j].0)->Some_0
}

proof fn lemma_insert_point(s: Seq<(Seq<char>, Val)>, n: nat)
    requires
        sorted_by_index(s),
    ensures
        insert_point(s, n) <= s.len(),
        forall|k: int| 0 <= k < insert_point(s, n) ==> array_index_of(#[trigger] s[k].0)->Some_0 <= n,
        forall|k: int| insert_point(s, n) <= k < s.len() ==> array_index_of(#[trigger] s[k].0)->Some_0 > n,
    decreases s.len(),
{
    if s.len() > 0 {
        let init = s.subrange(0, s.len() - 1);
        assert(array_index_of(s[s.len() - 1].0) is Some);
        if array_index_of(s[s.len() - 1].0)->Some_0 > n {
            assert forall|i: int| 0 <= i < init.len() implies (#[trigger] array_index_of(init[i].0)) is Some by {
                assert(init[i] == s[i]);
            }
            assert forall|i: int, j: int| 0 <= i < j < init.len() implies array_index_of(#[trigger] init[i].0)->Some_0
                <= array_index_of(#[trigger] init[j].0)->Some_0 by {
                assert(init[i] == s[i] && init[j] == s[j]);
            }
            lemma_insert_point(init, n);
            assert forall|k: int| 0 <= k < insert_point(s, n) implies array_index_of(#[trigger] s[k].0)->Some_0 <= n by {
                assert(init[k] == s[k]);
            }
            assert forall|k: int| insert_point(s, n) <= k < s.len() implies array_index_of(#[trigger] s[k].0)->Some_0 > n by {
                if k < s.len() - 1 {
                    assert(init[k] == s[k]);
                }
            }
        } else {
            assert forall|k: int| 0 <= k < insert_point(s, n) implies array_index_of(#[trigger] s[k].0)->Some_0 <= n by {
                if k < s.len() - 1 {
                    assert(array_index_of(s[k].0)->Some_0 <= array_index_of(s[s.len() - 1].0)->Some_0);
                }
            }
        }
    }
}

#[verifier::rlimit(30)]
proof fn lemma_index_entries_sorted(ps: Seq<(Seq<char>, Val)>)
    ensures
        sorted_by_index(index_entries(ps)),
        forall|i: int| 0 <= i < named_entries(ps).len() ==> (#[trigger] array_index_of(named_entries(ps)[i].0)) is None,
    decreases ps.len(),
{
    if ps.len() > 0 {
        let init = ps.subrange(0, ps.len() - 1);
        let x = ps[ps.len() - 1];
        lemma_index_entries_sorted(init);
        let s = index_entries(init);
        if let Some(n) = array_index_of(x.0) {
            lemma_insert_point(s, n);
            let p = insert_point(s, n) as int;
            let t = s.insert(p, x);
            s.insert_ensures(p, x);
            assert forall|i: int| 0 <= i < t.len() implies (#[trigger] array_index_of(t[i].0)) is Some by {
                if i < p {
                    assert(t[i] == s[i]);
                } else if i > p {
                    assert(t[i] == s[i - 1]);
                }
            }
            assert forall|i: int, j: int| 0 <= i < j < t.len() implies array_index_of(#[trigger] t[i].0)->Some_0
                <= array_index_of(#[trigger] t[j].0)->Some_0 by {
                if i < p {
                    assert(t[i] == s[i]);
                }
                if i > p {
                    assert(t[i] == s[i - 1]);
                }
                if j < p {
                    assert(t[j] == s[j]);
                }
                if j > p {
                    assert(t[j] == s[j - 1]);
                }
            }
        } else {
            let m = named_entries(init);
            assert forall|i: int| 0 <= i < named_entries(ps).len() implies (#[trigger] array_index_of(
                named_entries(ps)[i].0,
            )) is None by {
                if i < m.len() {
                    assert(named_entries(ps)[i] == m[i]);
                }
            }
        }
    }
}

proof fn lemma_ecma_order_permutes(ps: Seq<(Seq<char>, Val)>)
    ensures
        index_entries(ps).to_multiset().add(named_entries(ps).to_multiset()) == ps.to_multiset(),
    decreases ps.len(),
{
    broadcast use vstd::multiset::group_multiset_axioms;
    broadcast use vstd::seq_lib::to_multiset_build;
    broadcast use vstd::seq_lib::to_multiset_insert;

    if ps.len() == 0 {
        let e = Seq::<(Seq<char>, Val)>::empty();
        assert(ps =~= e);
        assert(e + e =~= e);
        vstd::seq_lib::lemma_multiset_commutative(e, e);
    } else {
        let init = ps.subrange(0, ps.len() - 1);
        let x = ps[ps.len() - 1];
        lemma_ecma_order_permutes(init);
        assert(ps =~= init.push(x));
        let s = index_entries(init);
        if let Some(n) = array_index_of(x.0) {
            lemma_index_entries_sorted(init);
            lemma_insert_point(s, n);
            assert(index_entries(ps).to_multiset() == s.to_multiset().insert(x));
        }
        assert(index_entries(ps).to_multiset().add(named_entries(ps).to_multiset()) =~= ps.to_multiset());
    }
}

/// `Object.keys`, `values` and `entries` list the own data properties in
/// ECMA-262 order: first those under array indices, in ascending order of
/// index, then the others, each listed exactly once.
pub proof fn law_keys_in_ecma_order(o: ObjectV)
    ensures
        own_entries(o) == index_entries(data_entries(o)) + named_entries(data_entries(o)),
        sorted_by_index(index_entries(data_entries(o))),
        forall|i: int|
            0 <= i < named_entries(data_entries(o)).len() ==> (#[trigger] array_index_of(
                named_entries(data_entries(o))[i].0,
            )) is None,
        own_entries(o).to_multiset() == data_entries(o).to_multiset(),
        distinct_keys(data_entries(o)),
{
    lemma_first_entries_within(listed_properties(o));
    let ps = data_entries(o);
    lemma_index_entries_sorted(ps);
    lemma_ecma_order_permutes(ps);
    vstd::seq_lib::lemma_multiset_commutative(index_entries(ps), named_entries(ps));
}

/// Each entry [`first_entries`] keeps is one of the entries it was given,
/// and none of its keys occurs twice.
pub proof fn lemma_first_entries_within<T>(ps: Seq<(Seq<char>, T)>)
    ensures
        forall|i: int| 0 <= i < first_entries(ps).len() ==> ps.contains(#[trigger] first_entries(ps)[i]),
        distinct_keys(first_entries(ps)),
    decreases ps.len(),
{
    if ps.len() > 0 {
        let init = ps.subrange(0, ps.len() - 1);
        let last = ps[ps.len() - 1];
        lemma_first_entries_within(init);
        let rest = first_entries(init);
        let fe = first_entries(ps);
        assert forall|i: int| 0 <= i < fe.len() implies ps.contains(#[trigger] fe[i]) by {
            if i < rest.len() {
                assert(fe[i] == rest[i]);
                assert(init.contains(rest[i]));
                let j = choose|j: int| 0 <= j < init.len() && init[j] == rest[i];
                assert(ps[j] == init[j]);
            } else {
                assert(fe[i] == last);
                assert(ps[ps.len() - 1] == last);
            }
        }
        if !has_key(init, last.0) {
            assert forall|i: int, j: int| 0 <= i < j < fe.len() implies (#[trigger] fe[i]).0 != (#[trigger] fe[j]).0 by {
                if j < rest.len() {
                    assert(fe[i] == rest[i] && fe[j] == rest[j]);
                } else {
                    assert(fe[j] == last);
                    assert(fe[i] == rest[i]);
                    assert(init.contains(rest[i]));
                    let w = choose|w: int| 0 <= w < init.len() && init[w] == rest[i];
                    assert(init[w].0 == rest[i].0);
                }
            }
        }
    }
}

/// Each entry [`ecma_order`] lists is one of the entries it was given.
pub proof fn lemma_ecma_order_within(ps: Seq<(Seq<char>, Val)>)
    ensures
        forall|i: int| 0 <= i < ecma_order(ps).len() ==> ps.contains(#[trigger] ecma_order(ps)[i]),
{
    let es = ecma_order(ps);
    lemma_ecma_order_permutes(ps);
    vstd::seq_lib::lemma_multiset_commutative(index_entries(ps), named_entries(ps));
    es.to_multiset_ensures();
    ps.to_multiset_ensures();
    assert forall|i: int| 0 <= i < es.len() implies ps.contains(#[trigger] es[i]) by {
        assert(es.contains(es[i]));
        assert(es.to_multiset().count(es[i]) > 0);
    }
}

/// No two entries share a key.
pub open spec fn distinct_keys<T>(ps: Seq<(Seq<char>, T)>) -> bool {
    forall|i: int, j: int| 0 <= i < j < ps.len() ==> (#[trigger] ps[i]).0 != (#[trigger] ps[j]).0
}

proof fn lemma_lookup_push<T>(ps: Seq<(Seq<char>, T)>, e: (Seq<char>, T), k: Seq<char>)
    ensures
        lookup(ps.push(e), k) == (if lookup(ps, k) is Some {
            lookup(ps, k)
        } else if e.0 == k {
            Some(e.1)
        } else {
            None
        }),
    decreases ps.len(),
{
    let q = ps.push(e);
    if ps.len() > 0 {
        assert(q.drop_first() =~= ps.drop_first().push(e));
        assert(q[0] == ps[0]);
        lemma_lookup_push(ps.drop_first(), e, k);
    } else {
        assert(q.drop_first() =~= Seq::<(Seq<char>, T)>::empty());
        assert(q[0] == e);
        assert(lookup(q.drop_first(), k) is None);
    }
}

/// A lookup of a key [`first_entries`] keeps finds the value kept with it.
proof fn lemma_first_entries_lookup<T>(ps: Seq<(Seq<char>, T)>)
    ensures
        forall|i: int|
            0 <= i < first_entries(ps).len() ==> lookup(ps, (#[trigger] first_entries(ps)[i]).0) == Some(
                first_entries(ps)[i].1,
            ),
    decreases ps.len(),
{
    if ps.len() > 0 {
        let init = ps.subrange(0, ps.len() - 1);
        let last = ps[ps.len() - 1];
        lemma_first_entries_lookup(init);
        let rest = first_entries(init);
        let fe = first_entries(ps);
        assert(ps =~= init.push(last));
        assert forall|i: int| 0 <= i < fe.len() implies lookup(ps, (#[trigger] fe[i]).0) == Some(fe[i].1) by {
            if i < rest.len() {
                assert(fe[i] == rest[i]);
                lemma_lookup_push(init, last, rest[i].0);
            } else {
                assert(fe[i] == last);
                assert forall|j: int| 0 <= j < init.len() implies init[j].0 != last.0 by {
                    if init[j].0 == last.0 {
                        assert(has_key(init, last.0));
                    }
                }
                crate::value::lemma_lookup_none(init, last.0);
                lemma_lookup_push(init, last, last.0);
            }
        }
    }
}

/// Leaving out the entries under `l` changes no lookup of another key, and
/// leaves no entry under `l`.
proof fn lemma_without_key_lookup<T>(ps: Seq<(Seq<char>, T)>, l: Seq<char>, k: Seq<char>)
    ensures
        k != l ==> lookup(without_key(ps, l), k) == lookup(ps, k),
        forall|i: int| 0 <= i < without_key(ps, l).len() ==> (#[trigger] without_key(ps, l)[i]).0 != l,
    decreases ps.len(),
{
    if ps.len() > 0 {
        let init = ps.subrange(0, ps.len() - 1);
        let last = ps[ps.len() - 1];
        lemma_without_key_lookup(init, l, k);
        let rest = without_key(init, l);
        assert(ps =~= init.push(last));
        lemma_lookup_push(init, last, k);
        if last.0 != l {
            lemma_lookup_push(rest, last, k);
            let w = without_key(ps, l);
            assert forall|i: int| 0 <= i < w.len() implies (#[trigger] w[i]).0 != l by {
                if i < rest.len() {
                    assert(w[i] == rest[i]);
                }
            }
        }
    }
}

proof fn lemma_ecma_order_keys(ps: Seq<(Seq<char>, Val)>, k: Seq<char>)
    ensures
        has_key(ecma_order(ps), k) == has_key(ps, k),
{
    let es = ecma_order(ps);
    lemma_ecma_order_permutes(ps);
    vstd::seq_lib::lemma_multiset_commutative(index_entries(ps), named_entries(ps));
    es.to_multiset_ensures();
    ps.to_multiset_ensures();
    assert(es.to_multiset() == ps.to_multiset());
    if has_key(es, k) {
        let j = choose|j: int| 0 <= j < es.len() && (#[trigger] es[j]).0 == k;
        assert(es.contains(es[j]));
        assert(es.to_multiset().count(es[j]) > 0);
        assert(ps.contains(es[j]));
        let m = choose|m: int| 0 <= m < ps.len() && ps[m] == es[j];
        assert(ps[m].0 == k);
    }
    if has_key(ps, k) {
        let j = choose|j: int| 0 <= j < ps.len() && (#[trigger] ps[j]).0 == k;
        assert(ps.contains(ps[j]));
        assert(ps.to_multiset().count(ps[j]) > 0);
        assert(es.contains(ps[j]));
        let m = choose|m: int| 0 <= m < es.len() && es[m] == ps[j];
        assert(es[m].0 == k);
    }
}

proof fn lemma_first_entries_keys<T>(ps: Seq<(Seq<char>, T)>, k: Seq<char>)
    ensures
        has_key(first_entries(ps), k) == has_key(ps, k),
    decreases ps.len(),
{
    if ps.len() > 0 {
        let init = ps.subrange(0, ps.len() - 1);
        let last = ps[ps.len() - 1];
        lemma_first_entries_keys(init, k);
        let rest = first_entries(init);
        let fe = first_entries(ps);
        if has_key(fe, k) {
            let j = choose|j: int| 0 <= j < fe.len() && (#[trigger] fe[j]).0 == k;
            if j < rest.len() {
                assert(fe[j] == rest[j]);
                assert(has_key(rest, k));
                let m = choose|m: int| 0 <= m < init.len() && (#[trigger] init[m]).0 == k;
                assert(ps[m] == init[m]);
            } else {
                assert(fe[j] == last);
                assert(ps[ps.len() - 1].0 == k);
            }
        }
        if has_key(ps, k) {
            let j = choose|j: int| 0 <= j < ps.len() && (#[trigger] ps[j]).0 == k;
            if j < ps.len() - 1 {
                assert(init[j] == ps[j]);
                assert(has_key(init, k));
                assert(has_key(rest, k));
                let m = choose|m: int| 0 <= m < rest.len() && (#[trigger] rest[m]).0 == k;
                assert(fe[m] == rest[m]);
            } else if has_key(init, last.0) {
                assert(has_key(rest, k));
                let m = choose|m: int| 0 <= m < rest.len() && (#[trigger] rest[m]).0 == k;
                assert(fe[m] == rest[m]);
            } else {
                assert(fe[rest.len() as int] == last);
            }
        }
    }
}

proof fn lemma_without_key_keys<T>(ps: Seq<(Seq<char>, T)>, l: Seq<char>, k: Seq<char>)
    ensures
        has_key(without_key(ps, l), k) == (has_key(ps, k) && k != l),
    decreases ps.len(),
{
    if ps.len() > 0 {
        let init = ps.subrange(0, ps.len() - 1);
        let last = ps[ps.len() - 1];
        lemma_without_key_keys(init, l, k);
        lemma_without_key_lookup(init, l, k);
        lemma_without_key_lookup(ps, l, k);
        let rest = without_key(init, l);
        let w = without_key(ps, l);
        if has_key(w, k) {
            let j = choose|j: int| 0 <= j < w.len() && (#[trigger] w[j]).0 == k;
            if j < rest.len() {
                assert(w[j] == rest[j]);
                assert(has_key(rest, k));
                let m = choose|m: int| 0 <= m < init.len() && (#[trigger] init[m]).0 == k;
                assert(ps[m] == init[m]);
            } else {
                assert(w[j] == last);
                assert(ps[ps.len() - 1].0 == k);
            }
        }
        if has_key(ps, k) && k != l {
            let j = choose|j: int| 0 <= j < ps.len() && (#[trigger] ps[j]).0 == k;
            if j < ps.len() - 1 {
                assert(init[j] == ps[j]);
                assert(has_key(init, k));
                assert(has_key(rest, k));
                let m = choose|m: int| 0 <= m < rest.len() && (#[trigger] rest[m]).0 == k;
                assert(w[m] == rest[m]);
            } else {
                assert(last.0 != l);
                assert(w[rest.len() as int] == last);
            }
        }
    }
}

/// `Object.keys`, `values` and `entries` of an object of the heap list
/// every key of its data properties, and no other: all of them for a
/// plain object (`length` included), all but `length` for an array.
pub proof fn law_entries_list_each_own_key(h: HeapV, id: u64, k: Seq<char>)
    requires
        heap_object(h, id) is Some,
    ensures
        has_key(spec_collect_entries(h, Val::Object(id)), k) <==> (has_key(heap_object(h, id)->Some_0.properties, k)
            && !(spec_looks_like_array(heap_object(h, id)->Some_0) && k == "length"@)),
{
    let o = heap_object(h, id)->Some_0;
    let base = listed_properties(o);
    lemma_ecma_order_keys(first_entries(base), k);
    lemma_first_entries_keys(base, k);
    lemma_without_key_keys(o.properties, "length"@, k);
}

/// Each entry `Object.keys` / `values` / `entries` list is the key together
/// with what a lookup of that key gives: the `i`-th value belongs to the
/// `i`-th key.
pub proof fn law_entries_are_lookups(o: ObjectV)
    ensures
        forall|i: int|
            0 <= i < own_entries(o).len() ==> lookup(o.properties, (#[trigger] own_entries(o)[i]).0) == Some(
                own_entries(o)[i].1,
            ),
{
    let es = own_entries(o);
    let base = listed_properties(o);
    let ds = data_entries(o);
    let ps = o.properties;
    lemma_ecma_order_within(ds);
    lemma_first_entries_within(base);
    lemma_first_entries_lookup(base);
    assert forall|i: int| 0 <= i < es.len() implies lookup(ps, (#[trigger] es[i]).0) == Some(es[i].1) by {
        let x = es[i];
        assert(ds.contains(x));
        let d = choose|d: int| 0 <= d < ds.len() && ds[d] == x;
        assert(lookup(base, ds[d].0) == Some(ds[d].1));
        if spec_looks_like_array(o) {
            assert(base.contains(ds[d]));
            let b = choose|b: int| 0 <= b < base.len() && base[b] == ds[d];
            lemma_without_key_lookup(ps, "length"@, x.0);
            assert(base[b].0 != "length"@);
        }
    }
}

/// The data properties a `NewObject` step with properties `ps` allocates:
/// each entry inserted in turn, a later entry under a key already present
/// replacing the earlier one in place.
pub open spec fn allocated(ps: Seq<(Seq<char>, SlotV)>) -> Seq<(Seq<char>, SlotV)>
    decreases ps.len(),
{
    if ps.len() == 0 {
        seq![]
    } else {
        put(allocated(ps.subrange(0, ps.len() - 1)), ps[ps.len() - 1].0, ps[ps.len() - 1].1)
    }
}

/// In the object a `NewObject` step allocates, each key holds the value of
/// the last entry under it (so `JSON.parse` keeps the last of duplicate
/// member names).
pub proof fn law_allocation_last_entry_wins(ps: Seq<(Seq<char>, SlotV)>, i: int)
    requires
        0 <= i < ps.len(),
        forall|j: int| i < j < ps.len() ==> (#[trigger] ps[j]).0 != ps[i].0,
    ensures
        lookup(allocated(ps), ps[i].0) == Some(ps[i].1),
    decreases ps.len(),
{
    let init = ps.subrange(0, ps.len() - 1);
    lemma_put_lookup(allocated(init), ps[ps.len() - 1].0, ps[ps.len() - 1].1, ps[i].0);
    if i < ps.len() - 1 {
        assert forall|j: int| i < j < init.len() implies (#[trigger] init[j]).0 != init[i].0 by {
            assert(init[j] == ps[j]);
        }
        law_allocation_last_entry_wins(init, i);
    }
}

/// A key no entry names is absent from the object a `NewObject` step
/// allocates.
pub proof fn law_allocation_has_only_listed_keys(ps: Seq<(Seq<char>, SlotV)>, k: Seq<char>)
    requires
        forall|j: int| 0 <= j < ps.len() ==> (#[trigger] ps[j]).0 != k,
    ensures
        lookup(allocated(ps), k) is None,
    decreases ps.len(),
{
    if ps.len() > 0 {
        let init = ps.subrange(0, ps.len() - 1);
        lemma_put_lookup(allocated(init), ps[ps.len() - 1].0, ps[ps.len() - 1].1, k);
        assert forall|j: int| 0 <= j < init.len() implies (#[trigger] init[j]).0 != k by {
            assert(init[j] == ps[j]);
        }
        law_allocation_has_only_listed_keys(init, k);
    } else {
        crate::value::lemma_lookup_none(allocated(ps), k);
    }
}

} // verus!
