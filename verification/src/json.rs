//! A structural model of the JSON-like values the stores persist.
//!
//! Stored rows carry self-describing structured values (objects, arrays,
//! strings, integers, booleans, null). An object is an association vector of
//! key/value pairs (see `kv`); the well-formed objects the stores maintain
//! have pairwise-distinct keys.
use crate::kv::{kget, kwf, Keyed};
use vstd::prelude::*;

verus! {

broadcast use vstd::seq::group_seq_axioms, vstd::std_specs::vec::group_vec_axioms;

/// A structured value, as one row's decoded content.
#[derive(Debug, PartialEq, Eq)]
pub enum JsonValue {
    Null,
    Bool(bool),
    Int(i64),
    Str(String),
    Arr(Vec<JsonValue>),
    Obj(Vec<(String, JsonValue)>),
}

impl Keyed for (String, JsonValue) {
    open spec fn key_view(&self) -> Seq<char> {
        self.0@
    }

    fn key_ref(&self) -> (r: &str) {
        self.0.as_str()
    }
}

/// The value stored under key `k`, if any (first entry wins).
pub open spec fn obj_get(o: Seq<(String, JsonValue)>, k: Seq<char>) -> Option<JsonValue> {
    match kget(o, k) {
        Some(e) => Some(e.1),
        None => None,
    }
}

/// The value stored under `k`, if any.
pub fn obj_get_exec<'a>(o: &'a Vec<(String, JsonValue)>, k: &str) -> (r: Option<&'a JsonValue>)
    ensures
        match r {
            Some(v) => obj_get(o@, k@) == Some(*v),
            None => obj_get(o@, k@) is None,
        },
{
    match crate::kv::kfind(o, k) {
        Some(i) => Some(&o[i].1),
        None => None,
    }
}

/// Structural equivalence: equal shapes, with strings compared by content.
///
/// Two values built independently from the same content are equivalent in
/// this sense even when the solver cannot identify the heap-allocated parts.
pub open spec fn json_eq(a: JsonValue, b: JsonValue) -> bool
    decreases a,
{
    match (a, b) {
        (JsonValue::Null, JsonValue::Null) => true,
        (JsonValue::Bool(x), JsonValue::Bool(y)) => x == y,
        (JsonValue::Int(x), JsonValue::Int(y)) => x == y,
        (JsonValue::Str(x), JsonValue::Str(y)) => x@ == y@,
        (JsonValue::Arr(x), JsonValue::Arr(y)) => {
            &&& x@.len() == y@.len()
            &&& forall|i: int| 0 <= i < x@.len() ==> json_eq(x@[i], y@[i])
        },
        (JsonValue::Obj(x), JsonValue::Obj(y)) => {
            &&& x@.len() == y@.len()
            &&& forall|i: int|
                0 <= i < x@.len() ==> x@[i].0@ == y@[i].0@ && json_eq(x@[i].1, y@[i].1)
        },
        _ => false,
    }
}

/// A structurally equivalent copy.
pub fn json_clone(v: &JsonValue) -> (r: JsonValue)
    ensures
        json_eq(r, *v),
    decreases *v,
{
    match v {
        JsonValue::Null => JsonValue::Null,
        JsonValue::Bool(b) => JsonValue::Bool(*b),
        JsonValue::Int(n) => JsonValue::Int(*n),
        JsonValue::Str(s) => JsonValue::Str(s.clone()),
        JsonValue::Arr(items) => {
            let mut out: Vec<JsonValue> = Vec::new();
            let mut i: usize = 0;
            while i < items.len()
                invariant
                    *v == JsonValue::Arr(*items),
                    i <= items@.len(),
                    out@.len() == i,
                    forall|j: int| 0 <= j < i ==> json_eq(out@[j], items@[j]),
                decreases items@.len() - i,
            {
                proof {
                    assert(decreases_to!(*v => v->Arr_0));
                    assert(v->Arr_0 == *items);
                    assert(decreases_to!(*items => items@));
                    assert(decreases_to!(items@ => items@[i as int]));
                }
                out.push(json_clone(&items[i]));
                i += 1;
            }
            JsonValue::Arr(out)
        },
        JsonValue::Obj(entries) => {
            let mut out: Vec<(String, JsonValue)> = Vec::new();
            let mut i: usize = 0;
            while i < entries.len()
                invariant
                    *v == JsonValue::Obj(*entries),
                    i <= entries@.len(),
                    out@.len() == i,
                    forall|j: int|
                        0 <= j < i ==> out@[j].0@ == entries@[j].0@ && json_eq(
                            out@[j].1,
                            entries@[j].1,
                        ),
                decreases entries@.len() - i,
            {
                proof {
                    assert(decreases_to!(*v => v->Obj_0));
                    assert(v->Obj_0 == *entries);
                    assert(decreases_to!(*entries => entries@));
                    assert(decreases_to!(entries@ => entries@[i as int]));
                    assert(decreases_to!(entries@[i as int] => entries@[i as int].1));
                }
                let cloned = json_clone(&entries[i].1);
                out.push((entries[i].0.clone(), cloned));
                i += 1;
            }
            JsonValue::Obj(out)
        },
    }
}

/// Well-formedness of an object carried one level deep: distinct keys at the
/// top, and distinct keys inside every directly nested object.
pub open spec fn obj_wf_deep(o: Seq<(String, JsonValue)>) -> bool {
    &&& kwf(o)
    &&& forall|i: int|
        0 <= i < o.len() ==> match #[trigger] o[i].1 {
            JsonValue::Obj(inner) => kwf(inner@),
            _ => true,
        }
}

} // verus!
