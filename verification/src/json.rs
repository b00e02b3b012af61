//! A JSON value as the comparison reads it.

use vstd::prelude::*;
use crate::text::{chars_of, chars_eq};

verus! {

/// A JSON value. A number keeps its text; an object keeps its members in
/// order, each key once.
#[derive(Debug)]
pub enum JsonValue {
    Null,
    Bool(bool),
    Number(String),
    Str(String),
    Array(Vec<JsonValue>),
    Object(Vec<(String, JsonValue)>),
}

/// The value of the first member named `key` from position `i` on, or `Null`.
pub open spec fn member_from(entries: Seq<(String, JsonValue)>, key: Seq<char>, i: int) -> JsonValue
    decreases entries.len() - i,
{
    if i < 0 || i >= entries.len() {
        JsonValue::Null
    } else if entries[i].0@ == key {
        entries[i].1
    } else {
        member_from(entries, key, i + 1)
    }
}

/// `v[key]`: the member `key` of an object, `Null` for anything else.
pub open spec fn member(v: JsonValue, key: Seq<char>) -> JsonValue {
    match v {
        JsonValue::Object(entries) => member_from(entries@, key, 0),
        _ => JsonValue::Null,
    }
}

/// The text of a string value.
pub open spec fn as_text(v: JsonValue) -> Option<Seq<char>> {
    match v {
        JsonValue::Str(s) => Some(s@),
        _ => None,
    }
}

/// The text of a string value, empty for anything else.
pub open spec fn text_or_empty(v: JsonValue) -> Seq<char> {
    match v {
        JsonValue::Str(s) => s@,
        _ => Seq::empty(),
    }
}

/// The elements of an array value, none for anything else.
pub open spec fn elements(v: JsonValue) -> Seq<JsonValue> {
    match v {
        JsonValue::Array(vs) => vs@,
        _ => Seq::empty(),
    }
}

/// The texts of the string elements, in order.
pub open spec fn texts(vs: Seq<JsonValue>) -> Seq<Seq<char>>
    decreases vs.len(),
{
    if vs.len() == 0 {
        Seq::empty()
    } else {
        texts(vs.drop_last()) + match vs.last() {
            JsonValue::Str(s) => seq![s@],
            _ => Seq::empty(),
        }
    }
}

/// An element of a member array lies inside the value.
pub proof fn lemma_member_elements_decrease(v: JsonValue, key: Seq<char>, i: int)
    requires
        0 <= i < elements(member(v, key)).len(),
    ensures
        decreases_to!(v => elements(member(v, key))[i]),
{
    match v {
        JsonValue::Object(entries) => {
            lemma_member_from_decrease(entries@, key, 0, i);
            assert(decreases_to!(v => entries));
            vstd::std_specs::vec::axiom_vec_decreases_to_view(entries);
        },
        _ => {},
    }
}

proof fn lemma_member_from_decrease(entries: Seq<(String, JsonValue)>, key: Seq<char>, k: int, i: int)
    requires
        0 <= k,
        0 <= i < elements(member_from(entries, key, k)).len(),
    ensures
        decreases_to!(entries => elements(member_from(entries, key, k))[i]),
    decreases entries.len() - k,
{
    if k < entries.len() {
        if entries[k].0@ == key {
            let e = entries[k];
            match e.1 {
                JsonValue::Array(vs) => {
                    vstd::std_specs::vec::axiom_vec_decreases_to_view(vs);
                    assert(decreases_to!(entries => entries[k]));
                    assert(decreases_to!(e => e.1));
                    assert(decreases_to!(e.1 => vs));
                    assert(decreases_to!(vs@ => vs@[i]));
                },
                _ => {},
            }
        } else {
            lemma_member_from_decrease(entries, key, k + 1, i);
        }
    }
}

/// `v[key]`.
pub fn member_exec<'a>(v: &'a JsonValue, key: &str) -> (r: Option<&'a JsonValue>)
    ensures
        match r {
            Some(x) => member(*v, key@) == *x,
            None => member(*v, key@) == JsonValue::Null,
        },
{
    match v {
        JsonValue::Object(entries) => {
            let k = chars_of(key);
            let mut i: usize = 0;
            while i < entries.len()
                invariant
                    i <= entries@.len(),
                    *v == JsonValue::Object(*entries),
                    k@ == key@,
                    member(*v, key@) == member_from(entries@, key@, i as int),
                decreases entries.len() - i,
            {
                let name = chars_of(entries[i].0.as_str());
                if chars_eq(name.as_slice(), k.as_slice()) {
                    return Some(&entries[i].1);
                }
                i += 1;
            }
            None
        },
        _ => None,
    }
}

/// The text of `v[key]` if it is a string.
pub fn member_text(v: &JsonValue, key: &str) -> (r: Option<String>)
    ensures
        match r {
            Some(s) => as_text(member(*v, key@)) == Some(s@),
            None => as_text(member(*v, key@)) is None,
        },
{
    match member_exec(v, key) {
        Some(JsonValue::Str(s)) => Some(s.clone()),
        _ => None,
    }
}

/// The elements of `v[key]` if it is an array, else none.
pub fn member_elements<'a>(v: &'a JsonValue, key: &str) -> (r: &'a [JsonValue])
    ensures
        r@ == elements(member(*v, key@)),
{
    match member_exec(v, key) {
        Some(JsonValue::Array(vs)) => vs.as_slice(),
        _ => &[],
    }
}

/// The texts of the string elements of an array value (others are
/// skipped); none for a value that is not an array.
pub fn extract_json_string_array(value: &JsonValue) -> (r: Vec<String>)
    ensures
        r@.map_values(|s: String| s@) == texts(elements(*value)),
{
    let empty: &[JsonValue] = &[];
    let value: &[JsonValue] = match value {
        JsonValue::Array(vs) => vs.as_slice(),
        _ => empty,
    };
    let mut r: Vec<String> = Vec::new();
    let mut i: usize = 0;
    while i < value.len()
        invariant
            i <= value@.len(),
            r@.map_values(|s: String| s@) == texts(value@.take(i as int)),
        decreases value.len() - i,
    {
        assert(value@.take(i + 1).drop_last() =~= value@.take(i as int));
        let ghost old_r = r@;
        if let JsonValue::Str(s) = &value[i] {
            r.push(s.clone());
            assert(r@.map_values(|s: String| s@) =~= old_r.map_values(|s: String| s@).push(s@));
        } else {
            assert(texts(value@.take(i + 1)) =~= texts(value@.take(i as int)));
        }
        i += 1;
    }
    assert(value@.take(value@.len() as int) =~= value@);
    r
}

} // verus!
