//! JSON values as the reader consumes them, and the decoding of devalue's
//! flattened-index encoding that Freedium's `__data.json` uses.
use vstd::prelude::*;

verus! {

/// A JSON value.
///
/// Numbers are kept as the reader needs them: `Int` for a number that fits
/// an `i64` (those serve as devalue indices), `OtherNumber` with the JSON
/// text for any other number. Object members keep their order; keys are
/// unique, as a JSON parser leaves them.
#[derive(Debug)]
pub enum JsonValue {
    Null,
    Bool(bool),
    Int(i64),
    OtherNumber(String),
    Str(String),
    Array(Vec<JsonValue>),
    Object(Vec<(String, JsonValue)>),
}

/// The mathematical value of a [`JsonValue`].
pub enum JsonModel {
    Null,
    Bool(bool),
    Int(i64),
    OtherNumber(Seq<char>),
    Str(Seq<char>),
    Array(Seq<JsonModel>),
    Object(Seq<(Seq<char>, JsonModel)>),
}

pub open spec fn json_model(v: JsonValue) -> JsonModel
    decreases v, 0nat,
{
    match v {
        JsonValue::Null => JsonModel::Null,
        JsonValue::Bool(b) => JsonModel::Bool(b),
        JsonValue::Int(i) => JsonModel::Int(i),
        JsonValue::OtherNumber(t) => JsonModel::OtherNumber(t@),
        JsonValue::Str(s) => JsonModel::Str(s@),
        JsonValue::Array(items) => JsonModel::Array(json_models(items@)),
        JsonValue::Object(entries) => JsonModel::Object(json_entry_models(entries@)),
    }
}

pub open spec fn json_models(s: Seq<JsonValue>) -> Seq<JsonModel>
    decreases s, s.len(),
{
    if s.len() == 0 {
        Seq::empty()
    } else {
        json_models(s.subrange(0, s.len() - 1)).push(json_model(s[s.len() - 1]))
    }
}

pub open spec fn json_entry_models(s: Seq<(String, JsonValue)>) -> Seq<(Seq<char>, JsonModel)>
    decreases s, s.len(),
{
    if s.len() == 0 {
        Seq::empty()
    } else {
        json_entry_models(s.subrange(0, s.len() - 1)).push(
            (s[s.len() - 1].0@, json_model(s[s.len() - 1].1)),
        )
    }
}

impl View for JsonValue {
    type V = JsonModel;

    open spec fn view(&self) -> JsonModel {
        json_model(*self)
    }
}

pub proof fn lemma_json_models_push(s: Seq<JsonValue>, v: JsonValue)
    ensures
        json_models(s.push(v)) == json_models(s).push(json_model(v)),
{
    assert(s.push(v).subrange(0, s.len() as int) =~= s);
}

pub proof fn lemma_json_entry_models_push(s: Seq<(String, JsonValue)>, e: (String, JsonValue))
    ensures
        json_entry_models(s.push(e)) == json_entry_models(s).push((e.0@, json_model(e.1))),
{
    assert(s.push(e).subrange(0, s.len() as int) =~= s);
}

pub proof fn lemma_json_models_len(s: Seq<JsonValue>)
    ensures
        json_models(s).len() == s.len(),
        forall|i: int| 0 <= i < s.len() ==> #[trigger] json_models(s)[i] == json_model(s[i]),
    decreases s.len(),
{
    if s.len() > 0 {
        let p = s.subrange(0, s.len() - 1);
        lemma_json_models_len(p);
        assert forall|i: int| 0 <= i < s.len() implies #[trigger] json_models(s)[i] == json_model(
            s[i],
        ) by {
            if i < s.len() - 1 {
                assert(p[i] == s[i]);
            }
        }
    }
}

pub proof fn lemma_json_entry_models_len(s: Seq<(String, JsonValue)>)
    ensures
        json_entry_models(s).len() == s.len(),
        forall|i: int|
            0 <= i < s.len() ==> #[trigger] json_entry_models(s)[i] == (
                s[i].0@,
                json_model(s[i].1),
            ),
    decreases s.len(),
{
    if s.len() > 0 {
        let p = s.subrange(0, s.len() - 1);
        lemma_json_entry_models_len(p);
        assert forall|i: int| 0 <= i < s.len() implies #[trigger] json_entry_models(s)[i] == (
            s[i].0@,
            json_model(s[i].1),
        ) by {
            if i < s.len() - 1 {
                assert(p[i] == s[i]);
            }
        }
    }
}

/// A copy of `v`.
pub fn json_clone(v: &JsonValue) -> (r: JsonValue)
    ensures
        r@ == v@,
    decreases v,
{
    match v {
        JsonValue::Null => JsonValue::Null,
        JsonValue::Bool(b) => JsonValue::Bool(*b),
        JsonValue::Int(i) => JsonValue::Int(*i),
        JsonValue::OtherNumber(t) => JsonValue::OtherNumber(t.clone()),
        JsonValue::Str(t) => JsonValue::Str(t.clone()),
        JsonValue::Array(items) => {
            let mut out: Vec<JsonValue> = Vec::new();
            let mut i: usize = 0;
            while i < items.len()
                invariant
                    i <= items@.len(),
                    *v == JsonValue::Array(*items),
                    json_models(out@) == json_models(items@.take(i as int)),
                decreases items@.len() - i,
            {
                proof {
                    vstd::std_specs::vec::axiom_vec_index_decreases(*items, i as int);
                    assert(decreases_to!(*v => (*v)->Array_0));
                    assert(decreases_to!(*v => items@[i as int]));
                }
                let c = json_clone(&items[i]);
                proof {
                    lemma_json_models_push(out@, c);
                    lemma_json_models_push(items@.take(i as int), items@[i as int]);
                    assert(items@.take(i + 1) =~= items@.take(i as int).push(items@[i as int]));
                }
                out.push(c);
                i = i + 1;
            }
            assert(items@.take(items@.len() as int) =~= items@);
            JsonValue::Array(out)
        },
        JsonValue::Object(entries) => {
            let mut out: Vec<(String, JsonValue)> = Vec::new();
            let mut i: usize = 0;
            while i < entries.len()
                invariant
                    i <= entries@.len(),
                    *v == JsonValue::Object(*entries),
                    json_entry_models(out@) == json_entry_models(entries@.take(i as int)),
                decreases entries@.len() - i,
            {
                let k = entries[i].0.clone();
                proof {
                    vstd::std_specs::vec::axiom_vec_index_decreases(*entries, i as int);
                    assert(decreases_to!(*v => (*v)->Object_0));
                    assert(decreases_to!(*v => entries@[i as int]));
                    assert(decreases_to!(*v => entries@[i as int].1));
                }
                let c = json_clone(&entries[i].1);
                proof {
                    lemma_json_entry_models_push(out@, (k, c));
                    lemma_json_entry_models_push(entries@.take(i as int), entries@[i as int]);
                    assert(entries@.take(i + 1) =~= entries@.take(i as int).push(
                        entries@[i as int],
                    ));
                }
                out.push((k, c));
                i = i + 1;
            }
            assert(entries@.take(entries@.len() as int) =~= entries@);
            JsonValue::Object(out)
        },
    }
}

/// The value of the first member named `key`.
pub open spec fn entries_get(es: Seq<(Seq<char>, JsonModel)>, key: Seq<char>) -> Option<JsonModel>
    decreases es.len(),
{
    if es.len() == 0 {
        None
    } else if es[0].0 == key {
        Some(es[0].1)
    } else {
        entries_get(es.skip(1), key)
    }
}

/// `value.get(key)`: the member `key` of an object, nothing for other values.
pub open spec fn member(m: JsonModel, key: Seq<char>) -> Option<JsonModel> {
    match m {
        JsonModel::Object(es) => entries_get(es, key),
        _ => None,
    }
}

/// `value.and_then(|v| v.get(key))`.
pub open spec fn member_of(m: Option<JsonModel>, key: Seq<char>) -> Option<JsonModel> {
    match m {
        Some(v) => member(v, key),
        None => None,
    }
}

/// `value.and_then(Value::as_str)`.
pub open spec fn text_of(m: Option<JsonModel>) -> Option<Seq<char>> {
    match m {
        Some(JsonModel::Str(s)) => Some(s),
        _ => None,
    }
}

/// `value.and_then(Value::as_array)`.
pub open spec fn items_of(m: Option<JsonModel>) -> Option<Seq<JsonModel>> {
    match m {
        Some(JsonModel::Array(s)) => Some(s),
        _ => None,
    }
}

proof fn lemma_entries_get(es: Seq<(Seq<char>, JsonModel)>, key: Seq<char>, i: int)
    requires
        0 <= i <= es.len(),
        forall|j: int| 0 <= j < i ==> (#[trigger] es[j]).0 != key,
    ensures
        i < es.len() && es[i].0 == key ==> entries_get(es, key) == Some(es[i].1),
        i == es.len() ==> entries_get(es, key) is None,
    decreases i,
{
    if i > 0 {
        assert forall|j: int| 0 <= j < i - 1 implies (#[trigger] es.skip(1)[j]).0 != key by {
            assert(es.skip(1)[j] == es[j + 1]);
        }
        lemma_entries_get(es.skip(1), key, i - 1);
    }
}

/// `value.get(key)`.
pub fn get_member<'a>(v: &'a JsonValue, key: &str) -> (r: Option<&'a JsonValue>)
    ensures
        match r {
            Some(x) => member(v@, key@) == Some(x@),
            None => member(v@, key@) is None,
        },
{
    match v {
        JsonValue::Object(es) => {
            proof {
                lemma_json_entry_models_len(es@);
            }
            let ghost ms = json_entry_models(es@);
            let mut i: usize = 0;
            while i < es.len()
                invariant
                    i <= es@.len(),
                    *v == JsonValue::Object(*es),
                    ms == json_entry_models(es@),
                    ms.len() == es@.len(),
                    forall|j: int| 0 <= j < es@.len() ==> #[trigger] ms[j] == (es@[j].0@, json_model(es@[j].1)),
                    forall|j: int| 0 <= j < i ==> (#[trigger] ms[j]).0 != key@,
                decreases es@.len() - i,
            {
                if crate::text::str_eq(es[i].0.as_str(), key) {
                    proof {
                        lemma_entries_get(ms, key@, i as int);
                    }
                    return Some(&es[i].1);
                }
                i = i + 1;
            }
            proof {
                lemma_entries_get(ms, key@, i as int);
            }
            None
        },
        _ => None,
    }
}

/// `value.as_str()`.
pub fn as_text(v: &JsonValue) -> (r: Option<&String>)
    ensures
        match r {
            Some(s) => text_of(Some(v@)) == Some(s@),
            None => text_of(Some(v@)) is None,
        },
{
    match v {
        JsonValue::Str(s) => Some(s),
        _ => None,
    }
}

/// A devalue node rebuilt from the flat array `arr`: containers hold the
/// indices of their members, which are followed; other values stand for
/// themselves. A negative or missing index, or a depth past 64 (the guard
/// against cycles), gives `Null`.
pub open spec fn devalue_resolved(arr: Seq<JsonModel>, index: i64, depth: int) -> JsonModel
    decreases 65 - depth, 0int,
{
    if depth > 64 || index < 0 {
        JsonModel::Null
    } else if (index as usize) as int >= arr.len() {
        JsonModel::Null
    } else {
        match arr[(index as usize) as int] {
            JsonModel::Object(es) => JsonModel::Object(devalue_entries(arr, es, depth + 1)),
            JsonModel::Array(items) => JsonModel::Array(devalue_items(arr, items, depth + 1)),
            lit => lit,
        }
    }
}

/// Object members with each integer member followed as an index.
pub open spec fn devalue_entries(
    arr: Seq<JsonModel>,
    es: Seq<(Seq<char>, JsonModel)>,
    depth: int,
) -> Seq<(Seq<char>, JsonModel)>
    decreases 65 - depth, es.len(),
{
    if es.len() == 0 {
        Seq::empty()
    } else {
        let last = es[es.len() - 1];
        devalue_entries(arr, es.subrange(0, es.len() - 1), depth).push(
            (
                last.0,
                match last.1 {
                    JsonModel::Int(i) => devalue_resolved(arr, i, depth),
                    c => c,
                },
            ),
        )
    }
}

/// Array items with each integer item followed as an index.
pub open spec fn devalue_items(arr: Seq<JsonModel>, items: Seq<JsonModel>, depth: int) -> Seq<
    JsonModel,
>
    decreases 65 - depth, items.len(),
{
    if items.len() == 0 {
        Seq::empty()
    } else {
        let last = items[items.len() - 1];
        devalue_items(arr, items.subrange(0, items.len() - 1), depth).push(
            match last {
                JsonModel::Int(i) => devalue_resolved(arr, i, depth),
                c => c,
            },
        )
    }
}

/// Resolve a value from devalue's flattened-array encoding.
///
/// devalue stores every value in a single flat array; container fields and
/// array elements hold the *index* of their value rather than the value itself.
/// We follow those indices to rebuild a normal value. `depth` guards against
/// cyclic references.
pub fn devalue_resolve(arr: &[JsonValue], index: i64, depth: usize) -> (r: JsonValue)
    ensures
        r@ == devalue_resolved(json_models(arr@), index, depth as int),
    decreases 65 - depth,
{
    if depth > 64 || index < 0 {
        return JsonValue::Null;
    }
    proof {
        lemma_json_models_len(arr@);
    }
    let k = index as usize;
    if k >= arr.len() {
        return JsonValue::Null;
    }
    let ghost am = json_models(arr@);
    match &arr[k] {
        JsonValue::Object(es) => {
            proof {
                lemma_json_entry_models_len(es@);
            }
            let ghost ms = json_entry_models(es@);
            let mut out: Vec<(String, JsonValue)> = Vec::new();
            let mut i: usize = 0;
            while i < es.len()
                invariant
                    i <= es@.len(),
                    depth <= 64,
                    am == json_models(arr@),
                    ms.len() == es@.len(),
                    forall|j: int|
                        0 <= j < es@.len() ==> #[trigger] ms[j] == (
                            es@[j].0@,
                            json_model(es@[j].1),
                        ),
                    json_entry_models(out@) == devalue_entries(
                        am,
                        ms.take(i as int),
                        depth + 1,
                    ),
                decreases es@.len() - i,
            {
                let key = es[i].0.clone();
                let child = match &es[i].1 {
                    JsonValue::Int(n) => devalue_resolve(arr, *n, depth + 1),
                    c => json_clone(c),
                };
                proof {
                    lemma_json_entry_models_push(out@, (key, child));
                    assert(ms.take(i + 1).subrange(0, i as int) =~= ms.take(i as int));
                }
                out.push((key, child));
                i = i + 1;
            }
            assert(ms.take(es@.len() as int) =~= ms);
            JsonValue::Object(out)
        },
        JsonValue::Array(items) => {
            proof {
                lemma_json_models_len(items@);
            }
            let ghost ms = json_models(items@);
            let mut out: Vec<JsonValue> = Vec::new();
            let mut i: usize = 0;
            while i < items.len()
                invariant
                    i <= items@.len(),
                    depth <= 64,
                    am == json_models(arr@),
                    ms.len() == items@.len(),
                    forall|j: int| 0 <= j < items@.len() ==> #[trigger] ms[j] == json_model(items@[j]),
                    json_models(out@) == devalue_items(am, ms.take(i as int), depth + 1),
                decreases items@.len() - i,
            {
                let child = match &items[i] {
                    JsonValue::Int(n) => devalue_resolve(arr, *n, depth + 1),
                    c => json_clone(c),
                };
                proof {
                    lemma_json_models_push(out@, child);
                    assert(ms.take(i + 1).subrange(0, i as int) =~= ms.take(i as int));
                }
                out.push(child);
                i = i + 1;
            }
            assert(ms.take(items@.len() as int) =~= ms);
            JsonValue::Array(out)
        },
        lit => json_clone(lit),
    }
}

#[verifier::external_type_specification]
#[verifier::external_body]
pub struct ExJsonDocument(serde_json::Value);

/// What serde_json makes of one line of text: `None` when it is not a JSON
/// document, else the document as a [`JsonModel`].
pub uninterp spec fn json_document(line: Seq<char>) -> Option<JsonModel>;

/// serde_json: a parsed `serde_json::Value` as a [`JsonValue`], variant for
/// variant, with each number as `Int` where `Number::as_i64` gives one and as
/// its JSON text (`Number::to_string`) otherwise. It serves
/// [`parse_json_line`] only and claims nothing.
#[verifier::external_body]
fn json_value_from(v: &serde_json::Value) -> JsonValue {
    match v {
        serde_json::Value::Null => JsonValue::Null,
        serde_json::Value::Bool(b) => JsonValue::Bool(*b),
        serde_json::Value::Number(n) => match n.as_i64() {
            Some(i) => JsonValue::Int(i),
            None => JsonValue::OtherNumber(n.to_string()),
        },
        serde_json::Value::String(t) => JsonValue::Str(t.clone()),
        serde_json::Value::Array(items) => JsonValue::Array(items.iter().map(json_value_from).collect()),
        serde_json::Value::Object(map) => JsonValue::Object(
            map.iter().map(|(k, x)| (k.clone(), json_value_from(x))).collect(),
        ),
    }
}

/// serde_json: `from_str::<serde_json::Value>` on one line, converted to a
/// [`JsonValue`]. The contract claims only that the result is
/// `json_document` of the line, `None` exactly when parsing fails.
#[verifier::external_body]
pub(crate) fn parse_json_line(line: &str) -> (r: Option<JsonValue>)
    ensures
        json_document(line@) == match r {
            Some(v) => Some(v@),
            None => None,
        },
{
    match serde_json::from_str::<serde_json::Value>(line) {
        Ok(v) => Some(json_value_from(&v)),
        Err(_) => None,
    }
}

} // verus!
