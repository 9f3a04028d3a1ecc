//! JSON documents, as far as class generation reads them.
use vstd::prelude::*;

verus! {

/// A JSON value.
///
/// A number holds what decides its type: whether it is kept as a 64-bit
/// signed integer, and whether it is kept as a double. An object holds
/// its entries in the order in which they are read; where a key occurs
/// more than once, the object has it once, at the place of its first
/// occurrence and with the value of its last.
#[derive(Debug)]
pub enum JsonValue {
    Null,
    Boolean(bool),
    Number { is_i64: bool, is_f64: bool },
    Text(String),
    Array(Vec<JsonValue>),
    Object(Vec<(String, JsonValue)>),
}

/// A JSON value, as contracts speak of it.
pub ghost enum Json {
    Null,
    Boolean(bool),
    Number { is_i64: bool, is_f64: bool },
    Text(Seq<char>),
    Array(Seq<Json>),
    Object(Seq<(Seq<char>, Json)>),
}

/// The value as contracts speak of it.
pub open spec fn value_model(value: JsonValue) -> Json
    decreases value, 0nat,
{
    match value {
        JsonValue::Null => Json::Null,
        JsonValue::Boolean(b) => Json::Boolean(b),
        JsonValue::Number { is_i64, is_f64 } => Json::Number { is_i64, is_f64 },
        JsonValue::Text(s) => Json::Text(s@),
        JsonValue::Array(items) => Json::Array(
            Seq::new(
                items@.len(),
                |i: int|
                    if 0 <= i < items@.len() {
                        value_model(items@[i])
                    } else {
                        Json::Null
                    },
            ),
        ),
        JsonValue::Object(entries) => Json::Object(
            Seq::new(
                entries@.len(),
                |i: int|
                    if 0 <= i < entries@.len() {
                        entry_model(entries@[i])
                    } else {
                        (Seq::<char>::empty(), Json::Null)
                    },
            ),
        ),
    }
}

/// The entry of an object as contracts speak of it: its key and value.
pub open spec fn entry_model(entry: (String, JsonValue)) -> (Seq<char>, Json)
    decreases entry, 1nat,
{
    (entry.0@, value_model(entry.1))
}

impl View for JsonValue {
    type V = Json;

    open spec fn view(&self) -> Json {
        value_model(*self)
    }
}

/// The items of an array, as contracts speak of them.
pub open spec fn item_models(items: Seq<JsonValue>) -> Seq<Json> {
    Seq::new(items.len(), |i: int| items[i]@)
}

/// The entries of an object, as contracts speak of them.
pub open spec fn entry_models(entries: Seq<(String, JsonValue)>) -> Seq<(Seq<char>, Json)> {
    Seq::new(entries.len(), |i: int| (entries[i].0@, entries[i].1@))
}

/// An array is viewed item by item.
pub proof fn lemma_array_view(items: Vec<JsonValue>)
    ensures
        JsonValue::Array(items)@ == Json::Array(item_models(items@)),
{
    assert(JsonValue::Array(items)@->Array_0 =~= item_models(items@));
}

/// An object is viewed entry by entry.
pub proof fn lemma_object_view(entries: Vec<(String, JsonValue)>)
    ensures
        JsonValue::Object(entries)@ == Json::Object(entry_models(entries@)),
{
    let viewed = JsonValue::Object(entries)@->Object_0;
    let models = entry_models(entries@);
    assert forall|i: int| 0 <= i < entries@.len() implies viewed[i] == models[i] by {
        assert(viewed[i] == entry_model(entries@[i]));
    }
    assert(viewed =~= models);
}

/// A decoded JSON value of `serde_json`.
#[verifier::external_type_specification]
#[verifier::external_body]
pub struct ExValue(serde_json::Value);

/// The error with which `serde_json` refuses a text.
#[verifier::external_type_specification]
#[verifier::external_body]
pub struct ExError(serde_json::Error);

/// The JSON document that `serde_json` reads a text as, if it reads it as
/// one.
pub uninterp spec fn decoded_text(text: Seq<char>) -> Option<Json>;

/// What a value decoded by `serde_json` holds.
pub uninterp spec fn decoded_value(value: serde_json::Value) -> Json;

/// `serde_json::from_str`, asked for a `serde_json::Value`: decodes the
/// text, or refuses it. Whether it decodes and what the value holds
/// depends on the text alone.
#[verifier::external_body]
pub(crate) fn decode(text: &str) -> (out: Result<serde_json::Value, serde_json::Error>)
    ensures
        match out {
            Ok(value) => decoded_text(text@) == Some(decoded_value(value)),
            Err(_) => decoded_text(text@) is None,
        },
{
    serde_json::from_str::<serde_json::Value>(text)
}

/// Copies what a `serde_json::Value` holds, variant by variant. Of a
/// number it takes `Number::is_i64` and `Number::is_f64`; of an object
/// its entries in the order in which `Map::iter` gives them. The copy
/// depends on the value alone; the library refers to what it holds as
/// `decoded_value`.
#[verifier::external_body]
pub(crate) fn to_json_value(value: &serde_json::Value) -> (out: JsonValue)
    ensures
        out@ == decoded_value(*value),
{
    match value {
        serde_json::Value::Null => JsonValue::Null,
        serde_json::Value::Bool(b) => JsonValue::Boolean(*b),
        serde_json::Value::Number(n) => JsonValue::Number {
            is_i64: n.is_i64(),
            is_f64: n.is_f64(),
        },
        serde_json::Value::String(s) => JsonValue::Text(s.clone()),
        serde_json::Value::Array(a) => JsonValue::Array(a.iter().map(to_json_value).collect()),
        serde_json::Value::Object(o) => JsonValue::Object(
            o.iter().map(|(k, v)| (k.clone(), to_json_value(v))).collect(),
        ),
    }
}

} // verus!
