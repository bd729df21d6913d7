//! JSON values as the gateway reads them: client payloads and published
//! documents. Numbers keep their text and, when they are whole and fit, their
//! value as an `i64`.

use vstd::prelude::*;
use vstd::string::StringExecFns;
use crate::dash::string_views;

verus! {

/// A JSON number: its text, and its value when it is a whole number that fits an `i64`.
pub struct JsonNumber {
    pub text: String,
    pub int: Option<i64>,
}

/// A JSON value; an object keeps its entries in order, each key once.
pub enum JsonValue {
    Null,
    Bool(bool),
    Number(JsonNumber),
    Str(String),
    Array(Vec<JsonValue>),
    Object(Vec<(String, JsonValue)>),
}

/// The texts of the string items of a sequence of values, in order.
pub open spec fn string_items(items: Seq<JsonValue>) -> Seq<Seq<char>>
    decreases items.len(),
{
    if items.len() == 0 {
        seq![]
    } else {
        let rest = string_items(items.drop_last());
        match items.last() {
            JsonValue::Str(s) => rest.push(s@),
            _ => rest,
        }
    }
}

/// The string items of an array; nothing for any other value.
pub open spec fn string_vec_of(v: JsonValue) -> Option<Seq<Seq<char>>> {
    match v {
        JsonValue::Array(items) => Some(string_items(items@)),
        _ => None,
    }
}

/// The value stored under `key` in the entries of an object, if any (the first one).
pub open spec fn entry_value(entries: Seq<(String, JsonValue)>, key: Seq<char>) -> Option<JsonValue>
    decreases entries.len(),
{
    if entries.len() == 0 {
        None
    } else if entries[0].0@ == key {
        Some(entries[0].1)
    } else {
        entry_value(entries.drop_first(), key)
    }
}

/// The value as an `i64`, when it is a whole number that fits one.
pub open spec fn int_of(v: JsonValue) -> Option<i64> {
    match v {
        JsonValue::Number(n) => n.int,
        _ => None,
    }
}

/// Following `keys` down from `v`: an object gives the value under the key, any
/// other value gives null. `None` where an object lacks a key.
pub open spec fn descend(v: JsonValue, keys: Seq<Seq<char>>) -> Option<JsonValue>
    decreases keys.len(),
{
    if keys.len() == 0 {
        Some(v)
    } else {
        let next = match v {
            JsonValue::Object(entries) => entry_value(entries@, keys[0]),
            _ => Some(JsonValue::Null),
        };
        match next {
            Some(w) => descend(w, keys.drop_first()),
            None => None,
        }
    }
}

/// Reading the string items of an array, borrowed.
pub trait IntoStrVec {
    fn into_str_vec(&self) -> Option<Vec<&str>>;
}

/// Reading the string items of an array, copied.
pub trait IntoStringVec {
    fn into_string_vec(&self) -> Option<Vec<String>>;
}

impl IntoStrVec for JsonValue {
    fn into_str_vec(&self) -> (items: Option<Vec<&str>>)
        ensures
            match items {
                Some(v) => string_vec_of(*self) == Some(v@.map_values(|s: &str| s@)),
                None => string_vec_of(*self) is None,
            },
    {
        match self {
            JsonValue::Array(values) => {
                let mut out: Vec<&str> = Vec::new();
                let mut i: usize = 0;
                while i < values.len()
                    invariant
                        i <= values@.len(),
                        out@.map_values(|s: &str| s@) == string_items(values@.take(i as int)),
                    decreases values@.len() - i,
                {
                    assert(values@.take(i + 1).drop_last() =~= values@.take(i as int));
                    match &values[i] {
                        JsonValue::Str(s) => {
                            let ghost before = out@;
                            out.push(s.as_str());
                            assert(out@.map_values(|s: &str| s@) =~= before.map_values(|s: &str| s@).push(
                                s@,
                            ));
                        },
                        _ => {},
                    }
                    i = i + 1;
                }
                assert(values@.take(values@.len() as int) =~= values@);
                Some(out)
            },
            _ => None,
        }
    }
}

impl IntoStringVec for JsonValue {
    fn into_string_vec(&self) -> (items: Option<Vec<String>>)
        ensures
            match items {
                Some(v) => string_vec_of(*self) == Some(string_views(v@)),
                None => string_vec_of(*self) is None,
            },
    {
        match self.into_str_vec() {
            Some(strs) => {
                let mut out: Vec<String> = Vec::new();
                let mut i: usize = 0;
                while i < strs.len()
                    invariant
                        i <= strs@.len(),
                        string_views(out@) == strs@.map_values(|s: &str| s@).take(i as int),
                    decreases strs@.len() - i,
                {
                    let ghost before = out@;
                    let owned = String::from_str(strs[i]);
                    out.push(owned);
                    assert(string_views(out@) =~= string_views(before).push(strs@[i as int]@));
                    assert(string_views(out@) =~= strs@.map_values(|s: &str| s@).take(i + 1));
                    i = i + 1;
                }
                assert(strs@.map_values(|s: &str| s@).take(strs@.len() as int) =~= strs@.map_values(
                    |s: &str| s@,
                ));
                Some(out)
            },
            None => None,
        }
    }
}

/// The value stored under `key` in the entries of an object, if any.
pub fn object_get<'a>(entries: &'a Vec<(String, JsonValue)>, key: &str) -> (found: Option<&'a JsonValue>)
    ensures
        match found {
            Some(v) => entry_value(entries@, key@) == Some(*v),
            None => entry_value(entries@, key@) is None,
        },
{
    let wanted = String::from_str(key);
    let mut i: usize = 0;
    assert(entries@.skip(0) =~= entries@);
    while i < entries.len()
        invariant
            i <= entries@.len(),
            wanted@ == key@,
            entry_value(entries@, key@) == entry_value(entries@.skip(i as int), key@),
        decreases entries@.len() - i,
    {
        assert(entries@.skip(i as int).drop_first() =~= entries@.skip(i + 1));
        assert(entries@.skip(i as int)[0] == entries@[i as int]);
        if entries[i].0 == wanted {
            return Some(&entries[i].1);
        }
        i = i + 1;
    }
    None
}

/// The value as an `i64`, when it is a whole number that fits one.
pub fn as_i64(v: &JsonValue) -> (n: Option<i64>)
    ensures
        n == int_of(*v),
{
    match v {
        JsonValue::Number(num) => num.int,
        _ => None,
    }
}

/// serde_json's own JSON value, which the library reads through the wrappers below.
#[verifier::external_type_specification]
#[verifier::external_body]
pub struct ExSerdeValue(serde_json::Value);

/// What `serde_json::from_str::<Option<serde_json::Value>>` reads from a text,
/// node for node: `None` when the text is not JSON, `Some(None)` for `null`,
/// and otherwise the value.
pub uninterp spec fn parsed_json(text: Seq<char>) -> Option<Option<JsonValue>>;

/// The text that serde_json writes (through `Display` for `serde_json::Value`) for a value.
pub uninterp spec fn json_text(v: JsonValue) -> Seq<char>;

/// A serde_json value as the library's value, node for node: a number keeps
/// its text and, when it is a whole `i64`, that value. Nothing is claimed of it
/// on its own; `parse_json` names what it gives for a text.
#[verifier::external_body]
fn json_of_serde(v: &serde_json::Value) -> JsonValue {
    match v {
        serde_json::Value::Null => JsonValue::Null,
        serde_json::Value::Bool(b) => JsonValue::Bool(*b),
        serde_json::Value::Number(n) => JsonValue::Number(JsonNumber { text: n.to_string(), int: n.as_i64() }),
        serde_json::Value::String(s) => JsonValue::Str(s.clone()),
        serde_json::Value::Array(items) => JsonValue::Array(items.iter().map(json_of_serde).collect()),
        serde_json::Value::Object(m) => JsonValue::Object(m.iter().map(|(k, x)| (k.clone(), json_of_serde(x))).collect()),
    }
}

/// The library's value as a serde_json value, node for node: a number is read
/// back from its text (`null` should that text not be a JSON number). Nothing
/// is claimed of it on its own; `to_json_text` names the text it leads to.
#[verifier::external_body]
fn serde_of_json(v: &JsonValue) -> serde_json::Value {
    match v {
        JsonValue::Null => serde_json::Value::Null,
        JsonValue::Bool(b) => serde_json::Value::Bool(*b),
        JsonValue::Number(n) => match n.text.parse::<serde_json::Number>() {
            Ok(x) => serde_json::Value::Number(x),
            Err(_) => serde_json::Value::Null,
        },
        JsonValue::Str(s) => serde_json::Value::String(s.clone()),
        JsonValue::Array(items) => serde_json::Value::Array(items.iter().map(serde_of_json).collect()),
        JsonValue::Object(e) => serde_json::Value::Object(e.iter().map(|(k, x)| (k.clone(), serde_of_json(x))).collect()),
    }
}

/// Reads `text` with `serde_json::from_str::<Option<serde_json::Value>>`. The
/// contract claims only that the result is a function of the text, named
/// `parsed_json`; which texts are JSON and what they hold is serde_json's.
#[verifier::external_body]
pub(crate) fn parse_json(text: &String) -> (parsed: Option<Option<JsonValue>>)
    ensures
        parsed == parsed_json(text@),
{
    match serde_json::from_str::<Option<serde_json::Value>>(text) {
        Ok(Some(v)) => Some(Some(json_of_serde(&v))),
        Ok(None) => Some(None),
        Err(_) => None,
    }
}

/// Writes a value as JSON text with `serde_json::Value`'s `Display`. The
/// contract claims only that the text is a function of the value, named `json_text`.
#[verifier::external_body]
pub(crate) fn to_json_text(v: &JsonValue) -> (text: String)
    ensures
        text@ == json_text(*v),
{
    serde_of_json(v).to_string()
}

/// The JSON value a text holds; `None` when the text is not JSON or is `null`.
pub fn message_value(text: &String) -> (value: Option<JsonValue>)
    ensures
        value == (match parsed_json(text@) {
            Some(Some(v)) => Some(v),
            _ => None::<JsonValue>,
        }),
{
    match parse_json(text) {
        Some(Some(v)) => Some(v),
        _ => None,
    }
}

/// The entries of a text that holds a JSON object; `None` for any other text.
pub fn message_object(text: &String) -> (entries: Option<Vec<(String, JsonValue)>>)
    ensures
        entries == (match parsed_json(text@) {
            Some(Some(JsonValue::Object(e))) => Some(e),
            _ => None::<Vec<(String, JsonValue)>>,
        }),
{
    match parse_json(text) {
        Some(Some(JsonValue::Object(e))) => Some(e),
        _ => None,
    }
}

} // verus!
