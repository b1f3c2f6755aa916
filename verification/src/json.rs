//! A JSON document as the library reads it.
use vstd::prelude::*;
use crate::text::{chars_eq, chars_of};

verus! {

/// A JSON number, kept only as far as the library reads it.
#[derive(Debug)]
pub enum JsonNumber {
    /// A non-negative integer.
    PosInt(u64),
    /// A negative integer.
    NegInt(i64),
    /// Any other number (with a fraction or an exponent).
    NonInteger,
}

/// A JSON value. Object members keep their order; keys are unique.
#[derive(Debug)]
pub enum JsonValue {
    Null,
    Bool(bool),
    Number(JsonNumber),
    String(String),
    Array(Vec<JsonValue>),
    Object(Vec<(String, JsonValue)>),
}

impl JsonValue {
    /// The element at `i` when `self` is an array that long.
    pub open spec fn spec_at(self, i: int) -> Option<JsonValue> {
        match self {
            JsonValue::Array(v) => if 0 <= i < v@.len() { Some(v@[i]) } else { None },
            _ => None,
        }
    }

    /// The text of a string value.
    pub open spec fn spec_str(self) -> Option<Seq<char>> {
        match self {
            JsonValue::String(s) => Some(s@),
            _ => None,
        }
    }

    /// The elements of an array value.
    pub open spec fn spec_array(self) -> Option<Seq<JsonValue>> {
        match self {
            JsonValue::Array(v) => Some(v@),
            _ => None,
        }
    }

    /// The value of a non-negative integer.
    pub open spec fn spec_u64(self) -> Option<u64> {
        match self {
            JsonValue::Number(JsonNumber::PosInt(n)) => Some(n),
            _ => None,
        }
    }

    /// The value of the first member named `key` of an object.
    pub open spec fn spec_field(self, key: Seq<char>) -> Option<JsonValue> {
        match self {
            JsonValue::Object(members) => field_in(members@, key, 0),
            _ => None,
        }
    }

    /// The string at index `i` of an array (the JSON text `v[i]` read as a string).
    pub open spec fn spec_str_at(self, i: int) -> Option<Seq<char>> {
        match self.spec_at(i) {
            Some(e) => e.spec_str(),
            None => None,
        }
    }

    /// Element `i` of an array.
    pub fn get(&self, i: usize) -> (r: Option<&JsonValue>)
        ensures
            r == (match self.spec_at(i as int) { Some(e) => Some(&e), None => None::<&JsonValue> }),
    {
        match self {
            JsonValue::Array(v) => if i < v.len() { Some(&v[i]) } else { None },
            _ => None,
        }
    }

    /// The text of a string value.
    pub fn as_str(&self) -> (r: Option<&String>)
        ensures
            match r {
                Some(s) => self.spec_str() == Some(s@),
                None => self.spec_str() is None,
            },
    {
        match self {
            JsonValue::String(s) => Some(s),
            _ => None,
        }
    }

    /// The elements of an array value.
    pub fn as_array(&self) -> (r: Option<&Vec<JsonValue>>)
        ensures
            match r {
                Some(v) => self.spec_array() == Some(v@),
                None => self.spec_array() is None,
            },
    {
        match self {
            JsonValue::Array(v) => Some(v),
            _ => None,
        }
    }

    /// The value of a non-negative integer.
    pub fn as_u64(&self) -> (r: Option<u64>)
        ensures
            r == self.spec_u64(),
    {
        match self {
            JsonValue::Number(JsonNumber::PosInt(n)) => Some(*n),
            _ => None,
        }
    }

    /// The value of the member named `key` of an object.
    pub fn get_field(&self, key: &str) -> (r: Option<&JsonValue>)
        ensures
            r == (match self.spec_field(key@) { Some(e) => Some(&e), None => None::<&JsonValue> }),
    {
        match self {
            JsonValue::Object(members) => {
                let k = chars_of(key);
                let mut i: usize = 0;
                while i < members.len()
                    invariant
                        i <= members.len(),
                        k@ == key@,
                        field_in(members@, key@, i as int) == field_in(members@, key@, 0),
                        self.spec_field(key@) == field_in(members@, key@, 0),
                    decreases members.len() - i,
                {
                    let name = chars_of(members[i].0.as_str());
                    if chars_eq(name.as_slice(), k.as_slice()) {
                        assert(members@[i as int].0@ == key@);
                        return Some(&members[i].1);
                    }
                    i = i + 1;
                }
                None
            },
            _ => None,
        }
    }
}

/// The value of the first member at or after `from` whose name is `key`.
pub open spec fn field_in(members: Seq<(String, JsonValue)>, key: Seq<char>, from: int) -> Option<JsonValue>
    decreases members.len() - from,
{
    if from < 0 || from >= members.len() {
        None
    } else if members[from].0@ == key {
        Some(members[from].1)
    } else {
        field_in(members, key, from + 1)
    }
}


#[verifier::external_type_specification]
#[verifier::external_body]
pub struct ExSerdeJsonValue(serde_json::Value);

/// Converts a `serde_json::Value` into a `JsonValue`, variant by variant (a
/// number becomes `PosInt` when it is a `u64`, else `NegInt` when it is an
/// `i64`, else `NonInteger`); object members keep the map's order. Nothing is
/// stated of the result: it is only ever seen through `json_parsed` and
/// `json_first_value`.
#[verifier::external_body]
fn json_from_serde(v: serde_json::Value) -> JsonValue {
    match v {
        serde_json::Value::Null => JsonValue::Null,
        serde_json::Value::Bool(b) => JsonValue::Bool(b),
        serde_json::Value::Number(n) => JsonValue::Number(match (n.as_u64(), n.as_i64()) {
            (Some(u), _) => JsonNumber::PosInt(u),
            (None, Some(i)) => JsonNumber::NegInt(i),
            (None, None) => JsonNumber::NonInteger,
        }),
        serde_json::Value::String(s) => JsonValue::String(s),
        serde_json::Value::Array(a) => JsonValue::Array(a.into_iter().map(json_from_serde).collect()),
        serde_json::Value::Object(m) => JsonValue::Object(m.into_iter().map(|(k, x)| (k, json_from_serde(x))).collect()),
    }
}

/// What `serde_json::from_str` reads from `text`: the value, when `text` is
/// exactly one JSON value (surrounding whitespace aside), else the text of
/// serde_json's error (its message and the line and column where it arose).
pub uninterp spec fn json_parsed(text: Seq<char>) -> Result<JsonValue, Seq<char>>;

/// `serde_json::from_str::<serde_json::Value>(text)`, converted to a
/// `JsonValue`, or the error's text. The JSON grammar is not restated: the
/// contract names the result `json_parsed(text)`, which depends on the text alone.
#[verifier::external_body]
pub(crate) fn parse_json(text: &str) -> (r: Result<JsonValue, String>)
    ensures
        match (r, json_parsed(text@)) {
            (Ok(v), Ok(w)) => v == w,
            (Err(m), Err(n)) => m@ == n,
            _ => false,
        },
{
    match serde_json::from_str::<serde_json::Value>(text) {
        Ok(v) => Ok(json_from_serde(v)),
        Err(e) => Err(e.to_string()),
    }
}

/// What a `serde_json` stream deserializer over `text` gives first: nothing
/// when only whitespace is left; the error's text when the next value does not
/// parse; else that value and the text after it.
pub uninterp spec fn json_first_value(text: Seq<char>) -> Option<Result<(JsonValue, Seq<char>), Seq<char>>>;

/// `serde_json::Deserializer::from_str(text).into_iter::<serde_json::Value>()`,
/// its first `next()`, and the text from its `byte_offset()` on. The grammar
/// is not restated: the result is named `json_first_value(text)`. The text left
/// after a value is the end of `text` and shorter than it, since a parsed value
/// takes at least one character.
#[verifier::external_body]
pub(crate) fn parse_first_json(text: &str) -> (r: Option<Result<(JsonValue, String), String>>)
    ensures
        match (r, json_first_value(text@)) {
            (None, None) => true,
            (Some(Ok((v, rest))), Some(Ok((w, t)))) => v == w && rest@ == t,
            (Some(Err(m)), Some(Err(n))) => m@ == n,
            _ => false,
        },
        r matches Some(Ok((_, rest))) ==> rest@.len() < text@.len() && rest@ == text@.skip(text@.len() - rest@.len()),
{
    let mut stream = serde_json::Deserializer::from_str(text).into_iter::<serde_json::Value>();
    match stream.next() {
        None => None,
        Some(Err(e)) => Some(Err(e.to_string())),
        Some(Ok(v)) => Some(Ok((json_from_serde(v), text[stream.byte_offset()..].to_string()))),
    }
}

}
