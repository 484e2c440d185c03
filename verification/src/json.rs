//! JSON values as the library reads and builds them, and the two calls into
//! serde_json that turn text into values and values into text.
use vstd::prelude::*;
use crate::text::{all_digits, chars_of, decimal, decimal_value, parse_decimal, push_decimal, string_from_chars};

verus! {

/// A JSON value. A number keeps the text that denotes it.
#[derive(Debug)]
pub enum JsonValue {
    Null,
    Bool(bool),
    Number(String),
    Str(String),
    Array(Vec<JsonValue>),
    Object(Vec<(String, JsonValue)>),
}

/// The mathematical model of a JSON value.
pub enum Json {
    Null,
    Bool(bool),
    Number(Seq<char>),
    Str(Seq<char>),
    Array(Seq<Json>),
    Object(Seq<(Seq<char>, Json)>),
}

/// The model of a JSON value.
pub open spec fn json_model(v: JsonValue) -> Json
    decreases v,
{
    match v {
        JsonValue::Null => Json::Null,
        JsonValue::Bool(b) => Json::Bool(b),
        JsonValue::Number(t) => Json::Number(t@),
        JsonValue::Str(t) => Json::Str(t@),
        JsonValue::Array(a) => Json::Array(
            Seq::new(
                a@.len(),
                |i: int|
                    if 0 <= i < a@.len() {
                        json_model(a@[i])
                    } else {
                        Json::Null
                    },
            ),
        ),
        JsonValue::Object(m) => Json::Object(
            Seq::new(
                m@.len(),
                |i: int|
                    if 0 <= i < m@.len() {
                        (m@[i].0@, json_model(m@[i].1))
                    } else {
                        (Seq::empty(), Json::Null)
                    },
            ),
        ),
    }
}

impl View for JsonValue {
    type V = Json;

    open spec fn view(&self) -> Json {
        json_model(*self)
    }
}

/// The value of the first entry named `key`.
pub open spec fn lookup(entries: Seq<(Seq<char>, Json)>, key: Seq<char>) -> Option<Json>
    decreases entries.len(),
{
    if entries.len() == 0 {
        None
    } else if entries[0].0 == key {
        Some(entries[0].1)
    } else {
        lookup(entries.drop_first(), key)
    }
}

/// The number a numeral denotes, when it is a plain non-negative integer
/// that fits in a `u64` (what serde_json writes for such a number).
pub open spec fn numeral_u64(t: Seq<char>) -> Option<u64> {
    if t.len() > 0 && all_digits(t) && decimal_value(t) <= u64::MAX {
        Some(decimal_value(t) as u64)
    } else {
        None
    }
}

impl Json {
    /// The member named `key` of an object; nothing for other values.
    pub open spec fn get(self, key: Seq<char>) -> Option<Json> {
        match self {
            Json::Object(entries) => lookup(entries, key),
            _ => None,
        }
    }

    /// The value as a `u64`, for a number that is one.
    pub open spec fn as_u64(self) -> Option<u64> {
        match self {
            Json::Number(t) => numeral_u64(t),
            _ => None,
        }
    }

    /// The text of a JSON string.
    pub open spec fn as_str(self) -> Option<Seq<char>> {
        match self {
            Json::Str(t) => Some(t),
            _ => None,
        }
    }
}

#[verifier::external_type_specification]
#[verifier::external_body]
pub struct ExSerdeJsonValue(serde_json::Value);

/// Name for what `serde_json::from_str::<serde_json::Value>` makes of a
/// text: the value it denotes, or nothing when the text is not JSON.
pub uninterp spec fn json_from_text(text: Seq<char>) -> Option<Json>;

/// Name for the compact text that `serde_json::Value`'s `Display` writes
/// for the serde_json value `to_serde` makes of a value. That value is the
/// same one, variant for variant, except that a number whose text
/// `serde_json::Number::from_str` does not accept is carried as a JSON
/// string of that text; the name covers that case too.
pub uninterp spec fn json_to_text(v: Json) -> Seq<char>;

/// Converts a serde_json value into this library's value, variant for
/// variant; a number keeps the text serde_json writes for it.
#[verifier::external_body]
fn from_serde(v: &serde_json::Value) -> JsonValue {
    match v {
        serde_json::Value::Null => JsonValue::Null,
        serde_json::Value::Bool(b) => JsonValue::Bool(*b),
        serde_json::Value::Number(n) => JsonValue::Number(n.to_string()),
        serde_json::Value::String(s) => JsonValue::Str(s.clone()),
        serde_json::Value::Array(a) => JsonValue::Array(a.iter().map(from_serde).collect()),
        serde_json::Value::Object(m) => JsonValue::Object(
            m.iter().map(|(k, x)| (k.clone(), from_serde(x))).collect(),
        ),
    }
}

/// Converts this library's value into a serde_json value, variant for
/// variant; a number whose text serde_json does not read as a number
/// becomes a JSON string holding that text.
#[verifier::external_body]
fn to_serde(v: &JsonValue) -> serde_json::Value {
    match v {
        JsonValue::Null => serde_json::Value::Null,
        JsonValue::Bool(b) => serde_json::Value::Bool(*b),
        JsonValue::Number(t) => match t.parse::<serde_json::Number>() {
            Ok(n) => serde_json::Value::Number(n),
            Err(_) => serde_json::Value::String(t.clone()),
        },
        JsonValue::Str(s) => serde_json::Value::String(s.clone()),
        JsonValue::Array(a) => serde_json::Value::Array(a.iter().map(to_serde).collect()),
        JsonValue::Object(m) => serde_json::Value::Object(
            m.iter().map(|(k, x)| (k.clone(), to_serde(x))).collect(),
        ),
    }
}

/// Reads JSON text with `serde_json::from_str::<serde_json::Value>`.
/// Claimed: the result is the value `json_from_text` names for the text,
/// and there is a result exactly when that name gives one.
#[verifier::external_body]
pub(crate) fn parse_json(text: &str) -> (r: Option<JsonValue>)
    ensures
        match r {
            Some(v) => json_from_text(text@) == Some(v@),
            None => json_from_text(text@) is None,
        },
{
    match serde_json::from_str::<serde_json::Value>(text) {
        Ok(v) => Some(from_serde(&v)),
        Err(_) => None,
    }
}

/// Writes a value as compact JSON text with `serde_json::Value`'s
/// `Display`. Claimed: the text is the one `json_to_text` names for the value.
#[verifier::external_body]
pub(crate) fn render_json(v: &JsonValue) -> (s: String)
    ensures
        s@ == json_to_text(v@),
{
    to_serde(v).to_string()
}

/// A JSON number holding a `u64`.
pub fn number_u64(n: u64) -> (v: JsonValue)
    ensures
        v@ == Json::Number(decimal(n as nat)),
{
    let mut digits: Vec<char> = Vec::new();
    push_decimal(&mut digits, n);
    proof {
        assert(digits@ =~= decimal(n as nat));
    }
    JsonValue::Number(string_from_chars(&digits))
}

impl JsonValue {
    /// The value as a `u64`, for a number whose text is a plain integer
    /// that fits.
    pub fn as_u64(&self) -> (r: Option<u64>)
        ensures
            r == self@.as_u64(),
    {
        match self {
            JsonValue::Number(t) => {
                proof {
                    assert(self@ == Json::Number(t@));
                }
                let v = chars_of(t.as_str());
                if v.len() == 0 {
                    return None;
                }
                let mut i: usize = 0;
                while i < v.len()
                    invariant
                        i <= v@.len(),
                        self@ == Json::Number(v@),
                        forall|j: int| 0 <= j < i ==> #[trigger] crate::text::is_digit(v@[j]),
                    decreases v@.len() - i,
                {
                    if !('0' <= v[i] && v[i] <= '9') {
                        proof {
                            assert(!crate::text::is_digit(v@[i as int]));
                            assert(!all_digits(v@));
                            assert(numeral_u64(v@) is None);
                            assert(self@.as_u64() is None);
                        }
                        return None;
                    }
                    i = i + 1;
                }
                proof {
                    assert(v@.subrange(0, v@.len() as int) =~= v@);
                }
                parse_decimal(&v, 0, v.len())
            },
            _ => None,
        }
    }

    /// The text of a JSON string value.
    pub fn as_str(&self) -> (r: Option<&String>)
        ensures
            match r {
                Some(s) => self@.as_str() == Some(s@),
                None => self@.as_str() is None,
            },
    {
        match self {
            JsonValue::Str(s) => Some(s),
            _ => None,
        }
    }

    /// The member named `key` of an object value (the first such entry).
    pub fn get(&self, key: &str) -> (r: Option<&JsonValue>)
        ensures
            match r {
                Some(x) => self@.get(key@) == Some(x@),
                None => self@.get(key@) is None,
            },
    {
        match self {
            JsonValue::Object(m) => {
                let k = key.to_owned();
                let ghost e = self@->Object_0;
                proof {
                    assert(self@ == Json::Object(e));
                }
                let mut i: usize = 0;
                proof {
                    assert(e.skip(0) =~= e);
                }
                while i < m.len()
                    invariant
                        i <= m@.len(),
                        k@ == key@,
                        self@ == Json::Object(e),
                        e.len() == m@.len(),
                        forall|j: int| 0 <= j < m@.len() ==> #[trigger] e[j] == (m@[j].0@, json_model(m@[j].1)),
                        lookup(e, key@) == lookup(e.skip(i as int), key@),
                    decreases m@.len() - i,
                {
                    proof {
                        assert(e.skip(i as int).drop_first() =~= e.skip(i + 1));
                        assert(e.skip(i as int)[0] == e[i as int]);
                    }
                    if m[i].0 == k {
                        proof {
                            assert(e[i as int].0 == key@);
                            assert(e.skip(i as int)[0] == e[i as int]);
                            assert(lookup(e.skip(i as int), key@) == Some(e[i as int].1));
                            assert(e[i as int].1 == json_model(m@[i as int].1));
                            assert(self@.get(key@) == lookup(e, key@));
                            assert(json_model(m@[i as int].1) == m[i as int].1@);
                        }
                        return Some(&m[i].1);
                    }
                    i = i + 1;
                }
                None
            },
            _ => None,
        }
    }
}

/// The name and arguments of an event payload `[<name>, <args>...]`.
pub open spec fn event_parts(v: Json) -> Option<(Seq<char>, Json)> {
    match v {
        Json::Array(a) => if a.len() > 0 && a[0] is Str {
            Some((a[0]->Str_0, Json::Array(a.drop_first())))
        } else {
            None
        },
        _ => None,
    }
}

/// Splits an event payload `[<name>, <args>...]` into the name and the
/// array of the remaining arguments.
pub fn split_event(v: JsonValue) -> (r: Option<(String, JsonValue)>)
    ensures
        match r {
            Some((e, args)) => event_parts(v@) == Some((e@, args@)),
            None => event_parts(v@) is None,
        },
{
    match v {
        JsonValue::Array(items) => {
            let ghost a = v@->Array_0;
            proof {
                assert(v@ == Json::Array(a));
                assert(forall|j: int| 0 <= j < a.len() ==> a[j] == json_model(items@[j]));
            }
            if items.len() == 0 {
                return None;
            }
            let is_str = match &items[0] {
                JsonValue::Str(_) => true,
                _ => false,
            };
            if !is_str {
                proof {
                    assert(a[0] == json_model(items@[0]));
                }
                return None;
            }
            let mut items = items;
            let first = items.remove(0);
            match first {
                JsonValue::Str(name) => {
                    let args = JsonValue::Array(items);
                    proof {
                        assert(a[0] == json_model(first));
                        assert(args@->Array_0 =~= a.drop_first());
                    }
                    Some((name, args))
                },
                _ => None,
            }
        },
        _ => None,
    }
}

/// A copy of a JSON value.
pub fn clone_json(v: &JsonValue) -> (r: JsonValue)
    ensures
        r@ == v@,
    decreases v,
{
    match v {
        JsonValue::Array(items) => {
            let mut out: Vec<JsonValue> = Vec::new();
            let mut i: usize = 0;
            while i < items.len()
                invariant
                    i <= items@.len(),
                    *v is Array,
                    (*v)->Array_0 == *items,
                    out@.len() == i,
                    forall|j: int| 0 <= j < i ==> #[trigger] json_model(out@[j]) == json_model(items@[j]),
                decreases items@.len() - i,
            {
                proof {
                    assert(decreases_to!(*v => (*v)->Array_0));
                    assert(decreases_to!((*v)->Array_0 => (*v)->Array_0@));
                    assert(decreases_to!((*v)->Array_0@ => (*v)->Array_0@[i as int]));
                }
                let x = clone_json(&items[i]);
                out.push(x);
                i = i + 1;
            }
            let r = JsonValue::Array(out);
            proof {
                let a = v@->Array_0;
                assert(v@ == Json::Array(a));
                assert(forall|j: int| 0 <= j < a.len() ==> a[j] == json_model(items@[j]));
                assert forall|j: int| 0 <= j < a.len() implies r@->Array_0[j] == a[j] by {
                    assert(r@->Array_0[j] == json_model(out@[j]));
                }
                assert(r@->Array_0 =~= a);
            }
            r
        },
        JsonValue::Object(entries) => {
            let mut out: Vec<(String, JsonValue)> = Vec::new();
            let mut i: usize = 0;
            while i < entries.len()
                invariant
                    i <= entries@.len(),
                    *v is Object,
                    (*v)->Object_0 == *entries,
                    out@.len() == i,
                    forall|j: int| 0 <= j < i ==> #[trigger] out@[j].0@ == entries@[j].0@,
                    forall|j: int| 0 <= j < i ==> #[trigger] json_model(out@[j].1) == json_model(entries@[j].1),
                decreases entries@.len() - i,
            {
                proof {
                    assert(decreases_to!(*v => (*v)->Object_0));
                    assert(decreases_to!((*v)->Object_0 => (*v)->Object_0@));
                    assert(decreases_to!((*v)->Object_0@ => (*v)->Object_0@[i as int]));
                    assert(decreases_to!((*v)->Object_0@[i as int] => (*v)->Object_0@[i as int].1));
                }
                let x = clone_json(&entries[i].1);
                out.push((entries[i].0.clone(), x));
                i = i + 1;
            }
            let r = JsonValue::Object(out);
            proof {
                let e = v@->Object_0;
                assert(v@ == Json::Object(e));
                assert(forall|j: int| 0 <= j < e.len() ==> e[j] == (entries@[j].0@, json_model(entries@[j].1)));
                assert forall|j: int| 0 <= j < e.len() implies r@->Object_0[j] == e[j] by {
                    assert(r@->Object_0[j] == (out@[j].0@, json_model(out@[j].1)));
                }
                assert(r@->Object_0 =~= e);
            }
            r
        },
        JsonValue::Null => JsonValue::Null,
        JsonValue::Bool(b) => JsonValue::Bool(*b),
        JsonValue::Number(t) => JsonValue::Number(t.clone()),
        JsonValue::Str(s) => JsonValue::Str(s.clone()),
    }
}

} // verus!
