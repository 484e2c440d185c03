//! Events with binary attachments: placeholders in the JSON payload, and
//! their replacement by the attachments once these have arrived.
use vstd::prelude::*;
use crate::binary::{base64_text, encode_base64};
use crate::json::{json_model, lookup, Json, JsonValue};

verus! {

/// The attachment a placeholder object `{"_placeholder": true, "num": k}`
/// stands for, when `k` names one of `count` attachments.
pub open spec fn placeholder_index(v: Json, count: nat) -> Option<nat> {
    match v {
        Json::Object(e) => {
            if lookup(e, "_placeholder"@) == Some(Json::Bool(true)) {
                match lookup(e, "num"@) {
                    Some(n) => match n.as_u64() {
                        Some(k) => if k < count {
                            Some(k as nat)
                        } else {
                            None
                        },
                        None => None,
                    },
                    None => None,
                }
            } else {
                None
            }
        },
        _ => None,
    }
}

/// The object that takes the place of a placeholder: `{"binary": <base64>}`.
pub open spec fn binary_object(bytes: Seq<u8>) -> Json {
    Json::Object(seq![("binary"@, Json::Str(base64_text(bytes)))])
}

/// `v` with every placeholder that names an attachment replaced by that
/// attachment as `{"binary": <base64>}`; other values are searched through
/// arrays and object members.
pub open spec fn substituted(v: Json, atts: Seq<Seq<u8>>) -> Json
    decreases v,
{
    match placeholder_index(v, atts.len()) {
        Some(k) => binary_object(atts[k as int]),
        None => match v {
            Json::Array(a) => Json::Array(
                Seq::new(
                    a.len(),
                    |i: int|
                        if 0 <= i < a.len() {
                            substituted(a[i], atts)
                        } else {
                            Json::Null
                        },
                ),
            ),
            Json::Object(e) => Json::Object(
                Seq::new(
                    e.len(),
                    |i: int|
                        if 0 <= i < e.len() {
                            (e[i].0, substituted(e[i].1, atts))
                        } else {
                            (Seq::empty(), Json::Null)
                        },
                ),
            ),
            _ => v,
        },
    }
}

/// Attachments whose base64 text has a length that fits in a `usize`.
pub open spec fn attachments_encodable(atts: Seq<Vec<u8>>) -> bool {
    forall|i: int| 0 <= i < atts.len() ==> (#[trigger] atts[i])@.len() / 3 * 4 + 4 <= usize::MAX
}

/// The attachment index of a placeholder object, if `v` is one.
pub fn placeholder_of(v: &JsonValue, count: usize) -> (r: Option<usize>)
    ensures
        match r {
            Some(k) => placeholder_index(v@, count as nat) == Some(k as nat),
            None => placeholder_index(v@, count as nat) is None,
        },
{
    match v {
        JsonValue::Object(_) => {
            let flag = v.get("_placeholder");
            let is_flag = match flag {
                Some(JsonValue::Bool(b)) => *b,
                _ => false,
            };
            if !is_flag {
                return None;
            }
            match v.get("num") {
                Some(n) => match n.as_u64() {
                    Some(k) => {
                        if k < count as u64 {
                            Some(k as usize)
                        } else {
                            None
                        }
                    },
                    None => None,
                },
                None => None,
            }
        },
        _ => None,
    }
}

/// Replaces the placeholders of `v` by the attachments they name, as
/// `{"binary": <base64>}` objects.
pub fn substitute_placeholders(v: &JsonValue, atts: &Vec<Vec<u8>>) -> (r: JsonValue)
    requires
        attachments_encodable(atts@),
    ensures
        r@ == substituted(v@, atts.deep_view()),
    decreases v,
{
    match placeholder_of(v, atts.len()) {
        Some(k) => {
            let enc = encode_base64(atts[k].as_slice());
            let key = "binary".to_owned();
            let item = JsonValue::Str(enc);
            proof {
                assert(json_model(item) == Json::Str(enc@));
            }
            let mut entries: Vec<(String, JsonValue)> = Vec::new();
            entries.push((key, item));
            let r = JsonValue::Object(entries);
            proof {
                assert(atts.deep_view()[k as int] == atts@[k as int]@);
                assert(entries@[0] == (key, item));
                assert(r@->Object_0.len() == 1);
                assert(r@->Object_0[0] == (entries@[0].0@, json_model(entries@[0].1)));
                assert(r@->Object_0 =~= seq![("binary"@, Json::Str(base64_text(atts@[k as int]@)))]);
            }
            r
        },
        None => match v {
            JsonValue::Array(items) => {
                let mut out: Vec<JsonValue> = Vec::new();
                let mut i: usize = 0;
                while i < items.len()
                    invariant
                        i <= items@.len(),
                        *v is Array,
                        (*v)->Array_0 == *items,
                        out@.len() == i,
                        attachments_encodable(atts@),
                        forall|j: int| 0 <= j < i ==> #[trigger] json_model(out@[j]) == substituted(json_model(items@[j]), atts.deep_view()),
                    decreases items@.len() - i,
                {
                    proof {
                        assert((*v)->Array_0 == *items);
                        assert(decreases_to!(*v => (*v)->Array_0));
                        assert(decreases_to!((*v)->Array_0 => (*v)->Array_0@));
                        assert(decreases_to!((*v)->Array_0@ => (*v)->Array_0@[i as int]));
                    }
                    let x = substitute_placeholders(&items[i], atts);
                    out.push(x);
                    i = i + 1;
                }
                let r = JsonValue::Array(out);
                proof {
                    let a = v@->Array_0;
                    assert(v@ == Json::Array(a));
                    assert(a.len() == items@.len());
                    assert(forall|j: int| 0 <= j < a.len() ==> a[j] == json_model(items@[j]));
                    let sa = substituted(v@, atts.deep_view())->Array_0;
                    assert(sa.len() == a.len());
                    assert forall|j: int| 0 <= j < a.len() implies r@->Array_0[j] == sa[j] by {
                        assert(r@->Array_0[j] == json_model(out@[j]));
                        assert(sa[j] == substituted(a[j], atts.deep_view()));
                    }
                    assert(r@->Array_0 =~= sa);
                }
                r
            },
            JsonValue::Object(entries) => {
                let mut out: Vec<(String, JsonValue)> = Vec::new();
                let mut i: usize = 0;
                while i < entries.len()
                    invariant
                        i <= entries@.len(),
                        *v is Object,
                        (*v)->Object_0 == *entries,
                        out@.len() == i,
                        attachments_encodable(atts@),
                        forall|j: int| 0 <= j < i ==> #[trigger] out@[j].0@ == entries@[j].0@,
                        forall|j: int| 0 <= j < i ==> #[trigger] json_model(out@[j].1) == substituted(json_model(entries@[j].1), atts.deep_view()),
                    decreases entries@.len() - i,
                {
                    proof {
                        assert((*v)->Object_0 == *entries);
                        assert(decreases_to!(*v => (*v)->Object_0));
                        assert(decreases_to!((*v)->Object_0 => (*v)->Object_0@));
                        assert(decreases_to!((*v)->Object_0@ => (*v)->Object_0@[i as int]));
                        assert(decreases_to!((*v)->Object_0@[i as int] => (*v)->Object_0@[i as int].1));
                    }
                    let x = substitute_placeholders(&entries[i].1, atts);
                    out.push((entries[i].0.clone(), x));
                    i = i + 1;
                }
                let r = JsonValue::Object(out);
                proof {
                    let e = v@->Object_0;
                    assert(v@ == Json::Object(e));
                    assert(e.len() == entries@.len());
                    assert(forall|j: int| 0 <= j < e.len() ==> e[j] == (entries@[j].0@, json_model(entries@[j].1)));
                    let se = substituted(v@, atts.deep_view())->Object_0;
                    assert(se.len() == e.len());
                    assert forall|j: int| 0 <= j < e.len() implies r@->Object_0[j] == se[j] by {
                        assert(r@->Object_0[j] == (out@[j].0@, json_model(out@[j].1)));
                        assert(se[j] == (e[j].0, substituted(e[j].1, atts.deep_view())));
                    }
                    assert(r@->Object_0 =~= se);
                }
                r
            },
            JsonValue::Null => JsonValue::Null,
            JsonValue::Bool(b) => JsonValue::Bool(*b),
            JsonValue::Number(t) => JsonValue::Number(t.clone()),
            JsonValue::Str(s) => JsonValue::Str(s.clone()),
        },
    }
}

/// A JSON value holding no object marked `"_placeholder": true`, at any depth.
pub open spec fn flag_free(v: Json) -> bool
    decreases v,
{
    match v {
        Json::Array(a) => forall|i: int| 0 <= i < a.len() ==> flag_free(#[trigger] a[i]),
        Json::Object(e) => lookup(e, "_placeholder"@) != Some(Json::Bool(true)) && forall|i: int|
            0 <= i < e.len() ==> flag_free(#[trigger] e[i].1),
        _ => true,
    }
}

/// Law: an object is a placeholder only when it is marked
/// `"_placeholder": true`; any other object (a user's object with a `num`
/// member, say) is not one, whatever the number of attachments.
pub proof fn law_placeholder_needs_flag(e: Seq<(Seq<char>, Json)>, count: nat)
    requires
        lookup(e, "_placeholder"@) != Some(Json::Bool(true)),
    ensures
        placeholder_index(Json::Object(e), count) is None,
{
}

/// Law: substituting attachments leaves a value that holds no placeholder
/// object as it is.
pub proof fn law_substitution_keeps_plain_values(v: Json, atts: Seq<Seq<u8>>)
    requires
        flag_free(v),
    ensures
        substituted(v, atts) == v,
    decreases v,
{
    match v {
        Json::Array(a) => {
            assert forall|i: int| 0 <= i < a.len() implies substituted(a[i], atts) == a[i] by {
                assert(flag_free(a[i]));
                law_substitution_keeps_plain_values(a[i], atts);
            }
            assert(substituted(v, atts)->Array_0 =~= a);
        },
        Json::Object(e) => {
            assert forall|i: int| 0 <= i < e.len() implies substituted(e[i].1, atts) == e[i].1 by {
                assert(flag_free(e[i].1));
                law_substitution_keeps_plain_values(e[i].1, atts);
            }
            assert(substituted(v, atts)->Object_0 =~= e);
        },
        _ => {},
    }
}

} // verus!
