//! Values that event handlers receive, taken out of an incoming event.
use vstd::prelude::*;
use crate::json::{json_to_text, render_json, Json, JsonValue};

verus! {

/// The data of an event, deserialised into `T`.
pub struct Data<T>(pub T);

/// The global state of the application that registered the handler.
pub struct State<S>(pub std::sync::Arc<S>);

/// The message an error handler receives: the text of a JSON string, the
/// JSON text of any other value.
pub open spec fn spec_error_message(v: Json) -> Seq<char> {
    match v {
        Json::Str(s) => s,
        _ => json_to_text(v),
    }
}

/// The message an error handler receives for the data of an error event.
pub fn error_message(v: &JsonValue) -> (r: String)
    ensures
        r@ == spec_error_message(v@),
{
    match v {
        JsonValue::Str(s) => s.clone(),
        _ => render_json(v),
    }
}

/// The attempt count a reconnect handler receives: the event's number, or
/// 0 when the data is not a `u64`.
pub open spec fn spec_attempt_count(v: Json) -> u64 {
    match v.as_u64() {
        Some(n) => n,
        None => 0,
    }
}

/// The attempt count a reconnect handler receives for the data of its event.
pub fn attempt_count(v: &JsonValue) -> (r: u64)
    ensures
        r == spec_attempt_count(v@),
{
    match v.as_u64() {
        Some(n) => n,
        None => 0,
    }
}

} // verus!
