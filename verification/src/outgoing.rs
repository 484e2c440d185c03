//! The packets a client sends: events (with or without an ack id), acks of
//! the server's events, and events with binary attachments.
use vstd::prelude::*;
use crate::binary_events::{binary_object, placeholder_index, substituted};
use crate::codec::{
    encode_binary_header, encode_with_namespace, encode_with_namespace_with_id,
    spec_encode_binary_header, spec_encode_with_namespace, spec_encode_with_namespace_with_id,
};
use crate::json::{json_model, json_to_text, lookup, number_u64, render_json, Json, JsonValue};
use crate::socket_io_client::{normalize_ns, spec_normalize_ns, OutgoingPacket};
use crate::codec::{
    ack_payload, is_packet_ns, law_encode_then_parse_ns_payload, law_encode_then_parse_with_id,
    spec_parse_ns_payload, spec_parse_ns_payload_with_id,
};
use crate::text::{decimal, lemma_decimal};
use crate::processor::lemma_bytes_deep_view;

verus! {

/// The models of a list of JSON values.
pub open spec fn values_model(v: Seq<JsonValue>) -> Seq<Json> {
    v.map_values(|x: JsonValue| x@)
}

/// The payload of an event: `[<event>, <args>...]`.
pub open spec fn event_payload(event: Seq<char>, args: Seq<Json>) -> Json {
    Json::Array(seq![Json::Str(event)] + args)
}

/// Builds the array `items` as a JSON value.
fn array_of(items: Vec<JsonValue>) -> (r: JsonValue)
    ensures
        r@ == Json::Array(values_model(items@)),
{
    let r = JsonValue::Array(items);
    proof {
        assert(r@->Array_0 =~= values_model(items@));
    }
    r
}

/// Builds `[<event>, <args>...]`.
fn event_array(event: &str, args: Vec<JsonValue>) -> (r: JsonValue)
    ensures
        r@ == event_payload(event@, values_model(args@)),
{
    let mut items: Vec<JsonValue> = Vec::new();
    let head = JsonValue::Str(event.to_owned());
    items.push(head);
    let mut args = args;
    let ghost a = args@;
    items.append(&mut args);
    proof {
        assert(items@ =~= seq![head] + a);
        assert(values_model(items@) =~= seq![Json::Str(event@)] + values_model(a));
    }
    array_of(items)
}

/// The EVENT packet `42[<ns>,][<event>,<args>...]` for a namespace (normalised).
pub open spec fn spec_event_packet(ns: Seq<char>, event: Seq<char>, args: Seq<Json>) -> Seq<char> {
    spec_encode_with_namespace(spec_normalize_ns(ns), "42"@, json_to_text(event_payload(event, args)))
}

/// The EVENT packet for `event` with `args` in namespace `ns`.
pub fn event_packet(ns: &str, event: &str, args: Vec<JsonValue>) -> (r: String)
    ensures
        r@ == spec_event_packet(ns@, event@, values_model(args@)),
{
    let ns = normalize_ns(ns);
    let payload = render_json(&event_array(event, args));
    encode_with_namespace(ns.as_str(), "42", payload.as_str())
}

/// The EVENT packet `42[<ns>,]<id>[<event>,<args>...]` that asks the server for an ack.
pub open spec fn spec_event_packet_with_ack(ns: Seq<char>, event: Seq<char>, args: Seq<Json>, id: u64) -> Seq<char> {
    spec_encode_with_namespace_with_id(spec_normalize_ns(ns), "42"@, id, json_to_text(event_payload(event, args)))
}

/// The EVENT packet for `event` with `args` in namespace `ns`, asking for ack `id`.
pub fn event_packet_with_ack(ns: &str, event: &str, args: Vec<JsonValue>, id: u64) -> (r: String)
    ensures
        r@ == spec_event_packet_with_ack(ns@, event@, values_model(args@), id),
{
    let ns = normalize_ns(ns);
    let payload = render_json(&event_array(event, args));
    encode_with_namespace_with_id(ns.as_str(), "42", id, payload.as_str())
}

/// The arguments of an ack: an array as it is, nothing for `null`, any
/// other value as the single argument.
pub open spec fn ack_args(data: Json) -> Json {
    if data is Array {
        data
    } else if data is Null {
        Json::Array(Seq::empty())
    } else {
        Json::Array(seq![data])
    }
}

/// The ACK packet `43[<ns>,]<id><args>` answering the server's event `id`.
pub open spec fn spec_ack_packet(ns: Seq<char>, id: u64, data: Json) -> Seq<char> {
    spec_encode_with_namespace_with_id(spec_normalize_ns(ns), "43"@, id, json_to_text(ack_args(data)))
}

/// The ACK packet that answers the server's event `id` in `ns` with `data`.
pub fn ack_packet(ns: &str, id: u64, data: JsonValue) -> (r: String)
    ensures
        r@ == spec_ack_packet(ns@, id, data@),
{
    let ns = normalize_ns(ns);
    let args = match data {
        JsonValue::Array(_) => data,
        JsonValue::Null => array_of(Vec::new()),
        _ => {
            let mut v: Vec<JsonValue> = Vec::new();
            v.push(data);
            let a = array_of(v);
            proof {
                assert(values_model(v@) =~= seq![data@]);
            }
            a
        },
    };
    proof {
        if data@ is Null {
            assert(values_model(Seq::<JsonValue>::empty()) =~= Seq::<Json>::empty());
        }
    }
    let payload = render_json(&args);
    encode_with_namespace_with_id(ns.as_str(), "43", id, payload.as_str())
}

/// The placeholder object `{"_placeholder": true, "num": <i>}` that stands
/// for attachment `i` in a binary event.
pub open spec fn placeholder_json(i: nat) -> Json {
    Json::Object(seq![("_placeholder"@, Json::Bool(true)), ("num"@, Json::Number(decimal(i)))])
}

/// The placeholder object for attachment `i`.
pub fn placeholder(i: u64) -> (r: JsonValue)
    ensures
        r@ == placeholder_json(i as nat),
{
    let mut entries: Vec<(String, JsonValue)> = Vec::new();
    let k1 = "_placeholder".to_owned();
    let v1 = JsonValue::Bool(true);
    let k2 = "num".to_owned();
    let v2 = number_u64(i);
    entries.push((k1, v1));
    entries.push((k2, v2));
    let r = JsonValue::Object(entries);
    proof {
        assert(json_model(v1) == Json::Bool(true));
        assert(r@->Object_0 =~= placeholder_json(i as nat)->Object_0);
    }
    r
}

/// The payload of a binary event: `[<event>, <args>..., <placeholder 0>, ...]`.
pub open spec fn binary_payload(event: Seq<char>, args: Seq<Json>, n: nat) -> Json {
    Json::Array(seq![Json::Str(event)] + args + Seq::new(n, |i: int| placeholder_json(i as nat)))
}

/// The packets of a binary event: the header
/// `45<n>-[<ns>,][<id>][<event>,<args>...,<placeholders>]`, then each attachment.
pub open spec fn spec_binary_event_packets(
    ns: Seq<char>,
    event: Seq<char>,
    args: Seq<Json>,
    attachments: Seq<Seq<u8>>,
    id: Option<u64>,
) -> Seq<PacketText> {
    seq![
        PacketText::Text(
            spec_encode_binary_header(
                spec_normalize_ns(ns),
                "45"@,
                attachments.len() as usize,
                id,
                json_to_text(binary_payload(event, args, attachments.len())),
            ),
        ),
    ] + attachments.map_values(|a: Seq<u8>| PacketText::Binary(a))
}

/// The model of an outgoing packet.
pub enum PacketText {
    Text(Seq<char>),
    Binary(Seq<u8>),
}

/// The model of an outgoing packet.
pub open spec fn packet_model(p: OutgoingPacket) -> PacketText {
    match p {
        OutgoingPacket::Text(s) => PacketText::Text(s@),
        OutgoingPacket::Binary(b) => PacketText::Binary(b@),
    }
}

/// The packets of an event with binary attachments in namespace `ns`,
/// asking for ack `id` when there is one.
pub fn binary_event_packets(
    ns: &str,
    event: &str,
    args: Vec<JsonValue>,
    attachments: Vec<Vec<u8>>,
    id: Option<u64>,
) -> (r: Vec<OutgoingPacket>)
    ensures
        r@.map_values(|p: OutgoingPacket| packet_model(p)) == spec_binary_event_packets(
            ns@,
            event@,
            values_model(args@),
            attachments.deep_view(),
            id,
        ),
{
    let ns = normalize_ns(ns);
    let n = attachments.len();
    let mut items: Vec<JsonValue> = Vec::new();
    let head = JsonValue::Str(event.to_owned());
    items.push(head);
    let mut args = args;
    let ghost a = args@;
    items.append(&mut args);
    let mut i: usize = 0;
    while i < n
        invariant
            i <= n,
            items@.len() == 1 + a.len() + i,
            items@[0] == head,
            forall|j: int| 0 <= j < a.len() ==> #[trigger] items@[1 + j] == a[j],
            forall|j: int| 0 <= j < i ==> #[trigger] json_model(items@[1 + a.len() + j]) == placeholder_json(j as nat),
        decreases n - i,
    {
        let p = placeholder(i as u64);
        items.push(p);
        i = i + 1;
    }
    let ghost expected = binary_payload(event@, values_model(a), n as nat);
    proof {
        let e = expected->Array_0;
        let m = values_model(items@);
        assert(json_model(head) == Json::Str(event@));
        assert(m.len() == e.len());
        assert forall|j: int| 0 <= j < m.len() implies m[j] == e[j] by {
            if j == 0 {
                assert(m[0] == json_model(head));
            } else if j < 1 + a.len() {
                assert(items@[1 + (j - 1)] == a[j - 1]);
                assert(m[j] == json_model(a[j - 1]));
                assert(e[j] == values_model(a)[j - 1]);
            } else {
                let q = j - 1 - a.len();
                assert(json_model(items@[1 + a.len() + q]) == placeholder_json(q as nat));
                assert(e[j] == Seq::new(n as nat, |i: int| placeholder_json(i as nat))[q]);
            }
        }
        assert(m =~= e);
    }
    let payload_value = array_of(items);
    let payload = render_json(&payload_value);
    let header = encode_binary_header(ns.as_str(), "45", n, id, payload.as_str());
    let mut out: Vec<OutgoingPacket> = Vec::new();
    out.push(OutgoingPacket::Text(header));
    let ghost atts = attachments@;
    let ghost deep = attachments.deep_view();
    proof {
        assert forall|j: int| 0 <= j < atts.len() implies deep[j] == atts[j]@ by {
            lemma_bytes_deep_view(atts[j]);
        }
    }
    for bin in it: attachments.into_iter()
        invariant
            out@.len() == 1 + it.index(),
            packet_model(out@[0]) == PacketText::Text(header@),
            it.seq() == atts,
            forall|j: int| 0 <= j < it.index() ==> #[trigger] packet_model(out@[1 + j]) == PacketText::Binary(atts[j]@),
    {
        out.push(OutgoingPacket::Binary(bin));
    }
    proof {
        let spec = spec_binary_event_packets(ns@, event@, values_model(a), deep, id);
        let got = out@.map_values(|p: OutgoingPacket| packet_model(p));
        assert(got.len() == spec.len());
        assert forall|j: int| 0 <= j < got.len() implies got[j] == spec[j] by {
            if j > 0 {
                assert(packet_model(out@[1 + (j - 1)]) == PacketText::Binary(atts[j - 1]@));
            }
        }
        assert(got =~= spec);
    }
    out
}

/// The payload `{"room": <room>}` of the `join` and `leave` requests.
pub fn room_payload(room: &str) -> (r: JsonValue)
    ensures
        r@ == Json::Object(seq![("room"@, Json::Str(room@))]),
{
    let mut entries: Vec<(String, JsonValue)> = Vec::new();
    let k = "room".to_owned();
    let v = JsonValue::Str(room.to_owned());
    entries.push((k, v));
    let r = JsonValue::Object(entries);
    proof {
        assert(json_model(v) == Json::Str(room@));
        assert(entries@[0] == (k, v));
        assert(r@->Object_0.len() == 1);
        assert(r@->Object_0[0] == (entries@[0].0@, json_model(entries@[0].1)));
        assert(r@->Object_0 =~= seq![("room"@, Json::Str(room@))]);
    }
    r
}

/// A placeholder names its attachment.
proof fn lemma_placeholder_index(i: nat, n: nat)
    requires
        i < n,
        i <= u64::MAX,
    ensures
        placeholder_index(placeholder_json(i), n) == Some(i),
{
    reveal_strlit("_placeholder");
    reveal_strlit("num");
    let e = placeholder_json(i)->Object_0;
    assert("_placeholder"@.len() == 12);
    assert("num"@.len() == 3);
    assert(e[0].0 != "num"@);
    assert(e.drop_first()[0] == e[1]);
    lemma_decimal(i);
    assert(lookup(e, "_placeholder"@) == Some(Json::Bool(true)));
    assert(e.drop_first().len() == 1);
    assert(e.drop_first()[0].0 == "num"@);
    assert(lookup(e.drop_first(), "num"@) == Some(Json::Number(decimal(i))));
    assert(lookup(e, "num"@) == Some(Json::Number(decimal(i))));
}

/// Law: the receiver of a binary event replaces the placeholders that the
/// sender put in its payload by the attachments themselves, as
/// `{"binary": <base64>}` objects in the same places, and leaves the event
/// name and the other arguments as they are (provided those arguments hold
/// no placeholders of their own).
pub proof fn law_binary_payload_substitution(event: Seq<char>, args: Seq<Json>, atts: Seq<Seq<u8>>)
    requires
        atts.len() <= u64::MAX,
        forall|i: int| 0 <= i < args.len() ==> substituted(#[trigger] args[i], atts) == args[i],
    ensures
        substituted(binary_payload(event, args, atts.len()), atts) == Json::Array(
            seq![Json::Str(event)] + args + Seq::new(atts.len(), |i: int| binary_object(atts[i])),
        ),
{
    let n = atts.len();
    let items = seq![Json::Str(event)] + args + Seq::new(n, |i: int| placeholder_json(i as nat));
    let want = seq![Json::Str(event)] + args + Seq::new(n, |i: int| binary_object(atts[i]));
    let got = substituted(Json::Array(items), atts)->Array_0;
    assert(got.len() == want.len());
    assert forall|j: int| 0 <= j < got.len() implies got[j] == want[j] by {
        assert(got[j] == substituted(items[j], atts));
        if j == 0 {
        } else if j < 1 + args.len() {
            assert(items[j] == args[j - 1]);
        } else {
            let q = j - 1 - args.len();
            assert(items[j] == placeholder_json(q as nat));
            lemma_placeholder_index(q as nat, n);
        }
    }
    assert(got =~= want);
}

/// Law: an event's payload is the array whose first item is the event
/// name and whose following items are the arguments, in their order.
pub proof fn law_event_payload_keeps_order(event: Seq<char>, args: Seq<Json>)
    ensures
        event_payload(event, args) is Array,
        event_payload(event, args)->Array_0.len() == args.len() + 1,
        event_payload(event, args)->Array_0[0] == Json::Str(event),
        forall|i: int| 0 <= i < args.len() ==> #[trigger] event_payload(event, args)->Array_0[i + 1] == args[i],
{
}

/// Law: the EVENT packet decodes back to its parts: after its type `42`,
/// the namespace (normalised) and the text of the array
/// `[<event>, <args>...]`, for every namespace that holds no comma. (The
/// text of a JSON array starts with `[`.)
pub proof fn law_event_packet_decodes(ns: Seq<char>, event: Seq<char>, args: Seq<Json>)
    requires
        is_packet_ns(spec_normalize_ns(ns)),
        json_to_text(Json::Array(seq![Json::Str(event)] + args)).len() > 0,
        json_to_text(Json::Array(seq![Json::Str(event)] + args))[0] == '[',
    ensures
        spec_event_packet(ns, event, args).take(2) == "42"@,
        spec_parse_ns_payload(spec_event_packet(ns, event, args).skip(2)) == (
            spec_normalize_ns(ns),
            json_to_text(Json::Array(seq![Json::Str(event)] + args)),
        ),
{
    reveal_strlit("42");
    let n = spec_normalize_ns(ns);
    let text = json_to_text(Json::Array(seq![Json::Str(event)] + args));
    assert(event_payload(event, args) == Json::Array(seq![Json::Str(event)] + args));
    law_encode_then_parse_ns_payload(n, "42"@, text);
    assert(spec_event_packet(ns, event, args).take(2) =~= "42"@);
}

/// Law: the EVENT packet that asks for ack `id` decodes back to its parts:
/// after its type `42`, the namespace (normalised), the ack id `id` and the
/// text of the array `[<event>, <args>...]`, for every namespace that holds
/// no comma. (The text of a JSON array starts with `[`.)
pub proof fn law_event_packet_with_ack_decodes(ns: Seq<char>, event: Seq<char>, args: Seq<Json>, id: u64)
    requires
        is_packet_ns(spec_normalize_ns(ns)),
        json_to_text(Json::Array(seq![Json::Str(event)] + args)).len() > 0,
        json_to_text(Json::Array(seq![Json::Str(event)] + args))[0] == '[',
    ensures
        spec_event_packet_with_ack(ns, event, args, id).take(2) == "42"@,
        spec_parse_ns_payload_with_id(spec_event_packet_with_ack(ns, event, args, id).skip(2)) == (
            spec_normalize_ns(ns),
            Some(id),
            json_to_text(Json::Array(seq![Json::Str(event)] + args)),
        ),
{
    reveal_strlit("42");
    let n = spec_normalize_ns(ns);
    let text = json_to_text(Json::Array(seq![Json::Str(event)] + args));
    assert(event_payload(event, args) == Json::Array(seq![Json::Str(event)] + args));
    law_encode_then_parse_with_id(n, "42"@, id, text);
    assert(ack_payload(text) == text);
    assert(spec_event_packet_with_ack(ns, event, args, id).take(2) =~= "42"@);
}

/// Law: the arguments of an ack are always an array: the handler's array
/// as it is, no arguments for `null`, and any other value (object, string,
/// number, bool) as the single argument.
pub proof fn law_ack_args(data: Json)
    ensures
        ack_args(data) is Array,
        data is Array ==> ack_args(data) == data,
        data is Null ==> ack_args(data) == Json::Array(Seq::empty()),
        !(data is Array) && !(data is Null) ==> ack_args(data) == Json::Array(seq![data]),
{
}

/// Law: the ACK packet decodes back to its parts: after its type `43`, the
/// namespace (normalised), the ack id and the text of the ack's argument
/// array, for every namespace that holds no comma. (The text of a JSON
/// array starts with `[`.)
pub proof fn law_ack_packet_decodes(ns: Seq<char>, id: u64, data: Json)
    requires
        is_packet_ns(spec_normalize_ns(ns)),
        json_to_text(ack_args(data)).len() > 0,
        json_to_text(ack_args(data))[0] == '[',
    ensures
        spec_ack_packet(ns, id, data).take(2) == "43"@,
        spec_parse_ns_payload_with_id(spec_ack_packet(ns, id, data).skip(2)) == (
            spec_normalize_ns(ns),
            Some(id),
            json_to_text(ack_args(data)),
        ),
{
    reveal_strlit("43");
    let text = json_to_text(ack_args(data));
    law_encode_then_parse_with_id(spec_normalize_ns(ns), "43"@, id, text);
    assert(ack_payload(text) == text);
    assert(spec_ack_packet(ns, id, data).take(2) =~= "43"@);
}

} // verus!
