use socket_io_client::binary_events::substitute_placeholders;
use socket_io_client::namespaces::NsTable;
use socket_io_client::processor::{decode_packet, Effect, FrameProcessor, Packet};
use socket_io_client::JsonValue;

fn from_serde(v: &serde_json::Value) -> JsonValue {
    match v {
        serde_json::Value::Null => JsonValue::Null,
        serde_json::Value::Bool(b) => JsonValue::Bool(*b),
        serde_json::Value::Number(n) => JsonValue::Number(n.to_string()),
        serde_json::Value::String(s) => JsonValue::Str(s.clone()),
        serde_json::Value::Array(a) => JsonValue::Array(a.iter().map(from_serde).collect()),
        serde_json::Value::Object(m) => {
            JsonValue::Object(m.iter().map(|(k, x)| (k.clone(), from_serde(x))).collect())
        }
    }
}

fn to_serde(v: &JsonValue) -> serde_json::Value {
    match v {
        JsonValue::Null => serde_json::Value::Null,
        JsonValue::Bool(b) => serde_json::Value::Bool(*b),
        JsonValue::Number(t) => serde_json::Value::Number(t.parse().expect("test number")),
        JsonValue::Str(s) => serde_json::Value::String(s.clone()),
        JsonValue::Array(a) => serde_json::Value::Array(a.iter().map(to_serde).collect()),
        JsonValue::Object(m) => {
            serde_json::Value::Object(m.iter().map(|(k, x)| (k.clone(), to_serde(x))).collect())
        }
    }
}

fn json(text: &str) -> JsonValue {
    from_serde(&serde_json::from_str(text).expect("test JSON"))
}

fn text_of(v: &JsonValue) -> String {
    to_serde(v).to_string()
}

#[test]
fn json_accessors_read_what_they_should() {
    let v = json("{\"b\":1,\"a\":[true,null,\"x\",-2.5]}");
    assert_eq!(v.get("b").and_then(|n| n.as_u64()), Some(1));
    assert!(v.get("c").is_none());
    assert_eq!(json("-3").as_u64(), None);
    assert_eq!(json("3.0").as_u64(), None);
    assert_eq!(json("\"s\"").as_str().map(|s| s.as_str()), Some("s"));
}

#[test]
fn decode_event_packet() {
    match decode_packet('2', "/ns,5[\"evt\",1,{\"k\":\"v\"}]") {
        Packet::Event { ns, event, args, ack_id } => {
            assert_eq!(ns, "/ns");
            assert_eq!(event, "evt");
            assert_eq!(text_of(&args), "[1,{\"k\":\"v\"}]");
            assert_eq!(ack_id, Some(5));
        }
        _ => panic!("expected an event"),
    }
    assert!(matches!(decode_packet('2', "[1,2]"), Packet::Ignored));
    assert!(matches!(decode_packet('2', "not json"), Packet::Ignored));
    assert!(matches!(decode_packet('9', "[]"), Packet::Ignored));
}

#[test]
fn decode_connect_error_keeps_text_when_not_json() {
    match decode_packet('4', "/admin,not authorized") {
        Packet::ConnectError { ns, error } => {
            assert_eq!(ns, "/admin");
            assert!(matches!(error, JsonValue::Str(s) if s == "not authorized"));
        }
        _ => panic!("expected a connect error"),
    }
}

#[test]
fn ping_is_answered_with_pong() {
    let mut table: NsTable<u32, String> = NsTable::new();
    let mut p = FrameProcessor::new();
    let fx = p.on_text(&mut table, "2");
    assert_eq!(fx.len(), 2);
    assert!(matches!(&fx[0], Effect::PingSeen));
    assert!(matches!(&fx[1], Effect::Reply(s) if s == "3"));
    let fx = p.on_text(&mut table, "2probe");
    assert!(matches!(&fx[1], Effect::Reply(s) if s == "3probe"));
    assert!(p.on_text(&mut table, "").is_empty());
    assert!(p.on_text(&mut table, "6").is_empty());
}

#[test]
fn close_frame_stops_the_loop() {
    let mut table: NsTable<u32, String> = NsTable::new();
    let mut p = FrameProcessor::new();
    let fx = p.on_text(&mut table, "1");
    assert!(matches!(&fx[0], Effect::Broadcast { event, .. } if event == "__disconnect__"));
    assert!(matches!(&fx[1], Effect::Stop));
    assert!(p.on_end::<String>().is_empty());
    let q = FrameProcessor::new();
    let end = q.on_end::<String>();
    assert_eq!(end.len(), 1);
}

#[test]
fn connect_records_the_session() {
    let mut table: NsTable<u32, String> = NsTable::new();
    let mut p = FrameProcessor::new();
    let fx = p.on_text(&mut table, "40{\"sid\":\"abc\"}");
    let st = table.get("/").expect("root namespace");
    assert!(st.connected);
    assert_eq!(st.sid.as_deref(), Some("abc"));
    assert!(matches!(&fx[0], Effect::Dispatch { event, incoming } if event == "__connect__" && incoming.namespace == "/"));
    p.on_text(&mut table, "41");
    let st = table.get("/").expect("root namespace");
    assert!(!st.connected);
    assert_eq!(st.sid, None);
}

#[test]
fn connect_error_reaches_both_handlers() {
    let mut table: NsTable<u32, String> = NsTable::new();
    table.ensure("/admin");
    let mut p = FrameProcessor::new();
    let fx = p.on_text(&mut table, "44/admin,{\"message\":\"no\"}");
    assert_eq!(fx.len(), 2);
    assert!(matches!(&fx[0], Effect::Dispatch { event, .. } if event == "__connect_error__"));
    assert!(matches!(&fx[1], Effect::Dispatch { event, incoming } if event == "__error__" && text_of(&incoming.data) == "{\"message\":\"no\"}"));
}

#[test]
fn server_event_is_dispatched_with_its_arguments() {
    let mut table: NsTable<u32, String> = NsTable::new();
    let mut p = FrameProcessor::new();
    let fx = p.on_text(&mut table, "42/chat,[\"msg\",\"hi\",2]");
    assert_eq!(fx.len(), 1);
    match &fx[0] {
        Effect::Dispatch { event, incoming } => {
            assert_eq!(event, "msg");
            assert_eq!(incoming.namespace, "/chat");
            assert_eq!(text_of(&incoming.data), "[\"hi\",2]");
            assert_eq!(incoming.ack_id, None);
        }
        _ => panic!("expected a dispatch"),
    }
}

#[test]
fn server_ack_resolves_the_waiter_once() {
    let mut table: NsTable<u32, String> = NsTable::new();
    table.add_waiter("/", 7, "waiter-7".to_string());
    let mut p = FrameProcessor::new();
    let fx = p.on_text(&mut table, "437[\"ok\"]");
    assert_eq!(fx.len(), 1);
    match &fx[0] {
        Effect::Resolve { waiter, payload } => {
            assert_eq!(waiter, "waiter-7");
            assert_eq!(text_of(payload), "[\"ok\"]");
        }
        _ => panic!("expected a resolve"),
    }
    assert!(p.on_text(&mut table, "437[\"again\"]").is_empty());
    assert_eq!(table.take_waiter("/", 7), None);
}

#[test]
fn binary_event_is_assembled() {
    let mut table: NsTable<u32, String> = NsTable::new();
    let mut p = FrameProcessor::new();
    let fx = p.on_text(&mut table, "452-[\"file\",{\"_placeholder\":true,\"num\":0},{\"_placeholder\":true,\"num\":1}]");
    assert!(fx.is_empty());
    assert!(p.on_binary(&mut table, vec![1, 2, 3]).is_empty());
    let fx = p.on_binary(&mut table, vec![4]);
    assert_eq!(fx.len(), 1);
    match &fx[0] {
        Effect::Dispatch { event, incoming } => {
            assert_eq!(event, "file");
            assert_eq!(text_of(&incoming.data), "[{\"binary\":\"AQID\"},{\"binary\":\"BA==\"}]");
        }
        _ => panic!("expected a dispatch"),
    }
    assert!(p.on_binary(&mut table, vec![9]).is_empty());
}

#[test]
fn binary_ack_resolves_with_attachments() {
    let mut table: NsTable<u32, String> = NsTable::new();
    table.add_waiter("/up", 3, "w".to_string());
    let mut p = FrameProcessor::new();
    p.on_text(&mut table, "461-/up,3[{\"_placeholder\":true,\"num\":0}]");
    let fx = p.on_binary(&mut table, b"hi".to_vec());
    match &fx[0] {
        Effect::Resolve { waiter, payload } => {
            assert_eq!(waiter, "w");
            assert_eq!(text_of(payload), "[{\"binary\":\"aGk=\"}]");
        }
        _ => panic!("expected a resolve"),
    }
}

#[test]
fn placeholders_out_of_range_stay() {
    let v = json("[{\"_placeholder\":true,\"num\":5},{\"x\":{\"_placeholder\":true,\"num\":0}}]");
    let r = substitute_placeholders(&v, &vec![vec![0u8, 1, 2]]);
    assert_eq!(text_of(&r), "[{\"_placeholder\":true,\"num\":5},{\"x\":{\"binary\":\"AAEC\"}}]");
}
