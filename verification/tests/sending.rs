use socket_io_client::extractor::{attempt_count, error_message};
use socket_io_client::namespaces::NsTable;
use socket_io_client::outgoing::{
    ack_packet, binary_event_packets, event_packet, event_packet_with_ack, placeholder, room_payload,
};
use socket_io_client::processor::Effect;
use socket_io_client::session::{
    interval_done, primary_namespace, silence_limit_ms, transport_after_upgrade, try_websocket,
    watchdog_effects, AckIds, IntervalTasks, ReconnectState,
};
use socket_io_client::{JsonValue, OutgoingPacket, TransportMode};

fn from_serde(v: &serde_json::Value) -> JsonValue {
    match v {
        serde_json::Value::Null => JsonValue::Null,
        serde_json::Value::Bool(b) => JsonValue::Bool(*b),
        serde_json::Value::Number(n) => JsonValue::Number(n.to_string()),
        serde_json::Value::String(s) => JsonValue::Str(s.clone()),
        serde_json::Value::Array(a) => JsonValue::Array(a.iter().map(from_serde).collect()),
        serde_json::Value::Object(m) => {
            JsonValue::Object(m.iter().map(|(k, x)| (k.clone(), from_serde(x))).collect())
        }
    }
}

fn to_serde(v: &JsonValue) -> serde_json::Value {
    match v {
        JsonValue::Null => serde_json::Value::Null,
        JsonValue::Bool(b) => serde_json::Value::Bool(*b),
        JsonValue::Number(t) => serde_json::Value::Number(t.parse().expect("test number")),
        JsonValue::Str(s) => serde_json::Value::String(s.clone()),
        JsonValue::Array(a) => serde_json::Value::Array(a.iter().map(to_serde).collect()),
        JsonValue::Object(m) => {
            serde_json::Value::Object(m.iter().map(|(k, x)| (k.clone(), to_serde(x))).collect())
        }
    }
}

fn json(text: &str) -> JsonValue {
    from_serde(&serde_json::from_str(text).expect("test JSON"))
}

#[test]
fn event_packets() {
    assert_eq!(
        event_packet("chat", "msg", vec![JsonValue::Str("hi".into())]),
        "42/chat,[\"msg\",\"hi\"]"
    );
    assert_eq!(event_packet("/", "ping", vec![]), "42[\"ping\"]");
    let unordered = JsonValue::Object(vec![
        ("b".to_string(), JsonValue::Number("1".to_string())),
        ("a".to_string(), JsonValue::Null),
    ]);
    assert_eq!(event_packet("/", "e", vec![unordered]), "42[\"e\",{\"a\":null,\"b\":1}]");
    assert_eq!(
        event_packet_with_ack("", "get_user", vec![json("{\"id\":123}")], 4),
        "424[\"get_user\",{\"id\":123}]"
    );
    assert_eq!(
        event_packet("/", "join", vec![room_payload("lobby")]),
        "42[\"join\",{\"room\":\"lobby\"}]"
    );
}

#[test]
fn ack_packets_wrap_their_data() {
    assert_eq!(ack_packet("/", 3, JsonValue::Null), "433[]");
    assert_eq!(ack_packet("/", 3, JsonValue::Str("x".into())), "433[\"x\"]");
    assert_eq!(ack_packet("admin", 9, json("[1,2]")), "43/admin,9[1,2]");
}

#[test]
fn binary_event_sends_header_then_attachments() {
    let packets = binary_event_packets("/", "up", vec![], vec![vec![1, 2], vec![3]], Some(9));
    assert_eq!(packets.len(), 3);
    assert!(matches!(&packets[0], OutgoingPacket::Text(s)
        if s == "452-9[\"up\",{\"_placeholder\":true,\"num\":0},{\"_placeholder\":true,\"num\":1}]"));
    assert!(matches!(&packets[1], OutgoingPacket::Binary(b) if b == &vec![1u8, 2]));
    assert!(matches!(&packets[2], OutgoingPacket::Binary(b) if b == &vec![3u8]));
    assert_eq!(to_serde(&placeholder(12)).to_string(), "{\"_placeholder\":true,\"num\":12}");
}

#[test]
fn silence_limit() {
    assert_eq!(silence_limit_ms(30, 25000, 20000), 45000);
    assert_eq!(silence_limit_ms(60, 25000, 20000), 60000);
    assert_eq!(silence_limit_ms(30, 0, 5), 30000);
}

#[test]
fn websocket_decision() {
    assert!(try_websocket(true, &vec!["websocket".to_string()]));
    assert!(!try_websocket(false, &vec!["websocket".to_string()]));
    assert!(!try_websocket(true, &vec![]));
}

#[test]
fn primary_namespace_is_first_registered() {
    assert_eq!(primary_namespace(&vec![]), "/");
    assert_eq!(primary_namespace(&vec!["/admin".to_string(), "/".to_string()]), "/admin");
}

#[test]
fn reconnect_gives_up_after_retry_count() {
    let retry = 2;
    let mut st = ReconnectState::new();
    assert_eq!(st.begin_attempt(), None);
    let o = st.end_attempt(true);
    assert_eq!(o.reconnected_after, None);
    assert!(o.wait_for_disconnect);
    assert!(!st.should_give_up(retry));
    assert_eq!(st.begin_attempt(), Some(1));
    st.end_attempt(false);
    assert!(!st.should_give_up(retry));
    assert_eq!(st.begin_attempt(), Some(2));
    st.end_attempt(false);
    assert!(st.should_give_up(retry));
    assert!(!st.should_give_up(0));
    let mut again = ReconnectState { is_reconnect: true, attempts: 1 };
    assert_eq!(again.begin_attempt(), Some(2));
    assert_eq!(again.end_attempt(true).reconnected_after, Some(2));
    assert_eq!(again.attempts, 0);
}

#[test]
fn periodic_task_limit() {
    assert!(!interval_done(0, 1000));
    assert!(!interval_done(3, 2));
    assert!(interval_done(3, 3));
}

#[test]
fn handler_arguments() {
    assert_eq!(error_message(&JsonValue::Str("boom".into())), "boom");
    assert_eq!(error_message(&json("{\"code\":1}")), "{\"code\":1}");
    assert_eq!(attempt_count(&json("3")), 3);
    assert_eq!(attempt_count(&JsonValue::Null), 0);
}

#[test]
fn namespace_table_bookkeeping() {
    let mut t: NsTable<u32, String> = NsTable::new();
    t.add_handler("/chat", "msg", 1);
    t.add_handler("/chat", "msg", 2);
    t.add_handler("/chat", "other", 3);
    assert_eq!(t.handlers("/chat", "msg"), Some(&vec![1, 2]));
    assert_eq!(t.handlers("/", "msg"), None);
    assert_eq!(t.namespaces(), vec!["/".to_string(), "/chat".to_string()]);
    t.set_auth("/chat", json("{\"token\":\"abc\"}"));
    assert_eq!(t.connect_packets(), vec!["40".to_string(), "40/chat,{\"token\":\"abc\"}".to_string()]);
    t.clear_auth("/chat");
    t.add_waiter("/chat", 1, "a".into());
    t.add_waiter("/chat", 1, "b".into());
    t.mark_connected("/chat", Some("s".into()));
    t.reset();
    let st = t.get("/chat").unwrap();
    assert!(!st.connected && st.sid.is_none() && st.ack_waiters.is_empty() && st.auth.is_none());
    assert_eq!(t.take_waiter("/chat", 1), None);
    t.add_waiter("/x", 5, "c".into());
    assert_eq!(t.take_waiter("/x", 5), Some("c".to_string()));
}

#[test]
fn namespaces_registered_twice_connect_once() {
    let mut t: NsTable<u32, String> = NsTable::new();
    t.ensure("/chat");
    t.ensure("/chat");
    t.add_handler("/chat", "msg", 1);
    t.set_auth("/", JsonValue::Null);
    t.ensure("/");
    assert_eq!(t.namespaces(), vec!["/".to_string(), "/chat".to_string()]);
    assert_eq!(t.connect_packets(), vec!["40null".to_string(), "40/chat,".to_string()]);
}

#[test]
fn transport_after_upgrade_choices() {
    assert_eq!(transport_after_upgrade(false, false, false), Some(TransportMode::Polling));
    assert_eq!(transport_after_upgrade(true, true, false), Some(TransportMode::WebSocket));
    assert_eq!(transport_after_upgrade(true, false, true), Some(TransportMode::Polling));
    assert_eq!(transport_after_upgrade(true, false, false), None);
}

#[test]
fn watchdog_fires_only_past_the_limit() {
    assert!(watchdog_effects::<String>(45_000_000_000, 45_000, "t".into()).is_empty());
    let fx = watchdog_effects::<String>(45_000_000_001, 45_000, "ping timeout: 45s".into());
    assert_eq!(fx.len(), 3);
    assert!(matches!(&fx[0], Effect::Broadcast { event, data: JsonValue::Str(m) }
        if event == "__error__" && m == "ping timeout: 45s"));
    assert!(matches!(&fx[1], Effect::Broadcast { event, data: JsonValue::Null } if event == "__disconnect__"));
    assert!(matches!(&fx[2], Effect::Stop));
    assert!(watchdog_effects::<String>(u128::MAX, u128::MAX, "t".into()).is_empty());
}

#[test]
fn interval_tasks_keep_one_per_name() {
    let mut tasks: IntervalTasks<u32> = IntervalTasks::new();
    assert_eq!(tasks.replace("tick", 1), None);
    assert_eq!(tasks.replace("tock", 2), None);
    assert_eq!(tasks.replace("tick", 3), Some(1));
    assert_eq!(tasks.remove("tick"), Some(3));
    assert_eq!(tasks.remove("tick"), None);
    assert_eq!(tasks.remove("tock"), Some(2));
}

#[test]
fn ack_ids_start_at_one_and_rise() {
    let mut ids = AckIds::new();
    assert_eq!(ids.next_id(), 1);
    assert_eq!(ids.next_id(), 2);
    assert_eq!(ids.next_id(), 3);
}
