use socket_io_client::socket_io_client::{
    connect_packet, disconnect_packet, open_packet_json, polling_body, polling_url,
    probe_accepted, split_polling_body, websocket_url, IncomingFrame,
};
use socket_io_client::{normalize_ns, OutgoingPacket};

#[test]
fn normalizing_twice_changes_nothing() {
    for ns in ["", "/", "chat", "/chat", "a/b"] {
        let once = normalize_ns(ns);
        assert!(once.starts_with('/'));
        assert_eq!(normalize_ns(&once), once);
    }
}

#[test]
fn polling_body_is_split_into_frames() {
    let frames = split_polling_body("42[\"a\"]\u{1e}bAQIDBA==\u{1e}\u{1e}b!!!\u{1e}2");
    assert_eq!(frames.len(), 3);
    assert!(matches!(&frames[0], IncomingFrame::Text(s) if s == "42[\"a\"]"));
    assert!(matches!(&frames[1], IncomingFrame::Binary(b) if b == &vec![1u8, 2, 3, 4]));
    assert!(matches!(&frames[2], IncomingFrame::Text(s) if s == "2"));
    assert!(split_polling_body("").is_empty());
}

#[test]
fn polling_body_of_text_packets_reads_back() {
    let packets = vec![
        OutgoingPacket::Text("40".to_string()),
        OutgoingPacket::Text("42[\"x\"]".to_string()),
        OutgoingPacket::Text("3".to_string()),
    ];
    let body = polling_body(&packets);
    assert_eq!(body, "40\u{1e}42[\"x\"]\u{1e}3");
    let frames = split_polling_body(&body);
    let texts: Vec<String> = frames
        .into_iter()
        .map(|f| match f {
            IncomingFrame::Text(s) => s,
            IncomingFrame::Binary(_) => panic!("binary frame"),
        })
        .collect();
    assert_eq!(texts, vec!["40", "42[\"x\"]", "3"]);
}

#[test]
fn polling_body_with_binary() {
    let packets = vec![OutgoingPacket::Text("451-[]".to_string()), OutgoingPacket::Binary(vec![255, 0])];
    assert_eq!(polling_body(&packets), "451-[]\u{1e}b/wA=");
    assert_eq!(polling_body(&Vec::new()), "");
}

#[test]
fn handshake_open_packet() {
    assert_eq!(open_packet_json("0{\"sid\":\"x\"}\u{1e}40"), Some("{\"sid\":\"x\"}"));
    assert_eq!(open_packet_json("0{}"), Some("{}"));
    assert_eq!(open_packet_json("40"), None);
    assert_eq!(open_packet_json(""), None);
}

#[test]
fn websocket_probe_replies() {
    assert!(probe_accepted("3probe"));
    assert!(probe_accepted("0{\"sid\":\"s\"}"));
    assert!(!probe_accepted("3probe!"));
    assert!(!probe_accepted("2probe"));
    assert!(!probe_accepted(""));
}

#[test]
fn transport_urls() {
    assert_eq!(
        websocket_url("https://h:1", "s1"),
        "wss://h:1/socket.io/?EIO=4&transport=websocket&sid=s1"
    );
    assert_eq!(
        websocket_url("http://127.0.0.1:5000", "ab"),
        "ws://127.0.0.1:5000/socket.io/?EIO=4&transport=websocket&sid=ab"
    );
    assert_eq!(
        websocket_url("x.test/http://y", "s"),
        "x.test/ws://y/socket.io/?EIO=4&transport=websocket&sid=s"
    );
    assert_eq!(polling_url("http://h", None), "http://h/socket.io/?EIO=4&transport=polling");
    assert_eq!(
        polling_url("http://h", Some("q")),
        "http://h/socket.io/?EIO=4&transport=polling&sid=q"
    );
}

#[test]
fn connect_and_disconnect_packets() {
    assert_eq!(connect_packet("/chat", None), "40/chat,");
    assert_eq!(disconnect_packet("/"), "41");
    assert_eq!(disconnect_packet("/admin"), "41/admin,");
}

#[test]
fn polling_body_with_binary_reads_back() {
    let packets = vec![
        OutgoingPacket::Text("451-[]".to_string()),
        OutgoingPacket::Binary(vec![255, 0, 7, 30]),
        OutgoingPacket::Binary(vec![]),
    ];
    let frames = split_polling_body(&polling_body(&packets));
    assert_eq!(frames.len(), 3);
    assert!(matches!(&frames[0], IncomingFrame::Text(s) if s == "451-[]"));
    assert!(matches!(&frames[1], IncomingFrame::Binary(b) if b == &vec![255u8, 0, 7, 30]));
    assert!(matches!(&frames[2], IncomingFrame::Binary(b) if b.is_empty()));
}

#[test]
fn non_canonical_base64_record_is_skipped() {
    assert!(split_polling_body("bAR==").is_empty());
    assert!(split_polling_body("bAQ").is_empty());
    assert!(matches!(&split_polling_body("bAQ==")[0], IncomingFrame::Binary(b) if b == &vec![1u8]));
}
