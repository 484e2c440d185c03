use socket_io_client::codec::{
    encode_binary_header, encode_with_namespace, encode_with_namespace_with_id,
    parse_binary_header, parse_ns_payload, parse_ns_payload_with_id,
};

#[test]
fn ns_payload_empty_and_without_comma() {
    assert_eq!(parse_ns_payload(""), ("/".to_string(), ""));
    assert_eq!(parse_ns_payload("/chat"), ("/chat".to_string(), ""));
    assert_eq!(parse_ns_payload("/a,b,c"), ("/a".to_string(), "b,c"));
}

#[test]
fn ack_id_too_large_is_none_but_consumed() {
    assert_eq!(
        parse_ns_payload_with_id("99999999999999999999[1]"),
        ("/".to_string(), None, "[1]")
    );
    assert_eq!(
        parse_ns_payload_with_id("18446744073709551615[1]"),
        ("/".to_string(), Some(u64::MAX), "[1]")
    );
    assert_eq!(parse_ns_payload_with_id("/x,[1]"), ("/x".to_string(), None, "[1]"));
}

#[test]
fn binary_header_edges() {
    assert_eq!(parse_binary_header("12"), (0, "12"));
    assert_eq!(parse_binary_header("-x"), (0, "-x"));
    assert_eq!(parse_binary_header("99999999999999999999-x"), (0, "99999999999999999999-x"));
    assert_eq!(parse_binary_header("007-x"), (7, "x"));
}

#[test]
fn ack_with_empty_payload_sends_empty_array() {
    assert_eq!(encode_with_namespace_with_id("/", "43", 5, ""), "435[]");
    assert_eq!(encode_with_namespace_with_id("/ns", "42", 0, "[1]"), "42/ns,0[1]");
}

#[test]
fn encoded_packets_decode_back() {
    let p = encode_with_namespace("/room", "42", "[\"e\",1]");
    assert_eq!(parse_ns_payload(&p[2..]), ("/room".to_string(), "[\"e\",1]"));
    let p = encode_with_namespace_with_id("/", "43", 77, "[\"ok\"]");
    assert_eq!(parse_ns_payload_with_id(&p[2..]), ("/".to_string(), Some(77), "[\"ok\"]"));
    let p = encode_binary_header("/up", "45", 3, Some(8), "[\"f\"]");
    let (n, rest) = parse_binary_header(&p[2..]);
    assert_eq!(n, 3);
    assert_eq!(parse_ns_payload_with_id(rest), ("/up".to_string(), Some(8), "[\"f\"]"));
}

#[test]
fn non_ascii_namespace_and_payload() {
    assert_eq!(parse_ns_payload("/é,[\"ü\"]"), ("/é".to_string(), "[\"ü\"]"));
    assert_eq!(encode_with_namespace("/é", "42", "[\"ü\"]"), "42/é,[\"ü\"]");
}

#[test]
fn binary_header_with_too_large_count_is_unparsed() {
    let s = "99999999999999999999999-[\"a\"]";
    assert_eq!(parse_binary_header(s), (0, s));
    assert_eq!(parse_binary_header("3-x"), (3, "x"));
}
