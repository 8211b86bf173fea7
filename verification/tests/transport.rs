use fstar_mcp::mcp::transport::{
    method_not_found_response, receive, refuse, DiscoveryAwareStdioTransport, Received,
    METHOD_NOT_FOUND,
};
use serde_json::Value;

#[test]
fn answers_discover_request_with_method_not_found() {
    let line = br#"{"jsonrpc":"2.0","id":0,"method":"server/discover"}"#;
    let response = method_not_found_response(line).expect("expected a reply");
    let value: Value = serde_json::from_slice(&response).unwrap();

    assert_eq!(value["id"], 0);
    assert_eq!(value["error"]["code"], METHOD_NOT_FOUND);
    assert_eq!(value["jsonrpc"], "2.0");
}

#[test]
fn preserves_string_request_ids() {
    let line = br#"{"jsonrpc":"2.0","id":"abc","method":"server/discover"}"#;
    let response = method_not_found_response(line).unwrap();
    let value: Value = serde_json::from_slice(&response).unwrap();
    assert_eq!(value["id"], "abc");
}

#[test]
fn never_answers_notifications() {
    let line = br#"{"jsonrpc":"2.0","method":"notifications/unknown"}"#;
    assert!(method_not_found_response(line).is_none());
}

#[test]
fn ignores_non_json_frames() {
    assert!(method_not_found_response(b"not json").is_none());
}

#[test]
fn refusals_are_exact() {
    let line = br#"{"jsonrpc":"2.0","id":[1,{"a":null}],"method":"x"}"#;
    assert_eq!(
        method_not_found_response(line).unwrap(),
        br#"{"jsonrpc":"2.0","id":[1,{"a":null}],"error":{"code":-32601,"message":"Method not found: x"}}"#.to_vec()
    );
    assert!(method_not_found_response(br#"{"id":null,"method":"x"}"#).is_none());
    assert!(method_not_found_response(br#"{"id":1,"method":2}"#).is_none());
    assert!(method_not_found_response(br#"{"id":1}"#).is_none());
}

#[test]
fn frames_are_told_apart() {
    assert!(matches!(
        receive(br#"{"jsonrpc":"2.0","id":1,"method":"ping"}"#),
        Received::Message(_)
    ));
    assert!(matches!(
        receive(br#"{"jsonrpc":"2.0","id":1,"method":"server/discover"}"#),
        Received::Refused(_)
    ));
    assert!(matches!(receive(b"garbage"), Received::Ignored(_)));
    match refuse(b"{}", "why".to_string()) {
        Received::Ignored(reason) => assert_eq!(reason, "why"),
        _ => panic!("expected nothing"),
    }
}

#[test]
fn lines_do_not_depend_on_chunks() {
    let input = b"one\r\n\n\r\ntwo\nrest";
    for cut in 0..=input.len() {
        let mut transport = DiscoveryAwareStdioTransport::new();
        let mut lines = Vec::new();
        for part in [&input[..cut], &input[cut..]] {
            if part.is_empty() {
                continue;
            }
            transport.feed(&part.to_vec());
            while let Some(line) = transport.read_line() {
                lines.push(line);
            }
        }
        assert_eq!(lines, vec![b"one".to_vec(), b"two".to_vec()]);
        assert_eq!(transport.partial, b"rest".to_vec());
    }
}

#[test]
fn ended_input_closes_the_connection() {
    let mut transport = DiscoveryAwareStdioTransport::new();
    assert!(transport.is_connected());
    assert_eq!(transport.transport_type(), "stdio");
    transport.feed(&b"half".to_vec());
    assert_eq!(transport.read_line(), None);
    transport.feed(&Vec::new());
    assert!(!transport.is_connected());
    assert_eq!(transport.partial, b"half".to_vec());
    let mut closed = DiscoveryAwareStdioTransport::new();
    closed.close();
    assert!(!closed.is_connected());
}
