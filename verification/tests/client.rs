use ws_upgrade::client::{ReadOutcome, WebSocketClient, WriteOutcome};

const REQUEST: &str = "GET / HTTP/1.1\r\nHost: x\r\nUpgrade: websocket\r\nConnection: Upgrade\r\nSec-WebSocket-Key: dGhlIHNhbXBsZSBub25jZQ==\r\n\r\n";

const RESPONSE: &str = "HTTP/1.1 101 Switching Protocols\r\nConnection: Upgrade\r\nSec-WebSocket-Accept:s3pPLMBiTxaQ9kYGzzhZRbK+xOo=\r\nUpgrade:websocket\r\n\r\n";

#[test]
fn fresh_client_is_reading() {
    let c = WebSocketClient::new();
    assert!(c.interest.readable);
    assert!(!c.interest.writable);
}

#[test]
fn handshake_lifecycle() {
    let mut c = WebSocketClient::new();
    // Partial request: keep reading.
    let o = c.read(&REQUEST.as_bytes()[..20].to_vec());
    assert_eq!(o, ReadOutcome::Continue);
    assert!(c.interest.readable && !c.interest.writable);
    // Rest of the request: upgrade detected, interest flips to writable.
    let o = c.read(&REQUEST.as_bytes()[20..].to_vec());
    assert_eq!(o, ReadOutcome::Upgraded);
    assert!(!c.interest.readable && c.interest.writable);
    // Writable: the one 101 response comes out, interest back to readable.
    match c.write() {
        WriteOutcome::Response(bytes) => assert_eq!(bytes, RESPONSE.as_bytes().to_vec()),
        _ => panic!("expected a response"),
    }
    assert!(c.interest.readable && !c.interest.writable);
    // A second writability signal owes nothing: at most one response.
    assert!(matches!(c.write(), WriteOutcome::NotPending));
    // Data after the handshake is discarded without a state change.
    let o = c.read(&b"frame bytes".to_vec());
    assert_eq!(o, ReadOutcome::Ignored);
    assert!(c.interest.readable && !c.interest.writable);
}

#[test]
fn missing_key_is_reported() {
    let mut c = WebSocketClient::new();
    let req = "GET / HTTP/1.1\r\nHost: x\r\nUpgrade: websocket\r\nConnection: Upgrade\r\n\r\n";
    let o = c.read(&req.as_bytes().to_vec());
    assert_eq!(o, ReadOutcome::Upgraded);
    assert!(matches!(c.write(), WriteOutcome::MissingKey));
}

#[test]
fn write_before_upgrade_owes_nothing() {
    let mut c = WebSocketClient::new();
    assert!(matches!(c.write(), WriteOutcome::NotPending));
}

#[test]
fn malformed_request_is_a_parse_error() {
    let mut c = WebSocketClient::new();
    let o = c.read(&b"GET / HTTP/1.1\r\nbogus line\r\n".to_vec());
    assert_eq!(o, ReadOutcome::ParseError);
}

#[test]
fn complete_request_without_upgrade() {
    let mut c = WebSocketClient::new();
    let o = c.read(&b"GET / HTTP/1.1\r\nHost: x\r\n\r\n".to_vec());
    assert_eq!(o, ReadOutcome::NotUpgrade);
}
