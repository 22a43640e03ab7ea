use ws_upgrade::server::{
    AcceptOutcome, ReadDirective, WebSocketServer, WriteDirective, SERVER_TOKEN,
};

const REQUEST: &str = "GET / HTTP/1.1\r\nHost: x\r\nUpgrade: websocket\r\nConnection: Upgrade\r\nSec-WebSocket-Key: dGhlIHNhbXBsZSBub25jZQ==\r\n\r\n";

const RESPONSE: &str = "HTTP/1.1 101 Switching Protocols\r\nConnection: Upgrade\r\nSec-WebSocket-Accept:s3pPLMBiTxaQ9kYGzzhZRbK+xOo=\r\nUpgrade:websocket\r\n\r\n";

// End-to-end: accept, read the request in chunks, answer the handshake.
#[test]
fn end_to_end_handshake() {
    let mut s = WebSocketServer::new();
    let token = s.on_accept(AcceptOutcome::Accepted).expect("token");
    assert!(token > SERVER_TOKEN);
    let it = s.interest_of(token).expect("registered");
    assert!(it.readable && !it.writable);

    // Deliver the request in two chunks, as the socket might.
    let d = s.ready_read(token, &REQUEST.as_bytes()[..30].to_vec());
    assert_eq!(d, ReadDirective::Continue);
    let d = s.ready_read(token, &REQUEST.as_bytes()[30..].to_vec());
    assert_eq!(d, ReadDirective::Stop);
    let it = s.interest_of(token).expect("registered");
    assert!(!it.readable && it.writable);

    match s.ready_write(token) {
        WriteDirective::Respond(bytes) => assert_eq!(bytes, RESPONSE.as_bytes().to_vec()),
        _ => panic!("expected a response"),
    }
    let it = s.interest_of(token).expect("registered");
    assert!(it.readable && !it.writable);

    // Re-dispatch after the handshake: harmless, nothing regresses.
    let d = s.ready_read(token, &b"ignored".to_vec());
    assert_eq!(d, ReadDirective::Stop);
    match s.ready_write(token) {
        WriteDirective::Nothing => {},
        _ => panic!("no second response is owed"),
    }
    let it = s.interest_of(token).expect("still registered");
    assert!(it.readable && !it.writable);
}

// The same request without the key header: the connection is dropped, no
// bytes are written, the dispatcher survives.
#[test]
fn missing_key_drops_connection() {
    let mut s = WebSocketServer::new();
    let token = s.on_accept(AcceptOutcome::Accepted).unwrap();
    let req = "GET / HTTP/1.1\r\nHost: x\r\nUpgrade: websocket\r\nConnection: Upgrade\r\n\r\n";
    let d = s.ready_read(token, &req.as_bytes().to_vec());
    assert_eq!(d, ReadDirective::Stop);
    match s.ready_write(token) {
        WriteDirective::Dropped => {},
        _ => panic!("the connection must be dropped, nothing written"),
    }
    assert!(s.interest_of(token).is_none());
    // Later events for the gone token are harmless no-ops.
    assert_eq!(s.ready_read(token, &b"x".to_vec()), ReadDirective::Unknown);
    assert!(matches!(s.ready_write(token), WriteDirective::Unknown));
    // The server still accepts new connections.
    let token2 = s.on_accept(AcceptOutcome::Accepted).unwrap();
    assert_ne!(token, token2);
}

// A failed accept leaves the server able to accept the next connection.
#[test]
fn accept_failure_is_survived() {
    let mut s = WebSocketServer::new();
    assert!(s.on_accept(AcceptOutcome::Failed).is_none());
    assert!(s.on_accept(AcceptOutcome::NonePending).is_none());
    let token = s.on_accept(AcceptOutcome::Accepted).expect("still accepting");
    assert!(token > SERVER_TOKEN);
    let d = s.ready_read(token, &REQUEST.as_bytes().to_vec());
    assert_eq!(d, ReadDirective::Stop);
}

#[test]
fn malformed_request_drops_connection() {
    let mut s = WebSocketServer::new();
    let token = s.on_accept(AcceptOutcome::Accepted).unwrap();
    let d = s.ready_read(token, &b"GET / HTTP/1.1\r\nbogus line\r\n".to_vec());
    assert_eq!(d, ReadDirective::Dropped);
    assert!(s.interest_of(token).is_none());
}

#[test]
fn non_upgrade_request_drops_connection() {
    let mut s = WebSocketServer::new();
    let token = s.on_accept(AcceptOutcome::Accepted).unwrap();
    let d = s.ready_read(token, &b"GET / HTTP/1.1\r\nHost: x\r\n\r\n".to_vec());
    assert_eq!(d, ReadDirective::Dropped);
    assert!(s.interest_of(token).is_none());
}

#[test]
fn fatal_socket_error_drops_connection() {
    let mut s = WebSocketServer::new();
    let token = s.on_accept(AcceptOutcome::Accepted).unwrap();
    assert!(s.drop_connection(token));
    assert!(!s.drop_connection(token));
    assert!(s.interest_of(token).is_none());
}

#[test]
fn tokens_are_fresh_and_increasing() {
    let mut s = WebSocketServer::new();
    let a = s.on_accept(AcceptOutcome::Accepted).unwrap();
    let b = s.on_accept(AcceptOutcome::Accepted).unwrap();
    let c = s.on_accept(AcceptOutcome::Accepted).unwrap();
    assert!(SERVER_TOKEN < a && a < b && b < c);
    // Dropping one connection touches no other.
    assert!(s.drop_connection(b));
    assert!(s.interest_of(a).is_some());
    assert!(s.interest_of(c).is_some());
}

#[test]
fn events_for_unknown_tokens_are_ignored() {
    let mut s = WebSocketServer::new();
    assert_eq!(s.ready_read(99, &b"x".to_vec()), ReadDirective::Unknown);
    assert!(matches!(s.ready_write(99), WriteDirective::Unknown));
    assert!(s.interest_of(99).is_none());
}
