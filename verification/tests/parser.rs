use ws_upgrade::bytes::{lower_eq, subvec};
use ws_upgrade::headers::{bytes_equal, HeaderMap};
use ws_upgrade::http::HttpParser;

fn feed(p: &mut HttpParser, s: &str) {
    let chunk = s.as_bytes().to_vec();
    p.parse(&chunk);
}

#[test]
fn parses_upgrade_request() {
    let mut p = HttpParser::new();
    feed(
        &mut p,
        "GET / HTTP/1.1\r\nHost: x\r\nUpgrade: websocket\r\nConnection: Upgrade\r\nSec-WebSocket-Key: dGhlIHNhbXBsZSBub25jZQ==\r\n\r\n",
    );
    assert!(p.is_upgrade());
    assert!(p.is_complete());
    assert!(!p.has_failed());
    let name = b"Sec-WebSocket-Key".to_vec();
    let v = p.headers.get(&name).expect("key header");
    assert_eq!(v, &b"dGhlIHNhbXBsZSBub25jZQ==".to_vec());
}

#[test]
fn upgrade_not_signalled_before_headers_end() {
    let mut p = HttpParser::new();
    feed(&mut p, "GET / HTTP/1.1\r\nUpgrade: websocket\r\n");
    assert!(!p.is_upgrade());
    assert!(!p.is_complete());
    feed(&mut p, "\r\n");
    assert!(p.is_upgrade());
}

#[test]
fn parses_across_arbitrary_chunk_splits() {
    let request =
        "GET / HTTP/1.1\r\nHost: x\r\nUpgrade: websocket\r\nSec-WebSocket-Key: abc\r\n\r\n";
    for cut in 1..request.len() - 1 {
        let mut p = HttpParser::new();
        feed(&mut p, &request[..cut]);
        feed(&mut p, &request[cut..]);
        assert!(p.is_upgrade(), "split at {cut}");
        let v = p.headers.get(&b"Sec-WebSocket-Key".to_vec()).unwrap();
        assert_eq!(v, &b"abc".to_vec());
    }
}

#[test]
fn upgrade_header_name_is_case_insensitive() {
    let mut p = HttpParser::new();
    feed(&mut p, "GET / HTTP/1.1\r\nUPGRADE: websocket\r\n\r\n");
    assert!(p.is_upgrade());
}

#[test]
fn value_whitespace_is_trimmed_name_kept_as_received() {
    let mut p = HttpParser::new();
    feed(&mut p, "GET / HTTP/1.1\r\nHost:\t  spaced out  \r\n\r\n");
    let v = p.headers.get(&b"Host".to_vec()).unwrap();
    assert_eq!(v, &b"spaced out".to_vec());
    // No normalization of the name: the exact bytes are the key.
    assert!(p.headers.get(&b"host".to_vec()).is_none());
}

#[test]
fn repeated_header_overwrites() {
    let mut p = HttpParser::new();
    feed(&mut p, "GET / HTTP/1.1\r\nA: 1\r\nA: 2\r\n\r\n");
    let v = p.headers.get(&b"A".to_vec()).unwrap();
    assert_eq!(v, &b"2".to_vec());
}

#[test]
fn header_line_without_colon_fails() {
    let mut p = HttpParser::new();
    feed(&mut p, "GET / HTTP/1.1\r\nthis is not a header\r\n");
    assert!(p.has_failed());
    assert!(!p.is_upgrade());
}

#[test]
fn bare_lf_line_endings_accepted() {
    let mut p = HttpParser::new();
    feed(&mut p, "GET / HTTP/1.1\nUpgrade: websocket\n\n");
    assert!(p.is_upgrade());
}

#[test]
fn header_map_insert_and_get() {
    let mut m = HeaderMap::new();
    m.insert(b"a".to_vec(), b"1".to_vec());
    m.insert(b"b".to_vec(), b"2".to_vec());
    m.insert(b"a".to_vec(), b"3".to_vec());
    assert_eq!(m.get(&b"a".to_vec()), Some(&b"3".to_vec()));
    assert_eq!(m.get(&b"b".to_vec()), Some(&b"2".to_vec()));
    assert_eq!(m.get(&b"c".to_vec()), None);
}

#[test]
fn byte_helpers() {
    assert!(bytes_equal(&b"abc".to_vec(), &b"abc".to_vec()));
    assert!(!bytes_equal(&b"abc".to_vec(), &b"abd".to_vec()));
    assert!(!bytes_equal(&b"abc".to_vec(), &b"ab".to_vec()));
    assert!(lower_eq(&b"UpGrAdE".to_vec(), &b"upgrade".to_vec()));
    assert!(!lower_eq(&b"UpGrAdE".to_vec(), &b"upgrades".to_vec()));
    assert_eq!(subvec(&b"abcdef".to_vec(), 2, 4), b"cd".to_vec());
}
