use ws_upgrade::keys::gen_key;

// Standard WebSocket test vector: the derivation must be deterministic and
// match the reference value.
#[test]
fn accept_key_reference_vector() {
    let key = b"dGhlIHNhbXBsZSBub25jZQ==".to_vec();
    let accept = gen_key(&key);
    assert_eq!(accept, b"s3pPLMBiTxaQ9kYGzzhZRbK+xOo=".to_vec());
}

#[test]
fn accept_key_deterministic() {
    let key = b"dGhlIHNhbXBsZSBub25jZQ==".to_vec();
    assert_eq!(gen_key(&key), gen_key(&key));
}

#[test]
fn accept_key_is_padded_base64_of_digest() {
    // A 20-byte digest encodes to 28 base64 characters, padding included.
    let key = b"x".to_vec();
    let accept = gen_key(&key);
    assert_eq!(accept.len(), 28);
    assert!(accept.iter().all(|b| b.is_ascii()));
}

#[test]
fn accept_key_depends_on_input() {
    let a = gen_key(&b"aaaa".to_vec());
    let b = gen_key(&b"bbbb".to_vec());
    assert_ne!(a, b);
}
