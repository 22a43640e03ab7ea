//! Derivation of the WebSocket accept key.
//!
//! The accept key is the standard base64 encoding of the SHA-1 digest of the
//! client's `Sec-WebSocket-Key` value concatenated with the fixed magic GUID.

use vstd::prelude::*;
use vstd::string::StrSliceExecFns;
use vstd::string::StringSliceAdditionalSpecFns;
use sha1::Digest;
use rustc_serialize::base64::ToBase64;

verus! {

/// The fixed GUID that the WebSocket handshake appends to the client key.
pub open spec fn magic_guid_bytes() -> Seq<u8> {
    "258EAFA5-E914-47DA-95CA-C5AB0DC85B11".spec_bytes()
}

/// The 20-byte SHA-1 digest of a byte sequence, as the `sha1` crate computes it.
pub uninterp spec fn sha1_of(data: Seq<u8>) -> Seq<u8>;

/// The standard (padded, unwrapped) base64 encoding of a byte sequence, as
/// `rustc_serialize`'s `STANDARD` configuration computes it.
pub uninterp spec fn base64_of(data: Seq<u8>) -> Seq<u8>;

/// The accept key owed for a given client key.
pub open spec fn accept_key_bytes(key: Seq<u8>) -> Seq<u8> {
    base64_of(sha1_of(key + magic_guid_bytes()))
}

/// Relies on `sha1::Sha1` through the `Digest` trait: the digest depends on
/// the input bytes alone and is 160 bits (20 bytes) long.
#[verifier::external_body]
fn sha1_digest(data: &Vec<u8>) -> (r: Vec<u8>)
    ensures
        r@ == sha1_of(data@),
        r@.len() == 20,
{
    let digest = sha1::Sha1::digest(data.as_slice());
    digest.to_vec()
}

/// Relies on `rustc_serialize`'s `ToBase64` with the `STANDARD` configuration:
/// the encoding depends on the input bytes alone; with padding and no line
/// wrapping it is four bytes for every three input bytes, rounded up. The
/// bound keeps the encoder's own length arithmetic within `usize`.
#[verifier::external_body]
fn base64_encode(data: &Vec<u8>) -> (r: Vec<u8>)
    requires
        4 * ((data@.len() + 2) / 3) <= usize::MAX,
    ensures
        r@ == base64_of(data@),
        r@.len() == 4 * ((data@.len() + 2) / 3),
{
    data.as_slice().to_base64(rustc_serialize::base64::STANDARD).into_bytes()
}

/// The magic GUID as a byte vector.
pub fn magic_guid() -> (r: Vec<u8>)
    ensures
        r@ == magic_guid_bytes(),
{
    "258EAFA5-E914-47DA-95CA-C5AB0DC85B11".as_bytes_vec()
}

/// Derives the accept key for a client-supplied `Sec-WebSocket-Key` value.
pub fn gen_key(key: &Vec<u8>) -> (r: Vec<u8>)
    ensures
        r@ == accept_key_bytes(key@),
{
    let mut data: Vec<u8> = Vec::new();
    let mut i: usize = 0;
    while i < key.len()
        invariant
            i <= key.len(),
            data@ == key@.take(i as int),
        decreases key.len() - i,
    {
        data.push(key[i]);
        i = i + 1;
        proof {
            assert(data@ =~= key@.take(i as int));
        }
    }
    let mut guid = magic_guid();
    proof {
        assert(key@.take(key@.len() as int) =~= key@);
    }
    data.append(&mut guid);
    proof {
        assert(data@ == key@ + magic_guid_bytes());
    }
    let digest = sha1_digest(&data);
    base64_encode(&digest)
}

} // verus!
