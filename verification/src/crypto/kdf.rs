//! Key derivation with BLAKE3.
use crate::bytes::put_slice;
use crate::crypto::{wipe, HYBRID_SHARED_SECRET_LEN, K_HEADER_LEN, NONCE_LEN, SESSION_KEY_LEN};
use vstd::prelude::*;

verus! {

/// What `blake3::derive_key` returns for a context string and key material.
pub uninterp spec fn blake3_derived(context: Seq<char>, material: Seq<u8>) -> Seq<u8>;

/// What `blake3::keyed_hash` returns for a key and an input.
pub uninterp spec fn blake3_keyed(key: Seq<u8>, input: Seq<u8>) -> Seq<u8>;

/// What `blake3::hash` returns for an input.
pub uninterp spec fn blake3_hashed(input: Seq<u8>) -> Seq<u8>;

/// `blake3::derive_key`: 32 bytes that depend on the context string and the key
/// material alone.
#[verifier::external_body]
fn blake3_derive_key(context: &str, material: &[u8]) -> (r: [u8; 32])
    ensures
        r@ == blake3_derived(context@, material@),
{
    blake3::derive_key(context, material)
}

/// `blake3::keyed_hash`: 32 bytes that depend on the key and the input alone.
#[verifier::external_body]
pub(crate) fn blake3_keyed_hash(key: &[u8; 32], input: &[u8]) -> (r: [u8; 32])
    ensures
        r@ == blake3_keyed(key@, input@),
{
    *blake3::keyed_hash(key, input).as_bytes()
}

/// `blake3::hash`: 32 bytes that depend on the input alone.
#[verifier::external_body]
pub(crate) fn blake3_hash(input: &[u8]) -> (r: [u8; 32])
    ensures
        r@ == blake3_hashed(input@),
{
    *blake3::hash(input).as_bytes()
}

/// The key that every node of a network shares, as derived from the network secret.
pub open spec fn network_key_of(network_secret: Seq<u8>) -> Seq<u8> {
    blake3_derived("liteway-network-key-v1"@, network_secret)
}

/// The key of a session, as derived from the hybrid shared secret.
pub open spec fn session_key_of(hybrid_ss: Seq<u8>) -> Seq<u8> {
    blake3_derived("liteway-session-key-v1"@, hybrid_ss)
}

/// The network key of a network secret.
pub fn derive_network_key(network_secret: &[u8]) -> (r: [u8; K_HEADER_LEN])
    ensures
        r@ == network_key_of(network_secret@),
{
    blake3_derive_key("liteway-network-key-v1", network_secret)
}

/// The session key of a hybrid shared secret.
pub fn derive_session_key(hybrid_ss: &[u8; HYBRID_SHARED_SECRET_LEN]) -> (r: [u8; SESSION_KEY_LEN])
    ensures
        r@ == session_key_of(hybrid_ss@),
{
    blake3_derive_key("liteway-session-key-v1", hybrid_ss)
}

/// The key that belongs to `input` under the label `context`.
pub fn derive_labeled_key(context: &'static str, input: &[u8]) -> (r: [u8; SESSION_KEY_LEN])
    ensures
        r@ == blake3_derived(context@, input@),
{
    blake3_derive_key(context, input)
}

/// The key for one payload of a session, bound to the payload's nonce.
pub fn derive_payload_key(
    session_key: &[u8; SESSION_KEY_LEN],
    nonce: &[u8; NONCE_LEN],
) -> (r: [u8; SESSION_KEY_LEN])
    ensures
        r@ == blake3_derived("liteway-payload-key-v1"@, session_key@ + nonce@),
{
    let mut input: Vec<u8> = Vec::with_capacity(SESSION_KEY_LEN + NONCE_LEN);
    put_slice(&mut input, session_key);
    put_slice(&mut input, nonce);
    assert(input@ =~= session_key@ + nonce@);
    let key = blake3_derive_key("liteway-payload-key-v1", input.as_slice());
    wipe(input.as_mut_slice());
    key
}

} // verus!
