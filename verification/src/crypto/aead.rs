//! Authenticated encryption with ChaCha20-Poly1305.
use crate::crypto::{AEAD_TAG_LEN, K_HEADER_LEN, NONCE_LEN};
use chacha20poly1305::aead::{Aead, KeyInit, Payload};
use chacha20poly1305::ChaCha20Poly1305;
use vstd::prelude::*;

verus! {

/// The first plaintext length that one key and nonce cannot encrypt. The cipher numbers its
/// blocks of 64 bytes with 32 bits, keeps the first block for the tag and does not use the
/// last number.
pub const PLAINTEXT_LIMIT: u64 = 274_877_906_817;

/// What `ChaCha20Poly1305::encrypt` returns for a key, a nonce, a plaintext below the
/// length limit and associated data.
pub uninterp spec fn aead_sealed(key: Seq<u8>, nonce: Seq<u8>, plaintext: Seq<u8>, aad: Seq<u8>) -> Seq<u8>;

/// What `ChaCha20Poly1305::decrypt` returns for a key, a nonce, a ciphertext and
/// associated data.
pub uninterp spec fn aead_opened(key: Seq<u8>, nonce: Seq<u8>, ciphertext: Seq<u8>, aad: Seq<u8>) -> Option<Seq<u8>>;

/// Encrypts `plaintext` and authenticates it together with `aad`.
///
/// `ChaCha20Poly1305::encrypt` of the `chacha20poly1305` crate. Claimed of it: the
/// result depends on the four arguments alone, is as long as the plaintext and a tag,
/// and opens again, under the same key, nonce and associated data, to the plaintext.
/// The keystream is too short for a plaintext of `PLAINTEXT_LIMIT` bytes or more.
#[verifier::external_body]
pub fn encrypt(key: &[u8; K_HEADER_LEN], nonce: &[u8; NONCE_LEN], plaintext: &[u8], aad: &[u8]) -> (r: Vec<u8>)
    requires
        plaintext@.len() < PLAINTEXT_LIMIT,
    ensures
        r@ == aead_sealed(key@, nonce@, plaintext@, aad@),
        r@.len() == plaintext@.len() + AEAD_TAG_LEN,
        aead_opened(key@, nonce@, r@, aad@) == Some(plaintext@),
{
    let cipher = ChaCha20Poly1305::new_from_slice(key).expect("key length is correct");
    let nonce = chacha20poly1305::Nonce::from(*nonce);
    cipher.encrypt(&nonce, Payload { msg: plaintext, aad }).expect("plaintext is below the limit")
}

/// Opens `ciphertext`, or returns `None` where its tag does not fit.
///
/// `ChaCha20Poly1305::decrypt` of the `chacha20poly1305` crate. Claimed of it: the
/// result depends on the four arguments alone, and a ciphertext that opens is, byte for
/// byte, what encrypting the plaintext gives under the same key, nonce and associated
/// data (the tag is computed anew and compared in full). The keystream is too short for a
/// plaintext of `PLAINTEXT_LIMIT` bytes or more.
#[verifier::external_body]
pub fn decrypt(key: &[u8; K_HEADER_LEN], nonce: &[u8; NONCE_LEN], ciphertext: &[u8], aad: &[u8]) -> (r: Option<Vec<u8>>)
    requires
        ciphertext@.len() < PLAINTEXT_LIMIT + AEAD_TAG_LEN,
    ensures
        r is Some == aead_opened(key@, nonce@, ciphertext@, aad@) is Some,
        r matches Some(p) ==> {
            &&& aead_opened(key@, nonce@, ciphertext@, aad@) == Some(p@)
            &&& p@.len() + AEAD_TAG_LEN == ciphertext@.len()
            &&& p@.len() < PLAINTEXT_LIMIT
            &&& ciphertext@ == aead_sealed(key@, nonce@, p@, aad@)
        },
{
    let cipher = ChaCha20Poly1305::new_from_slice(key).expect("key length is correct");
    let nonce = chacha20poly1305::Nonce::from(*nonce);
    cipher.decrypt(&nonce, Payload { msg: ciphertext, aad }).ok()
}

} // verus!
