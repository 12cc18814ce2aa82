//! Signatures that hold only where both Ed25519 and ML-DSA-65 accept them.
use crate::crypto::random::random_array;
use crate::crypto::{wipe, zeros};
use ed25519_dalek::Signer;
use ml_dsa::signature::{SignatureEncoding, Verifier};
use ml_dsa::{KeyExport, KeyInit, Keypair};
use vstd::prelude::*;

verus! {

pub const ED25519_SK_LEN: usize = 32;

pub const ED25519_PK_LEN: usize = 32;

pub const ED25519_SIG_LEN: usize = 64;

pub const MLDSA_SK_LEN: usize = 32;

pub const MLDSA_PK_LEN: usize = 1952;

pub const MLDSA_SIG_LEN: usize = 3309;

pub const HYBRID_SIG_LEN: usize = ED25519_SIG_LEN + MLDSA_SIG_LEN;

pub struct HybridSigningKey {
    pub ed25519: [u8; ED25519_SK_LEN],
    pub ml_dsa_seed: [u8; MLDSA_SK_LEN],
}

pub struct HybridVerifyKey {
    pub ed25519: [u8; ED25519_PK_LEN],
    pub ml_dsa: [u8; MLDSA_PK_LEN],
}

pub struct HybridSignature {
    pub ed25519: [u8; ED25519_SIG_LEN],
    pub ml_dsa: [u8; MLDSA_SIG_LEN],
}

impl HybridSigningKey {
    /// Overwrites the secret keys.
    pub fn zeroize(&mut self)
        ensures
            final(self).ed25519@ == zeros(ED25519_SK_LEN as nat),
            final(self).ml_dsa_seed@ == zeros(MLDSA_SK_LEN as nat),
    {
        wipe(&mut self.ed25519);
        wipe(&mut self.ml_dsa_seed);
    }
}

/// The Ed25519 public key of a secret key.
pub uninterp spec fn ed25519_public(secret: Seq<u8>) -> Seq<u8>;

/// The Ed25519 signature that a secret key gives a message.
pub uninterp spec fn ed25519_signature(secret: Seq<u8>, msg: Seq<u8>) -> Seq<u8>;

/// Whether strict Ed25519 verification accepts a signature.
pub uninterp spec fn ed25519_accepts(public: Seq<u8>, msg: Seq<u8>, sig: Seq<u8>) -> bool;

/// The ML-DSA-65 public key that a seed expands to.
pub uninterp spec fn mldsa65_public(seed: Seq<u8>) -> Seq<u8>;

/// The deterministic ML-DSA-65 signature that the key of a seed gives a message; `None`
/// where the rejection sampling of the scheme runs out of attempts.
pub uninterp spec fn mldsa65_signature(seed: Seq<u8>, msg: Seq<u8>) -> Option<Seq<u8>>;

/// Whether ML-DSA-65 verification accepts a signature.
pub uninterp spec fn mldsa65_accepts(public: Seq<u8>, msg: Seq<u8>, sig: Seq<u8>) -> bool;

/// The encoding of the neutral element of the Ed25519 group.
pub open spec fn ed25519_neutral() -> Seq<u8> {
    Seq::new(32, |i: int| if i == 0 { 1u8 } else { 0u8 })
}

/// `ed25519_dalek::SigningKey::verifying_key`: the public key of a secret key.
#[verifier::external_body]
fn ed25519_public_key(secret: &[u8; ED25519_SK_LEN]) -> (r: [u8; ED25519_PK_LEN])
    ensures
        r@ == ed25519_public(secret@),
{
    ed25519_dalek::SigningKey::from_bytes(secret).verifying_key().to_bytes()
}

/// `ed25519_dalek::SigningKey::sign`, which is deterministic. Claimed of it: strict
/// verification under the signer's public key accepts the signature, unless the point
/// in the signature's first half is the neutral element, which strict verification
/// refuses as a point of small order.
#[verifier::external_body]
fn ed25519_sign(secret: &[u8; ED25519_SK_LEN], msg: &[u8]) -> (r: [u8; ED25519_SIG_LEN])
    ensures
        r@ == ed25519_signature(secret@, msg@),
        r@.take(32) != ed25519_neutral() ==> ed25519_accepts(ed25519_public(secret@), msg@, r@),
{
    ed25519_dalek::SigningKey::from_bytes(secret).sign(msg).to_bytes()
}

/// `ed25519_dalek::VerifyingKey::verify_strict`: whether the bytes of the key are those
/// of a curve point and the signature holds.
#[verifier::external_body]
fn ed25519_verify(public: &[u8; ED25519_PK_LEN], msg: &[u8], sig: &[u8; ED25519_SIG_LEN]) -> (r: bool)
    ensures
        r == ed25519_accepts(public@, msg@, sig@),
{
    match ed25519_dalek::VerifyingKey::from_bytes(public) {
        Ok(key) => key.verify_strict(msg, &ed25519_dalek::Signature::from_bytes(sig)).is_ok(),
        Err(_) => false,
    }
}

/// `ml_dsa::SigningKey::<MlDsa65>::verifying_key`: the public key of a seed.
#[verifier::external_body]
fn mldsa65_public_key(seed: &[u8; MLDSA_SK_LEN]) -> (r: [u8; MLDSA_PK_LEN])
    ensures
        r@ == mldsa65_public(seed@),
{
    let sk = ml_dsa::SigningKey::<ml_dsa::MlDsa65>::from_seed(&ml_dsa::Seed::from(*seed));
    sk.verifying_key().to_bytes().into()
}

/// `ml_dsa::SigningKey::<MlDsa65>::try_sign`, the deterministic variant with an empty
/// context. Claimed of it: whether it succeeds and what it gives depend on the seed and
/// the message alone, and verification under the seed's public key accepts a signature
/// that it gives.
#[verifier::external_body]
fn mldsa65_sign(seed: &[u8; MLDSA_SK_LEN], msg: &[u8]) -> (r: Option<[u8; MLDSA_SIG_LEN]>)
    ensures
        r is Some == mldsa65_signature(seed@, msg@) is Some,
        r matches Some(sig) ==> {
            &&& mldsa65_signature(seed@, msg@) == Some(sig@)
            &&& mldsa65_accepts(mldsa65_public(seed@), msg@, sig@)
        },
{
    let sk = ml_dsa::SigningKey::<ml_dsa::MlDsa65>::from_seed(&ml_dsa::Seed::from(*seed));
    let sig: ml_dsa::Signature<ml_dsa::MlDsa65> = sk.try_sign(msg).ok()?;
    Some(sig.to_bytes().into())
}

/// `ml_dsa::VerifyingKey::<MlDsa65>::verify`: whether the bytes are those of a
/// well-formed signature and it holds under the key.
#[verifier::external_body]
fn mldsa65_verify(public: &[u8; MLDSA_PK_LEN], msg: &[u8], sig: &[u8; MLDSA_SIG_LEN]) -> (r: bool)
    ensures
        r == mldsa65_accepts(public@, msg@, sig@),
{
    let key = match ml_dsa::VerifyingKey::<ml_dsa::MlDsa65>::new_from_slice(public) {
        Ok(key) => key,
        Err(_) => return false,
    };
    match ml_dsa::Signature::<ml_dsa::MlDsa65>::try_from(&sig[..]) {
        Ok(sig) => key.verify(msg, &sig).is_ok(),
        Err(_) => false,
    }
}

/// Whether `vk` holds the public keys of `sk`.
pub open spec fn is_keypair(sk: HybridSigningKey, vk: HybridVerifyKey) -> bool {
    &&& vk.ed25519@ == ed25519_public(sk.ed25519@)
    &&& vk.ml_dsa@ == mldsa65_public(sk.ml_dsa_seed@)
}

/// Whether `sig` is the signature that `sk` gives `msg`. Every holder of the public keys
/// of `sk` accepts it, unless its Ed25519 point is the neutral element.
pub open spec fn is_signature(sk: HybridSigningKey, msg: Seq<u8>, sig: HybridSignature) -> bool {
    &&& sig.ed25519@ == ed25519_signature(sk.ed25519@, msg)
    &&& mldsa65_signature(sk.ml_dsa_seed@, msg) == Some(sig.ml_dsa@)
    &&& forall|vk: HybridVerifyKey|
        is_keypair(sk, vk) && !is_degenerate(sig) ==> #[trigger] accepts(vk, msg, sig)
}

/// Whether both schemes accept `sig` on `msg` under `vk`.
pub open spec fn accepts(vk: HybridVerifyKey, msg: Seq<u8>, sig: HybridSignature) -> bool {
    &&& ed25519_accepts(vk.ed25519@, msg, sig.ed25519@)
    &&& mldsa65_accepts(vk.ml_dsa@, msg, sig.ml_dsa@)
}

/// Whether the point in the Ed25519 half of the signature is the neutral element.
pub open spec fn is_degenerate(sig: HybridSignature) -> bool {
    sig.ed25519@.take(32) == ed25519_neutral()
}

/// Whether `signed` holds every message on which Ed25519 accepts a signature under a key,
/// together with the signature: no one but the key's owner makes one.
pub open spec fn ed25519_signs_only(public: Seq<u8>, signed: Set<(Seq<u8>, Seq<u8>)>) -> bool {
    forall|msg: Seq<u8>, sig: Seq<u8>| #[trigger] ed25519_accepts(public, msg, sig) ==> signed.contains((msg, sig))
}

/// Whether `signed` holds every message on which ML-DSA-65 accepts a signature under a key,
/// together with the signature: no one but the key's owner makes one.
pub open spec fn mldsa65_signs_only(public: Seq<u8>, signed: Set<(Seq<u8>, Seq<u8>)>) -> bool {
    forall|msg: Seq<u8>, sig: Seq<u8>| #[trigger] mldsa65_accepts(public, msg, sig) ==> signed.contains((msg, sig))
}

/// Whether, of one of the two schemes at least, only messages in `signed` have an accepted
/// signature under the keys: one of the schemes resists forgery, and `signed` holds what
/// the owner of the keys signed.
pub open spec fn signs_only(vk: HybridVerifyKey, signed: Set<Seq<u8>>) -> bool {
    ||| forall|msg: Seq<u8>, sig: Seq<u8>| #[trigger] ed25519_accepts(vk.ed25519@, msg, sig) ==> signed.contains(msg)
    ||| forall|msg: Seq<u8>, sig: Seq<u8>| #[trigger] mldsa65_accepts(vk.ml_dsa@, msg, sig) ==> signed.contains(msg)
}

/// While one of the two schemes resists forgery, a signature is accepted only on what the
/// owner of the keys signed.
pub proof fn law_signature_needs_its_maker(
    vk: HybridVerifyKey,
    msg: Seq<u8>,
    sig: HybridSignature,
    signed: Set<Seq<u8>>,
)
    requires
        signs_only(vk, signed),
        accepts(vk, msg, sig),
    ensures
        signed.contains(msg),
{
}

/// A signature holds for its own message under its own key, and both halves of it count.
/// `ed25519` and `ml_dsa` are the messages, with their signatures, that the owner of `vk`
/// signed in each scheme, and `other_signed` what the owner of `other_vk` signed. Then `sig`
/// is refused
/// - on another message on which the owner of `vk` did not make it;
/// - under the keys of an owner who did not sign the message;
/// - with either half taken from a signature on another message.
pub proof fn law_signature_is_of_one_message_and_key(
    sk: HybridSigningKey,
    vk: HybridVerifyKey,
    msg: Seq<u8>,
    sig: HybridSignature,
    other_msg: Seq<u8>,
    other_sig: HybridSignature,
    other_vk: HybridVerifyKey,
    ed25519: Set<(Seq<u8>, Seq<u8>)>,
    ml_dsa: Set<(Seq<u8>, Seq<u8>)>,
    other_signed: Set<Seq<u8>>,
)
    requires
        is_keypair(sk, vk),
        is_signature(sk, msg, sig),
        !is_degenerate(sig),
        is_signature(sk, other_msg, other_sig),
        ed25519_signs_only(vk.ed25519@, ed25519),
        mldsa65_signs_only(vk.ml_dsa@, ml_dsa),
        signs_only(other_vk, other_signed),
    ensures
        accepts(vk, msg, sig),
        !ed25519.contains((other_msg, sig.ed25519@)) || !ml_dsa.contains((other_msg, sig.ml_dsa@)) ==> !accepts(
            vk,
            other_msg,
            sig,
        ),
        !other_signed.contains(msg) ==> !accepts(other_vk, msg, sig),
        !ed25519.contains((msg, other_sig.ed25519@)) ==> !accepts(
            vk,
            msg,
            (HybridSignature { ed25519: other_sig.ed25519, ml_dsa: sig.ml_dsa }),
        ),
        !ml_dsa.contains((msg, other_sig.ml_dsa@)) ==> !accepts(
            vk,
            msg,
            (HybridSignature { ed25519: sig.ed25519, ml_dsa: other_sig.ml_dsa }),
        ),
{
}

/// A fresh key pair.
pub fn generate_hybrid_keypair() -> (r: (HybridSigningKey, HybridVerifyKey))
    ensures
        is_keypair(r.0, r.1),
{
    keypair_from_seeds(random_array(), random_array())
}

/// The key pair of two given secret seeds.
pub fn keypair_from_seeds(
    ed25519: [u8; ED25519_SK_LEN],
    ml_dsa_seed: [u8; MLDSA_SK_LEN],
) -> (r: (HybridSigningKey, HybridVerifyKey))
    ensures
        r.0 == (HybridSigningKey { ed25519, ml_dsa_seed }),
        is_keypair(r.0, r.1),
{
    let vk = HybridVerifyKey {
        ed25519: ed25519_public_key(&ed25519),
        ml_dsa: mldsa65_public_key(&ml_dsa_seed),
    };
    (HybridSigningKey { ed25519, ml_dsa_seed }, vk)
}

/// Signs `msg` with both keys.
pub fn hybrid_sign(sk: &HybridSigningKey, msg: &[u8]) -> (sig: HybridSignature)
    requires
        mldsa65_signature(sk.ml_dsa_seed@, msg@) is Some,
    ensures
        is_signature(*sk, msg@, sig),
{
    let ed25519 = ed25519_sign(&sk.ed25519, msg);
    let ml_dsa = mldsa65_sign(&sk.ml_dsa_seed, msg);
    HybridSignature { ed25519, ml_dsa: ml_dsa.unwrap() }
}

/// Signs `msg` with both keys, or returns `None` where ML-DSA finds no signature.
pub fn try_hybrid_sign(sk: &HybridSigningKey, msg: &[u8]) -> (r: Option<HybridSignature>)
    ensures
        r is Some == mldsa65_signature(sk.ml_dsa_seed@, msg@) is Some,
        r matches Some(sig) ==> is_signature(*sk, msg@, sig),
{
    if mldsa65_sign(&sk.ml_dsa_seed, msg).is_some() {
        Some(hybrid_sign(sk, msg))
    } else {
        None
    }
}

/// Whether both halves of `sig` hold for `msg` under `vk`.
pub fn hybrid_verify(vk: &HybridVerifyKey, msg: &[u8], sig: &HybridSignature) -> (r: bool)
    ensures
        r == accepts(*vk, msg@, *sig),
{
    if !ed25519_verify(&vk.ed25519, msg, &sig.ed25519) {
        return false;
    }
    mldsa65_verify(&vk.ml_dsa, msg, &sig.ml_dsa)
}

} // verus!
