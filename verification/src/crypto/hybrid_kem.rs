//! Key agreement that combines X25519 with ML-KEM-768.
use crate::bytes::{array_from, put_slice};
use crate::crypto::random::random_array;
use crate::crypto::{wipe, zeros, HYBRID_SHARED_SECRET_LEN};
use ml_kem::{Decapsulate, Encapsulate, KeyExport, TryKeyInit};
use vstd::prelude::*;

verus! {

pub const X25519_PK_LEN: usize = 32;

pub const MLKEM_PK_LEN: usize = 1184;

pub const MLKEM_SK_LEN: usize = 64;

pub const MLKEM_CT_LEN: usize = 1088;

pub const SHARED_HALF_LEN: usize = 32;

/// An ML-KEM-768 decapsulation key, held as the seed that it expands from.
pub struct MlKemSecretKey {
    pub seed: [u8; MLKEM_SK_LEN],
}

/// An ML-KEM-768 encapsulation key in its encoded form.
pub struct MlKemPublicKey {
    pub bytes: [u8; MLKEM_PK_LEN],
}

pub struct HybridKemPublicKey {
    pub x25519: [u8; X25519_PK_LEN],
    pub ml_kem: [u8; MLKEM_PK_LEN],
}

pub struct HybridKemSecretKey {
    pub x25519: [u8; X25519_PK_LEN],
    pub ml_kem: [u8; MLKEM_SK_LEN],
}

impl HybridKemSecretKey {
    /// Overwrites the secret keys.
    pub fn zeroize(&mut self)
        ensures
            final(self).x25519@ == zeros(X25519_PK_LEN as nat),
            final(self).ml_kem@ == zeros(MLKEM_SK_LEN as nat),
    {
        wipe(&mut self.x25519);
        wipe(&mut self.ml_kem);
    }
}

/// The X25519 public key of a secret key.
pub uninterp spec fn x25519_public(secret: Seq<u8>) -> Seq<u8>;

/// The X25519 shared secret of a secret key and the other side's public key.
pub uninterp spec fn x25519_shared(secret: Seq<u8>, public: Seq<u8>) -> Seq<u8>;

/// The ML-KEM-768 encapsulation key that a seed expands to.
pub uninterp spec fn mlkem768_public(seed: Seq<u8>) -> Seq<u8>;

/// Whether bytes pass the check of an ML-KEM-768 encapsulation key.
pub uninterp spec fn mlkem768_valid(public: Seq<u8>) -> bool;

/// The ciphertext and the shared key that ML-KEM-768 encapsulation gives for an
/// encapsulation key and 32 bytes of randomness.
pub uninterp spec fn mlkem768_encapsulated(public: Seq<u8>, randomness: Seq<u8>) -> (Seq<u8>, Seq<u8>);

/// The shared key that ML-KEM-768 decapsulation gives for a seed and a ciphertext.
pub uninterp spec fn mlkem768_decapsulated(seed: Seq<u8>, ciphertext: Seq<u8>) -> Seq<u8>;

/// `x25519_dalek::PublicKey::from` a `StaticSecret` of the given bytes.
#[verifier::external_body]
fn x25519_public_key(secret: &[u8; X25519_PK_LEN]) -> (r: [u8; X25519_PK_LEN])
    ensures
        r@ == x25519_public(secret@),
{
    x25519_dalek::PublicKey::from(&x25519_dalek::StaticSecret::from(*secret)).to_bytes()
}

/// `x25519_dalek::StaticSecret::diffie_hellman`. Claimed of it: the shared secret depends on
/// the two keys alone, and where the public key belongs to another secret key, that key and
/// the public key of this one give the same shared secret.
#[verifier::external_body]
fn x25519_diffie_hellman(secret: &[u8; X25519_PK_LEN], public: &[u8; X25519_PK_LEN]) -> (r: [u8; SHARED_HALF_LEN])
    ensures
        r@ == x25519_shared(secret@, public@),
        forall|other: Seq<u8>|
            other.len() == X25519_PK_LEN && public@ == #[trigger] x25519_public(other) ==> r@ == x25519_shared(
                other,
                x25519_public(secret@),
            ),
{
    let public = x25519_dalek::PublicKey::from(*public);
    x25519_dalek::StaticSecret::from(*secret).diffie_hellman(&public).to_bytes()
}

/// `ml_kem::DecapsulationKey768::encapsulation_key`, encoded. Claimed of it besides: the
/// key passes the check that `EncapsulationKey768::new_from_slice` makes.
#[verifier::external_body]
fn mlkem768_public_key(seed: &[u8; MLKEM_SK_LEN]) -> (r: [u8; MLKEM_PK_LEN])
    ensures
        r@ == mlkem768_public(seed@),
        mlkem768_valid(r@),
{
    let sk = ml_kem::DecapsulationKey768::from_seed(ml_kem::Seed::from(*seed));
    sk.encapsulation_key().to_bytes().into()
}

/// `ml_kem::EncapsulationKey768::new_from_slice`: whether it accepts the bytes.
#[verifier::external_body]
fn mlkem768_check(public: &[u8; MLKEM_PK_LEN]) -> (r: bool)
    ensures
        r == mlkem768_valid(public@),
{
    ml_kem::EncapsulationKey768::new_from_slice(public).is_ok()
}

/// `ml_kem::EncapsulationKey768::encapsulate_with_rng`: draws 32 random bytes and returns
/// the ciphertext and the shared key that belong to the key and those bytes.
#[verifier::external_body]
fn mlkem768_encapsulate(public: &[u8; MLKEM_PK_LEN]) -> (r: ([u8; MLKEM_CT_LEN], [u8; SHARED_HALF_LEN]))
    requires
        mlkem768_valid(public@),
    ensures
        exists|m: [u8; 32]| (r.0@, r.1@) == #[trigger] mlkem768_encapsulated(public@, m@),
{
    let key = ml_kem::EncapsulationKey768::new_from_slice(public).expect("the key is valid");
    let (ct, ss) = key.encapsulate_with_rng(&mut rand::rngs::ThreadRng::default());
    (ct.into(), ss.into())
}

/// `ml_kem::DecapsulationKey768::decapsulate` with the key of a seed. Nothing is claimed
/// of how it relates to encapsulation: for a few ciphertexts of an honest sender the
/// scheme does not give back the sender's shared key.
#[verifier::external_body]
fn mlkem768_decapsulate(seed: &[u8; MLKEM_SK_LEN], ct: &[u8; MLKEM_CT_LEN]) -> (r: [u8; SHARED_HALF_LEN])
    ensures
        r@ == mlkem768_decapsulated(seed@, ct@),
{
    let sk = ml_kem::DecapsulationKey768::from_seed(ml_kem::Seed::from(*seed));
    sk.decapsulate(&ml_kem::ml_kem_768::Ciphertext::from(*ct)).into()
}

/// The hybrid secret that the holder of an X25519 secret key and an ML-KEM seed shares
/// with the sender of `public` and `ct`.
pub open spec fn decapsulated(
    x25519_sk: Seq<u8>,
    public: Seq<u8>,
    mlkem_seed: Seq<u8>,
    ct: Seq<u8>,
) -> Seq<u8> {
    x25519_shared(x25519_sk, public) + mlkem768_decapsulated(mlkem_seed, ct)
}

/// Whether an X25519 secret key and ML-KEM randomness exist from which `eph_pk`, `secret`
/// and `ct` come for a receiver with the two public keys. A receiver that holds the
/// secret key of `peer_x25519` computes the X25519 half of `secret` as well.
pub open spec fn is_encapsulation(
    peer_x25519: Seq<u8>,
    peer_mlkem: Seq<u8>,
    eph_pk: Seq<u8>,
    secret: Seq<u8>,
    ct: Seq<u8>,
) -> bool {
    exists|sk: Seq<u8>, m: Seq<u8>| #[trigger] encapsulated_from(sk, m, peer_x25519, peer_mlkem, eph_pk, secret, ct)
}

/// The relation of `is_encapsulation` for a given secret key and given randomness.
pub open spec fn encapsulated_from(
    sk: Seq<u8>,
    m: Seq<u8>,
    peer_x25519: Seq<u8>,
    peer_mlkem: Seq<u8>,
    eph_pk: Seq<u8>,
    secret: Seq<u8>,
    ct: Seq<u8>,
) -> bool {
    &&& sk.len() == X25519_PK_LEN
    &&& m.len() == 32
    &&& eph_pk == x25519_public(sk)
    &&& secret == x25519_shared(sk, peer_x25519) + mlkem768_encapsulated(peer_mlkem, m).1
    &&& ct == mlkem768_encapsulated(peer_mlkem, m).0
    &&& mlkem768_encapsulated(peer_mlkem, m).1.len() == SHARED_HALF_LEN
    &&& x25519_shared(sk, peer_x25519).len() == SHARED_HALF_LEN
    &&& forall|other: Seq<u8>|
        other.len() == X25519_PK_LEN && peer_x25519 == #[trigger] x25519_public(other) ==> x25519_shared(
            sk,
            peer_x25519,
        ) == x25519_shared(other, eph_pk)
}

/// The two halves of a hybrid secret, one after the other.
fn combine(x25519_ss: [u8; SHARED_HALF_LEN], mlkem_ss: [u8; SHARED_HALF_LEN]) -> (r: [u8; HYBRID_SHARED_SECRET_LEN])
    ensures
        r@ == x25519_ss@ + mlkem_ss@,
{
    let mut combined: Vec<u8> = Vec::with_capacity(HYBRID_SHARED_SECRET_LEN);
    put_slice(&mut combined, &x25519_ss);
    put_slice(&mut combined, &mlkem_ss);
    let out: [u8; HYBRID_SHARED_SECRET_LEN] = array_from(combined.as_slice());
    assert(out@ =~= x25519_ss@ + mlkem_ss@);
    wipe(combined.as_mut_slice());
    out
}

/// A fresh long-term key pair.
pub fn generate_hybrid_keypair() -> (r: (HybridKemSecretKey, HybridKemPublicKey))
    ensures
        r.1.x25519@ == x25519_public(r.0.x25519@),
        r.1.ml_kem@ == mlkem768_public(r.0.ml_kem@),
        mlkem768_valid(r.1.ml_kem@),
{
    let x25519: [u8; X25519_PK_LEN] = random_array();
    let ml_kem: [u8; MLKEM_SK_LEN] = random_array();
    let pk = HybridKemPublicKey { x25519: x25519_public_key(&x25519), ml_kem: mlkem768_public_key(&ml_kem) };
    (HybridKemSecretKey { x25519, ml_kem }, pk)
}

/// A fresh key pair for one handshake: the X25519 secret and public keys, then the
/// ML-KEM secret and public keys.
pub fn generate_ephemeral() -> (r: ([u8; X25519_PK_LEN], [u8; X25519_PK_LEN], MlKemSecretKey, MlKemPublicKey))
    ensures
        r.1@ == x25519_public(r.0@),
        r.3.bytes@ == mlkem768_public(r.2.seed@),
        mlkem768_valid(r.3.bytes@),
{
    ephemeral_from_seeds(random_array(), random_array())
}

/// The key pair of `generate_ephemeral` for given secrets.
pub fn ephemeral_from_seeds(
    eph_sk: [u8; X25519_PK_LEN],
    seed: [u8; MLKEM_SK_LEN],
) -> (r: ([u8; X25519_PK_LEN], [u8; X25519_PK_LEN], MlKemSecretKey, MlKemPublicKey))
    ensures
        r.0 == eph_sk,
        r.1@ == x25519_public(eph_sk@),
        r.2.seed == seed,
        r.3.bytes@ == mlkem768_public(seed@),
        mlkem768_valid(r.3.bytes@),
{
    let eph_pk = x25519_public_key(&eph_sk);
    let bytes = mlkem768_public_key(&seed);
    (eph_sk, eph_pk, MlKemSecretKey { seed }, MlKemPublicKey { bytes })
}

/// Agrees on a secret with the owner of two public keys: returns a fresh X25519 public
/// key, the hybrid secret and the ML-KEM ciphertext.
pub fn encapsulate(
    peer_x25519: &[u8; X25519_PK_LEN],
    peer_mlkem: &[u8; MLKEM_PK_LEN],
) -> (r: ([u8; X25519_PK_LEN], [u8; HYBRID_SHARED_SECRET_LEN], [u8; MLKEM_CT_LEN]))
    requires
        mlkem768_valid(peer_mlkem@),
    ensures
        is_encapsulation(peer_x25519@, peer_mlkem@, r.0@, r.1@, r.2@),
{
    let eph_sk: [u8; X25519_PK_LEN] = random_array();
    let eph_pk = x25519_public_key(&eph_sk);
    let x25519_ss = x25519_diffie_hellman(&eph_sk, peer_x25519);
    let (ct, mlkem_ss) = mlkem768_encapsulate(peer_mlkem);
    let combined = combine(x25519_ss, mlkem_ss);
    proof {
        let m = choose|m: [u8; 32]| (ct@, mlkem_ss@) == #[trigger] mlkem768_encapsulated(peer_mlkem@, m@);
        assert(encapsulated_from(eph_sk@, m@, peer_x25519@, peer_mlkem@, eph_pk@, combined@, ct@));
    }
    (eph_pk, combined, ct)
}

/// `encapsulate` for an ML-KEM key that was not checked yet: `None` where the key fails
/// the check.
pub fn try_encapsulate(
    peer_x25519: &[u8; X25519_PK_LEN],
    peer_mlkem: &[u8; MLKEM_PK_LEN],
) -> (r: Option<([u8; X25519_PK_LEN], [u8; HYBRID_SHARED_SECRET_LEN], [u8; MLKEM_CT_LEN])>)
    ensures
        r is Some == mlkem768_valid(peer_mlkem@),
        r matches Some(t) ==> is_encapsulation(peer_x25519@, peer_mlkem@, t.0@, t.1@, t.2@),
{
    if mlkem768_check(peer_mlkem) {
        Some(encapsulate(peer_x25519, peer_mlkem))
    } else {
        None
    }
}

/// The hybrid secret of an ephemeral X25519 secret key, which is used up, and an ML-KEM
/// seed, with the sender of `peer_x25519` and `ct`.
pub fn decapsulate(
    x25519_sk: [u8; X25519_PK_LEN],
    peer_x25519: &[u8; X25519_PK_LEN],
    mlkem_sk_bytes: &[u8; MLKEM_SK_LEN],
    ct: &[u8; MLKEM_CT_LEN],
) -> (r: [u8; HYBRID_SHARED_SECRET_LEN])
    ensures
        r@ == decapsulated(x25519_sk@, peer_x25519@, mlkem_sk_bytes@, ct@),
{
    decapsulate_static(&x25519_sk, peer_x25519, mlkem_sk_bytes, ct)
}

/// The hybrid secret of a long-term X25519 secret key and an ML-KEM seed, with the sender
/// of `peer_x25519` and `ct`.
pub fn decapsulate_static(
    x25519_sk_bytes: &[u8; X25519_PK_LEN],
    peer_x25519: &[u8; X25519_PK_LEN],
    mlkem_sk_bytes: &[u8; MLKEM_SK_LEN],
    ct: &[u8; MLKEM_CT_LEN],
) -> (r: [u8; HYBRID_SHARED_SECRET_LEN])
    ensures
        r@ == decapsulated(x25519_sk_bytes@, peer_x25519@, mlkem_sk_bytes@, ct@),
{
    let x25519_ss = x25519_diffie_hellman(x25519_sk_bytes, peer_x25519);
    let mlkem_ss = mlkem768_decapsulate(mlkem_sk_bytes, ct);
    combine(x25519_ss, mlkem_ss)
}

/// The encoded form of an encapsulation key.
pub fn mlkem_pk_bytes(pk: &MlKemPublicKey) -> (r: [u8; MLKEM_PK_LEN])
    ensures
        r == pk.bytes,
{
    pk.bytes
}

/// The decapsulation key of a seed.
pub fn mlkem_sk_from_seed(seed: &[u8; MLKEM_SK_LEN]) -> (r: MlKemSecretKey)
    ensures
        r.seed == *seed,
{
    MlKemSecretKey { seed: *seed }
}

/// Both sides of an exchange hold the same hybrid secret: the sender who encapsulates to
/// the receiver's public keys, and the receiver who decapsulates. The one exception is a
/// ciphertext for which ML-KEM decapsulation does not return the sender's shared key.
pub proof fn law_exchange_agrees(
    sk: Seq<u8>,
    m: Seq<u8>,
    x25519_sk: Seq<u8>,
    mlkem_seed: Seq<u8>,
    eph_pk: Seq<u8>,
    secret: Seq<u8>,
    ct: Seq<u8>,
)
    requires
        x25519_sk.len() == X25519_PK_LEN,
        encapsulated_from(
            sk,
            m,
            x25519_public(x25519_sk),
            mlkem768_public(mlkem_seed),
            eph_pk,
            secret,
            ct,
        ),
        mlkem768_decapsulated(mlkem_seed, ct) == mlkem768_encapsulated(mlkem768_public(mlkem_seed), m).1,
    ensures
        decapsulated(x25519_sk, eph_pk, mlkem_seed, ct) == secret,
{
}

/// Both halves of a hybrid secret count: two exchanges with the same secret have the same
/// X25519 secret and the same ML-KEM secret.
pub proof fn law_both_halves_count(
    x25519_sk: Seq<u8>,
    public: Seq<u8>,
    mlkem_seed: Seq<u8>,
    ct: Seq<u8>,
    other_sk: Seq<u8>,
    other_public: Seq<u8>,
    other_seed: Seq<u8>,
    other_ct: Seq<u8>,
)
    requires
        decapsulated(x25519_sk, public, mlkem_seed, ct) == decapsulated(other_sk, other_public, other_seed, other_ct),
        x25519_shared(x25519_sk, public).len() == 32,
        x25519_shared(other_sk, other_public).len() == 32,
    ensures
        x25519_shared(x25519_sk, public) == x25519_shared(other_sk, other_public),
        mlkem768_decapsulated(mlkem_seed, ct) == mlkem768_decapsulated(other_seed, other_ct),
{
    let a = decapsulated(x25519_sk, public, mlkem_seed, ct);
    let b = decapsulated(other_sk, other_public, other_seed, other_ct);
    assert(a.take(32) =~= x25519_shared(x25519_sk, public));
    assert(b.take(32) =~= x25519_shared(other_sk, other_public));
    assert(a.skip(32) =~= mlkem768_decapsulated(mlkem_seed, ct));
    assert(b.skip(32) =~= mlkem768_decapsulated(other_seed, other_ct));
}

} // verus!
